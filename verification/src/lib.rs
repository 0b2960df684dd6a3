//! A persistent key-value storage engine in the Bitcask style: an append-only
//! log of records, indexed by an in-memory map from key to the latest on-disk
//! position.
//!
//! The engine itself works on an in-memory image of the data directory: every
//! data file is a byte vector, and every operation (append, rotation, batch
//! commit, recovery scan, merge) is verified against a mathematical model of
//! the log. Callers that want durable storage mirror the image to disk.
use vstd::prelude::*;

pub mod batch;
pub mod btree;
pub mod data_file;
pub mod db;
pub mod error;
pub mod index;
pub mod iterator;
pub mod replay;
pub mod log_record;
pub mod options;
pub mod rand_kv;
pub mod varint;

verus! {

pub fn add(left: usize, right: usize) -> (r: usize)
    requires
        left + right <= usize::MAX,
    ensures
        r == left + right,
{
    left + right
}

} // verus!
