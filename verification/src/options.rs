//! Configuration for the engine, its iterators and its write batches.
use vstd::prelude::*;
use vstd::string::StringExecFns;

verus! {

#[derive(Clone, Debug)]
pub struct Options {
    /// the data directory
    pub dir_path: String,
    /// rotation threshold for data files, in bytes
    pub data_file_size: u64,
    /// fsync after every write
    pub sync_writes: bool,
    /// which index structure backs the engine
    pub index_type: IndexType,
    /// fsync once this many bytes have accumulated; zero disables
    pub bytes_per_sync: usize,
    /// map data files into memory while the engine starts
    pub mmap_at_startup: bool,
    /// least share of reclaimable bytes that permits a merge, in percent
    /// of the total data size (0 to 100)
    pub data_file_merge_ratio: u8,
}

#[derive(Clone, Copy, Debug, PartialEq, Eq, Structural)]
pub enum IndexType {
    /// ordered map
    BTree,
    /// concurrent skip list
    SkipList,
    /// disk-backed B+ tree
    BPlusTree,
}

impl Default for Options {
    fn default() -> (r: Self)
        ensures
            r.data_file_size == 256 * 1024 * 1024,
            !r.sync_writes,
            r.index_type == IndexType::BTree,
            r.bytes_per_sync == 0,
            r.mmap_at_startup,
            r.data_file_merge_ratio == 50,
            r.dir_path@.len() > 0,
    {
        let dir = String::from_str("/tmp/bitcask-rs");
        proof {
            reveal_strlit("/tmp/bitcask-rs");
        }
        Options {
            dir_path: dir,
            data_file_size: 256 * 1024 * 1024,
            sync_writes: false,
            index_type: IndexType::BTree,
            bytes_per_sync: 0,
            mmap_at_startup: true,
            data_file_merge_ratio: 50,
        }
    }
}

pub struct IteratorOptions {
    /// yield only keys that start with this prefix; empty disables
    pub prefix: Vec<u8>,
    /// iterate from the largest key to the smallest
    pub reverse: bool,
}

impl Default for IteratorOptions {
    fn default() -> (r: Self)
        ensures
            r.prefix@ == Seq::<u8>::empty(),
            !r.reverse,
    {
        IteratorOptions { prefix: Vec::new(), reverse: false }
    }
}

pub struct WriteBatchOptions {
    /// the most records a single batch may stage
    pub max_batch_num: usize,
    /// fsync when the batch commits
    pub sync_writes: bool,
}

impl Default for WriteBatchOptions {
    fn default() -> (r: Self)
        ensures
            r.max_batch_num == 10000,
            r.sync_writes,
    {
        WriteBatchOptions { max_batch_num: 10000, sync_writes: true }
    }
}

#[derive(Clone, Copy, Debug, PartialEq, Eq, Structural)]
pub enum IOType {
    /// ordinary file descriptors
    StandardFIO,
    /// a read-only memory map
    MemoryMap,
}

} // verus!
