//! Atomic multi-operation batches.
//!
//! A batch stages writes in memory; nothing is visible until `commit`
//! writes every staged record under one fresh sequence number, followed by
//! the finish marker that makes them durable as a unit.
use crate::db::{
    batch_entry_wf, batch_recs, cat_recs, entry_ops, fin_rec, rooms, Engine,
};
use crate::error::Errors;
use crate::index::key_eq;
use crate::log_record::{LogRecord, LogRecordType};
use crate::options::{IndexType, WriteBatchOptions};
use crate::replay::{apply_ops, StagedOp};
use vstd::prelude::*;

verus! {

/// Is `k` one of the staged keys?
pub open spec fn ops_has_key(ops: Seq<StagedOp>, k: Seq<u8>) -> bool {
    exists|i: int| 0 <= i < ops.len() && (#[trigger] ops[i]).key == k
}

/// The index of the staged operation for `k`.
pub open spec fn ops_idx(ops: Seq<StagedOp>, k: Seq<u8>) -> int {
    choose|i: int| 0 <= i < ops.len() && (#[trigger] ops[i]).key == k
}

/// Stages `op`, replacing an earlier operation on the same key.
pub open spec fn ops_upsert(ops: Seq<StagedOp>, op: StagedOp) -> Seq<StagedOp> {
    if ops_has_key(ops, op.key) {
        ops.update(ops_idx(ops, op.key), op)
    } else {
        ops.push(op)
    }
}

/// Drops whatever is staged for `k`.
pub open spec fn ops_remove_key(ops: Seq<StagedOp>, k: Seq<u8>) -> Seq<StagedOp> {
    if ops_has_key(ops, k) {
        ops.remove(ops_idx(ops, k))
    } else {
        ops
    }
}

/// Every staged key appears once.
pub open spec fn ops_distinct(ops: Seq<StagedOp>) -> bool {
    forall|i: int, j: int|
        0 <= i < j < ops.len() ==> (#[trigger] ops[i]).key != (#[trigger] ops[j]).key
}

/// With distinct keys, each key names one staged operation.
proof fn lemma_ops_idx(ops: Seq<StagedOp>, i: int)
    requires
        ops_distinct(ops),
        0 <= i < ops.len(),
    ensures
        ops_has_key(ops, ops[i].key),
        ops_idx(ops, ops[i].key) == i,
{
    assert(ops_has_key(ops, ops[i].key));
    let j = ops_idx(ops, ops[i].key);
    assert(0 <= j < ops.len() && ops[j].key == ops[i].key);
}

/// A set of staged writes that commits atomically.
pub struct WriteBatch {
    /// staged records, keyed by user key; each record's key field holds
    /// the user key
    pending_writes: Vec<(Vec<u8>, LogRecord)>,
    options: WriteBatchOptions,
}

impl WriteBatch {
    /// The staged entries.
    pub closed spec fn stage(&self) -> Seq<(Vec<u8>, LogRecord)> {
        self.pending_writes@
    }

    /// The staged operations, in staging order.
    pub open spec fn ops(&self) -> Seq<StagedOp> {
        entry_ops(self.stage())
    }

    pub closed spec fn max_batch(&self) -> int {
        self.options.max_batch_num as int
    }

    pub closed spec fn sync_on_commit(&self) -> bool {
        self.options.sync_writes
    }

    pub closed spec fn inv(&self) -> bool {
        &&& forall|i: int|
            0 <= i < self.stage().len() ==> batch_entry_wf(#[trigger] self.stage()[i])
        &&& ops_distinct(entry_ops(self.stage()))
    }

    /// The index of the staged entry for `k`, if one exists.
    fn find(&self, key: &Vec<u8>) -> (r: Option<usize>)
        ensures
            match r {
                Some(i) => i < self.stage().len() && self.stage()[i as int].0@ == key@,
                None => forall|i: int|
                    0 <= i < self.stage().len() ==> (#[trigger] self.stage()[i]).0@ != key@,
            },
    {
        let n = self.pending_writes.len();
        let mut i: usize = 0;
        while i < n
            invariant
                i <= n == self.stage().len(),
                forall|j: int| 0 <= j < i ==> (#[trigger] self.stage()[j]).0@ != key@,
            decreases n - i,
        {
            if key_eq(&self.pending_writes[i].0, key) {
                return Some(i);
            }
            i = i + 1;
        }
        None
    }

    /// Stages `value` under `key`, replacing any earlier staged entry for
    /// that key.
    pub fn put(&mut self, key: Vec<u8>, value: Vec<u8>) -> (r: Result<(), Errors>)
        requires
            old(self).inv(),
            key@.len() + value@.len() + 34 <= u32::MAX,
        ensures
            final(self).inv(),
            final(self).max_batch() == old(self).max_batch(),
            final(self).sync_on_commit() == old(self).sync_on_commit(),
            match r {
                Ok(_) => final(self).ops() == ops_upsert(
                    old(self).ops(),
                    StagedOp { rec_type: LogRecordType::Normal, key: key@, value: value@ },
                ),
                Err(e) => e == Errors::KeyIsEmpty && final(self).stage() == old(self).stage(),
            },
            r is Ok <==> key@.len() > 0,
    {
        if key.len() == 0 {
            return Err(Errors::KeyIsEmpty);
        }
        let ghost op = StagedOp { rec_type: LogRecordType::Normal, key: key@, value: value@ };
        let idx = self.find(&key);
        let record = LogRecord { key: Vec::new(), value, rec_type: LogRecordType::Normal };
        match idx {
            Some(i) => {
                self.pending_writes[i] = (key, record);
                proof {
                    lemma_ops_idx(old(self).ops(), i as int);
                    assert(self.ops() =~= old(self).ops().update(i as int, op));
                    assert(ops_has_key(old(self).ops(), key@)) by {
                        assert(old(self).ops()[i as int].key == key@);
                    }
                    assert(self.inv()) by {
                        assert(forall|t: int|
                            0 <= t < self.ops().len() ==> (#[trigger] self.ops()[t]).key == old(
                                self,
                            ).ops()[t].key);
                    }
                }
            },
            None => {
                self.pending_writes.push((key, record));
                proof {
                    assert(self.ops() =~= old(self).ops().push(op));
                    assert(!ops_has_key(old(self).ops(), key@)) by {
                        if ops_has_key(old(self).ops(), key@) {
                            let i = ops_idx(old(self).ops(), key@);
                            assert(old(self).stage()[i].0@ == key@);
                        }
                    }
                    assert(self.inv()) by {
                        assert(forall|t: int|
                            0 <= t < old(self).ops().len() ==> (#[trigger] self.ops()[t]) == old(
                                self,
                            ).ops()[t]);
                    }
                }
            },
        }
        Ok(())
    }

    /// Stages a removal of `key`. When the store has no such key, any
    /// staged entry for it is simply dropped; otherwise a tombstone
    /// replaces whatever was staged.
    pub fn delete(&mut self, engine: &Engine, key: Vec<u8>) -> (r: Result<(), Errors>)
        requires
            old(self).inv(),
            engine.wf(),
            key@.len() + 34 <= u32::MAX,
        ensures
            final(self).inv(),
            final(self).max_batch() == old(self).max_batch(),
            final(self).sync_on_commit() == old(self).sync_on_commit(),
            match r {
                Ok(_) => final(self).ops() == if engine.kv().contains_key(key@) {
                    ops_upsert(
                        old(self).ops(),
                        StagedOp {
                            rec_type: LogRecordType::Deleted,
                            key: key@,
                            value: Seq::empty(),
                        },
                    )
                } else {
                    ops_remove_key(old(self).ops(), key@)
                },
                Err(e) => e == Errors::KeyIsEmpty && final(self).stage() == old(self).stage(),
            },
            r is Ok <==> key@.len() > 0,
    {
        if key.len() == 0 {
            return Err(Errors::KeyIsEmpty);
        }
        let ghost op = StagedOp { rec_type: LogRecordType::Deleted, key: key@, value: Seq::empty() };
        let present = engine.contains_key(&key);
        let idx = self.find(&key);
        if !present {
            if let Some(i) = idx {
                let ghost st0 = self.pending_writes@;
                self.pending_writes.remove(i);
                proof {
                    st0.remove_ensures(i as int);
                    lemma_ops_idx(old(self).ops(), i as int);
                    assert(ops_has_key(old(self).ops(), key@)) by {
                        assert(old(self).ops()[i as int].key == key@);
                    }
                    assert(self.ops() =~= old(self).ops().remove(i as int));
                    old(self).ops().remove_ensures(i as int);
                    assert(self.inv()) by {
                        assert forall|t: int| 0 <= t < self.stage().len() implies batch_entry_wf(
                            #[trigger] self.stage()[t],
                        ) by {
                            if t < i {
                                assert(self.stage()[t] == old(self).stage()[t]);
                            } else {
                                assert(self.stage()[t] == old(self).stage()[t + 1]);
                            }
                        }
                        assert forall|a: int, b: int|
                            0 <= a < b < self.ops().len() implies (#[trigger] self.ops()[a]).key
                            != (#[trigger] self.ops()[b]).key by {
                            let a0 = if a < i {
                                a
                            } else {
                                a + 1
                            };
                            let b0 = if b < i {
                                b
                            } else {
                                b + 1
                            };
                            assert(self.ops()[a] == old(self).ops()[a0]);
                            assert(self.ops()[b] == old(self).ops()[b0]);
                        }
                    }
                }
            } else {
                proof {
                    assert(!ops_has_key(old(self).ops(), key@)) by {
                        if ops_has_key(old(self).ops(), key@) {
                            let i = ops_idx(old(self).ops(), key@);
                            assert(old(self).stage()[i].0@ == key@);
                        }
                    }
                }
            }
            return Ok(());
        }
        let record = LogRecord {
            key: Vec::new(),
            value: Vec::new(),
            rec_type: LogRecordType::Deleted,
        };
        match idx {
            Some(i) => {
                self.pending_writes[i] = (key, record);
                proof {
                    lemma_ops_idx(old(self).ops(), i as int);
                    assert(self.ops() =~= old(self).ops().update(i as int, op));
                    assert(ops_has_key(old(self).ops(), key@)) by {
                        assert(old(self).ops()[i as int].key == key@);
                    }
                    assert(self.inv()) by {
                        assert(forall|t: int|
                            0 <= t < self.ops().len() ==> (#[trigger] self.ops()[t]).key == old(
                                self,
                            ).ops()[t].key);
                    }
                }
            },
            None => {
                self.pending_writes.push((key, record));
                proof {
                    assert(self.ops() =~= old(self).ops().push(op));
                    assert(!ops_has_key(old(self).ops(), key@)) by {
                        if ops_has_key(old(self).ops(), key@) {
                            let i = ops_idx(old(self).ops(), key@);
                            assert(old(self).stage()[i].0@ == key@);
                        }
                    }
                    assert(self.inv()) by {
                        assert(forall|t: int|
                            0 <= t < old(self).ops().len() ==> (#[trigger] self.ops()[t]) == old(
                                self,
                            ).ops()[t]);
                    }
                }
            },
        }
        Ok(())
    }

    /// Commits the staged writes as one unit: either all of them become
    /// visible, or none. Success is owed exactly when the stage is empty,
    /// or fits its maximum, a sequence number is left, and the files have
    /// room for the records and the marker.
    pub fn commit(&mut self, engine: &mut Engine) -> (r: Result<(), Errors>)
        requires
            old(self).inv(),
            old(engine).wf(),
        ensures
            final(engine).wf(),
            final(engine).opts() == old(engine).opts(),
            final(self).inv(),
            final(self).max_batch() == old(self).max_batch(),
            match r {
                Ok(_) => {
                    &&& final(engine).kv() == apply_ops(
                        old(engine).kv(),
                        entry_ops(old(self).stage()),
                    )
                    &&& old(self).stage().len() <= old(self).max_batch()
                    &&& final(self).stage().len() == 0
                    &&& if old(self).stage().len() == 0 {
                        *final(engine) == *old(engine)
                    } else {
                        &&& final(engine).seq() == old(engine).seq() + 1
                        &&& cat_recs(final(engine).files()) == cat_recs(old(engine).files())
                            + batch_recs(old(self).stage(), old(engine).seq()) + seq![
                            fin_rec(old(engine).seq()),
                        ]
                    }
                },
                Err(e) => {
                    &&& final(engine).kv() == old(engine).kv()
                    &&& final(self).stage() == old(self).stage()
                    &&& (e == Errors::ExceedMaxBatchNum <==> old(self).stage().len() > old(
                        self,
                    ).max_batch())
                    &&& (e == Errors::ExceedMaxBatchNum || e == Errors::UnableToUseWriteBatch || e
                        == Errors::FailedWriteToDataFile || e == Errors::FailedOpenDataFile)
                    &&& ((e == Errors::ExceedMaxBatchNum || e == Errors::UnableToUseWriteBatch)
                        ==> *final(engine) == *old(engine))
                },
            },
            r is Ok <==> (old(self).stage().len() == 0 || (old(self).stage().len() <= old(
                self,
            ).max_batch() && old(engine).seq() < u64::MAX && rooms(
                old(engine).files().last().data().len() as int,
                old(engine).files().last().id(),
                old(engine).opts().data_file_size as int,
                batch_recs(old(self).stage(), old(engine).seq()).push(
                    fin_rec(old(engine).seq()),
                ),
            ))),
    {
        let r = engine.commit_batch(
            &self.pending_writes,
            self.options.max_batch_num,
            self.options.sync_writes,
        );
        match r {
            Ok(_) => {
                self.pending_writes.clear();
                Ok(())
            },
            Err(e) => Err(e),
        }
    }
}

impl Engine {
    /// Starts an empty batch under the given options. With the disk-backed
    /// index a persisted sequence number must have been found unless the
    /// directory is fresh, else new batches could collide with historical
    /// ones.
    pub fn new_write_batch(&self, options: WriteBatchOptions) -> (r: Result<WriteBatch, Errors>)
        ensures
            match r {
                Ok(b) => {
                    &&& b.inv()
                    &&& b.stage().len() == 0
                    &&& b.max_batch() == options.max_batch_num
                    &&& b.sync_on_commit() == options.sync_writes
                },
                Err(e) => e == Errors::UnableToUseWriteBatch,
            },
            r is Ok <==> !(self.opts().index_type == IndexType::BPlusTree
                && !self.seq_file_known() && !self.initial()),
    {
        if !self.can_use_write_batch() {
            return Err(Errors::UnableToUseWriteBatch);
        }
        Ok(WriteBatch { pending_writes: Vec::new(), options })
    }
}

} // verus!
