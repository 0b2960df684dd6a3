//! The storage engine: an append-only set of data files and the in-memory
//! index over them.
//!
//! The committed contents of the engine are `kv()`: the replay of every
//! record in its files. Each operation's contract says what it does to
//! that map, and the engine invariant ties the index to it: every indexed
//! key points at a live record whose value is the key's current value.
use crate::data_file::{enc_list, lemma_enc_list_push, DataFile};
use crate::error::Errors;
use crate::index::{new_indexer, IndexIterator, Indexer, IndexImpl};
use crate::log_record::{
    enc, enc_at, lemma_enc_len, rec_fits, LogRecord, LogRecordPos, LogRecordType, Rec,
};
use crate::options::{IndexType, Options};
use crate::varint::varint;
use crate::replay::{
    init_state, key_parses, key_seq_no, key_with_seq, lemma_key_parse, lemma_pending_bounded,
    lemma_replay_push, log_record_key_with_seq, replay, step, ReplayState, StagedOp,
};
use vstd::prelude::*;

verus! {

/// Statistics of a running engine.
#[derive(Debug)]
pub struct Stat {
    /// how many keys the store holds
    pub key_num: usize,
    /// how many data files the store spans
    pub data_file_num: usize,
    /// how many bytes a merge could reclaim
    pub reclaim_size: usize,
    /// how many bytes the data files occupy
    pub disk_size: u64,
}

/// An ordinary stored record for `k`, under sequence number `sq`.
pub open spec fn normal_rec(sq: u64, k: Seq<u8>, v: Seq<u8>) -> Rec {
    Rec { key: key_with_seq(sq, k), value: v, rec_type: LogRecordType::Normal }
}

/// All records of a file sequence, in order.
pub open spec fn cat_recs(fs: Seq<DataFile>) -> Seq<Rec>
    decreases fs.len(),
{
    if fs.len() == 0 {
        Seq::empty()
    } else {
        cat_recs(fs.drop_last()) + fs.last().recs()
    }
}

pub proof fn lemma_cat_recs_push(fs: Seq<DataFile>, f: DataFile)
    ensures
        cat_recs(fs.push(f)) == cat_recs(fs) + f.recs(),
{
    assert(fs.push(f).drop_last() =~= fs);
    assert(fs.push(f).last() == f);
}

/// The bytes the first `i` files occupy together.
pub open spec fn total_data(fs: Seq<DataFile>, i: int) -> int
    decreases i,
{
    if i <= 0 {
        0
    } else {
        total_data(fs, i - 1) + fs[i - 1].data().len()
    }
}

/// The record `rec` sits at position `p` in one of the files.
pub open spec fn rec_at_pos(fs: Seq<DataFile>, p: LogRecordPos, rec: Rec) -> bool {
    exists|i: int|
        0 <= i < fs.len() && (#[trigger] fs[i]).id() == p.file_id && enc_at(
            fs[i].data(),
            p.offset as int,
            rec,
        ) && p.size == enc(rec).len()
}

/// The position `p` carries an ordinary record for `k` with some value.
pub open spec fn pos_holds_key(fs: Seq<DataFile>, p: LogRecordPos, k: Seq<u8>) -> bool {
    exists|sq: u64, v: Seq<u8>| #[trigger] rec_at_pos(fs, p, normal_rec(sq, k, v))
}

/// The position `p` carries `k` with value `v`: a Normal record under some
/// sequence number.
pub open spec fn entry_ok(fs: Seq<DataFile>, p: LogRecordPos, k: Seq<u8>, v: Seq<u8>) -> bool {
    exists|sq: u64| rec_at_pos(fs, p, #[trigger] normal_rec(sq, k, v))
}

/// Whatever record sits at a position keeps sitting there: file contents
/// only ever grow.
pub open spec fn files_extend(a: Seq<DataFile>, b: Seq<DataFile>) -> bool {
    forall|p: LogRecordPos, rec: Rec| #[trigger]
        rec_at_pos(a, p, rec) ==> rec_at_pos(b, p, rec)
}

/// File sequences whose files hold the same records hold the same records
/// overall.
pub proof fn lemma_cat_recs_congruent(a: Seq<DataFile>, b: Seq<DataFile>)
    requires
        a.len() == b.len(),
        forall|i: int| 0 <= i < a.len() ==> (#[trigger] a[i]).recs() == b[i].recs(),
    ensures
        cat_recs(a) == cat_recs(b),
    decreases a.len(),
{
    if a.len() > 0 {
        lemma_cat_recs_congruent(a.drop_last(), b.drop_last());
        assert(forall|i: int|
            0 <= i < a.len() - 1 ==> (#[trigger] a.drop_last()[i]).recs() == a[i].recs()
                && b.drop_last()[i].recs() == b[i].recs());
        assert(a.last().recs() == b.last().recs());
    }
}

/// When every file keeps its id and only grows, every stored record stays
/// where it was.
pub proof fn lemma_extend_pointwise(a: Seq<DataFile>, b: Seq<DataFile>)
    requires
        a.len() <= b.len(),
        forall|i: int|
            0 <= i < a.len() ==> (#[trigger] b[i]).id() == a[i].id() && a[i].data().len()
                <= b[i].data().len() && b[i].data().subrange(0, a[i].data().len() as int)
                == a[i].data(),
    ensures
        files_extend(a, b),
{
    assert forall|p: LogRecordPos, rec: Rec| #[trigger] rec_at_pos(a, p, rec) implies rec_at_pos(
        b,
        p,
        rec,
    ) by {
        let i = choose|i: int|
            0 <= i < a.len() && (#[trigger] a[i]).id() == p.file_id && enc_at(
                a[i].data(),
                p.offset as int,
                rec,
            ) && p.size == enc(rec).len();
        lemma_enc_at_prefix(a[i].data(), b[i].data(), p.offset as int, rec);
        assert(b[i].id() == p.file_id);
    }
}

/// A byte string keeps every encoding it holds when it grows at the end.
pub proof fn lemma_enc_at_prefix(s1: Seq<u8>, s2: Seq<u8>, off: int, rec: Rec)
    requires
        enc_at(s1, off, rec),
        s1.len() <= s2.len(),
        s2.subrange(0, s1.len() as int) == s1,
    ensures
        enc_at(s2, off, rec),
{
    assert(s2.subrange(off, off + enc(rec).len()) =~= s1.subrange(off, off + enc(rec).len())) by {
        assert(forall|i: int|
            0 <= i < s1.len() ==> #[trigger] s2[i] == s1.subrange(0, s1.len() as int)[i]);
    }
}

/// The Bitcask storage engine over an in-memory image of its directory.
pub struct Engine {
    options: Options,
    /// the data file that takes appends
    active_file: DataFile,
    /// the immutable data files, ascending by id
    older_files: Vec<DataFile>,
    /// key to latest position
    index: IndexImpl,
    /// the next batch sequence number
    seq_no: u64,
    /// bytes written since the last fsync
    bytes_write: u64,
    /// bytes that a merge could reclaim
    reclaim_size: usize,
    /// whether a persisted sequence number was found at open
    seq_file_exists: bool,
    /// whether this engine initialized its directory
    is_initial: bool,
}

impl Engine {
    /// The file set, oldest first, the active file last.
    pub closed spec fn files(&self) -> Seq<DataFile> {
        self.older_files@.push(self.active_file)
    }

    pub closed spec fn opts(&self) -> Options {
        self.options
    }

    pub closed spec fn seq(&self) -> u64 {
        self.seq_no
    }

    pub closed spec fn reclaimable(&self) -> int {
        self.reclaim_size as int
    }

    pub closed spec fn index_map(&self) -> Map<Seq<u8>, LogRecordPos> {
        self.index.m()
    }

    /// The replay of everything in the files.
    pub open spec fn rp(&self) -> ReplayState {
        replay(init_state(), cat_recs(self.files()))
    }

    /// The committed key-value contents of the engine.
    pub open spec fn kv(&self) -> Map<Seq<u8>, Seq<u8>> {
        self.rp().kv
    }

    /// The structural half of the invariant: the files are well formed,
    /// track their records, and carry ascending ids.
    pub closed spec fn wf_store(&self) -> bool {
        &&& self.active_file.wf()
        &&& self.active_file.tracks()
        &&& forall|i: int|
            0 <= i < self.older_files@.len() ==> (#[trigger] self.older_files@[i]).wf()
                && self.older_files@[i].tracks()
        &&& forall|i: int, j: int|
            0 <= i < j < self.older_files@.len() ==> (#[trigger] self.older_files@[i]).id() < (
            #[trigger] self.older_files@[j]).id()
        &&& forall|i: int|
            0 <= i < self.older_files@.len() ==> (#[trigger] self.older_files@[i]).id()
                < self.active_file.id()
        &&& forall|i: int, j: int|
            0 <= i < self.files().len() && 0 <= j < self.files()[i].recs().len() ==> key_parses(
                (#[trigger] self.files()[i].recs()[j]).key,
            )
    }

    /// The index half of the invariant: the index is exactly the replay's
    /// visible map, and every entry points at a live record.
    pub closed spec fn wf_index(&self) -> bool {
        &&& self.index.inv()
        &&& forall|k: Seq<u8>|
            self.index.m().contains_key(k) <==> #[trigger] self.rp().kv.contains_key(k)
        &&& forall|k: Seq<u8>|
            #[trigger] self.index.m().contains_key(k) ==> entry_ok(
                self.files(),
                self.index.m()[k],
                k,
                self.rp().kv[k],
            )
    }

    /// The whole invariant.
    pub closed spec fn wf(&self) -> bool {
        &&& self.wf_store()
        &&& self.wf_index()
        &&& self.rp().max_seq < self.seq_no
    }

    /// Whether an append of `n` encoded bytes can succeed in the current
    /// state: a rotation must have a fresh id left, and the receiving file
    /// must be able to grow by `n` bytes.
    pub open spec fn append_room(&self, n: int) -> bool {
        if self.files().last().data().len() + n > self.opts().data_file_size {
            &&& self.files().last().id() < u32::MAX
            &&& n + 32 <= usize::MAX
        } else {
            self.files().last().data().len() + n + 32 <= usize::MAX
        }
    }

    /// What appending one record does to the file set: the record lands
    /// at the tail, a full active file first rotates away, and no other
    /// file changes.
    pub open spec fn appended_one(pre: Engine, post: Engine, rec: Rec) -> bool {
        let n = enc(rec).len() as int;
        let rotated = pre.files().last().data().len() + n > pre.opts().data_file_size;
        &&& cat_recs(post.files()) == cat_recs(pre.files()).push(rec)
        &&& post.files().len() == pre.files().len() + (if rotated {
            1int
        } else {
            0
        })
        &&& post.files().last().id() == pre.files().last().id() + (if rotated {
            1int
        } else {
            0
        })
        &&& post.files().last().data().len() == (if rotated {
            n
        } else {
            pre.files().last().data().len() + n
        })
    }

    /// The files hold the same ids and bytes.
    pub open spec fn files_data_eq(a: Seq<DataFile>, b: Seq<DataFile>) -> bool {
        &&& a.len() == b.len()
        &&& forall|i: int|
            0 <= i < a.len() ==> (#[trigger] b[i]).id() == a[i].id() && b[i].data() == a[i].data()
    }

    /// The counters saturate at the address-space top.
    pub open spec fn sat_cap(x: int) -> int {
        if x <= usize::MAX {
            x
        } else {
            usize::MAX as int
        }
    }

    /// Looks up the older file that carries `fid`.
    fn find_older(&self, fid: u32) -> (r: Option<usize>)
        ensures
            match r {
                Some(i) => i < self.older_files@.len() && self.older_files@[i as int].id() == fid,
                None => forall|i: int|
                    0 <= i < self.older_files@.len() ==> (#[trigger] self.older_files@[i]).id()
                        != fid,
            },
    {
        let n = self.older_files.len();
        let mut i: usize = 0;
        while i < n
            invariant
                i <= n == self.older_files@.len(),
                forall|j: int|
                    0 <= j < i ==> (#[trigger] self.older_files@[j]).id() != fid,
            decreases n - i,
        {
            if self.older_files[i].get_file_id() == fid {
                return Some(i);
            }
            i = i + 1;
        }
        None
    }

    /// Reads the record known to sit at `off` in `f`.
    fn read_known_record(f: &DataFile, off: u64, Ghost(wit): Ghost<Rec>) -> (rr:
        crate::log_record::ReadLogRecord)
        requires
            f.wf(),
            enc_at(f.data(), off as int, wit),
        ensures
            rr.record@ == wit,
    {
        match f.read_log_record(off) {
            Ok(rr) => {
                proof {
                    assert(crate::log_record::decode_ok_matches(
                        Ok::<crate::log_record::ReadLogRecord, Errors>(rr),
                        wit,
                    ));
                }
                rr
            },
            Err(e) => {
                proof {
                    assert(crate::log_record::decode_ok_matches(
                        Err::<crate::log_record::ReadLogRecord, Errors>(e),
                        wit,
                    ));
                    assert(false);
                }
                crate::log_record::ReadLogRecord {
                    record: LogRecord {
                        key: Vec::new(),
                        value: Vec::new(),
                        rec_type: LogRecordType::Normal,
                    },
                    size: 0,
                }
            },
        }
    }

    /// All file ids are distinct.
    pub open spec fn ids_distinct(fs: Seq<DataFile>) -> bool {
        forall|i: int, j: int|
            0 <= i < fs.len() && 0 <= j < fs.len() && i != j ==> (#[trigger] fs[i]).id() != (
            #[trigger] fs[j]).id()
    }

    proof fn lemma_ids(self)
        requires
            self.wf_store(),
        ensures
            Self::ids_distinct(self.files()),
    {
        let fs = self.files();
        assert forall|i: int, j: int|
            0 <= i < fs.len() && 0 <= j < fs.len() && i != j implies (#[trigger] fs[i]).id() != (
        #[trigger] fs[j]).id() by {
            if i < fs.len() - 1 {
                assert(fs[i] == self.older_files@[i]);
            } else {
                assert(fs[i] == self.active_file);
            }
            if j < fs.len() - 1 {
                assert(fs[j] == self.older_files@[j]);
            } else {
                assert(fs[j] == self.active_file);
            }
        }
    }

    /// At one position there is at most one record.
    proof fn lemma_rec_at_pos_unique(fs: Seq<DataFile>, p: LogRecordPos, r1: Rec, r2: Rec)
        requires
            Self::ids_distinct(fs),
            rec_at_pos(fs, p, r1),
            rec_at_pos(fs, p, r2),
        ensures
            r1 == r2,
    {
        let i1 = choose|i: int|
            0 <= i < fs.len() && (#[trigger] fs[i]).id() == p.file_id && enc_at(
                fs[i].data(),
                p.offset as int,
                r1,
            ) && p.size == enc(r1).len();
        let i2 = choose|i: int|
            0 <= i < fs.len() && (#[trigger] fs[i]).id() == p.file_id && enc_at(
                fs[i].data(),
                p.offset as int,
                r2,
            ) && p.size == enc(r2).len();
        assert(i1 == i2);
        crate::log_record::lemma_enc_at_unique(fs[i1].data(), p.offset as int, r1, r2);
    }

    /// Reads the value a position carries. What comes back is settled by
    /// whatever record sits at that position.
    pub(crate) fn get_value_by_position(&self, pos: Option<LogRecordPos>) -> (r: Result<
        Vec<u8>,
        Errors,
    >)
        requires
            self.wf() || self.wf_store(),
            pos is Some ==> exists|rec: Rec| #[trigger] rec_at_pos(self.files(), pos->0, rec),
        ensures
            match pos {
                None => r == Err::<Vec<u8>, Errors>(Errors::KeyNotFound),
                Some(p) => forall|rec: Rec|
                    #[trigger] rec_at_pos(self.files(), p, rec) ==> (if rec.rec_type
                        == LogRecordType::Deleted {
                        r == Err::<Vec<u8>, Errors>(Errors::KeyNotFound)
                    } else {
                        r is Ok && r->Ok_0@ == rec.value
                    }),
            },
    {
        let p = match pos {
            None => {
                return Err(Errors::KeyNotFound);
            },
            Some(p) => p,
        };
        let ghost wit = choose|rec: Rec| rec_at_pos(self.files(), p, rec);
        let ghost wi = choose|i: int|
            0 <= i < self.files().len() && (#[trigger] self.files()[i]).id() == p.file_id && enc_at(
                self.files()[i].data(),
                p.offset as int,
                wit,
            ) && p.size == enc(wit).len();
        proof {
            self.lemma_ids();
        }
        let rr = if self.active_file.get_file_id() == p.file_id {
            proof {
                if wi < self.files().len() - 1 {
                    assert(self.files()[wi] == self.older_files@[wi]);
                    assert(self.files()[self.files().len() - 1] == self.active_file);
                    assert(false);
                }
                assert(self.files()[wi] == self.active_file);
            }
            Self::read_known_record(&self.active_file, p.offset, Ghost(wit))
        } else {
            match self.find_older(p.file_id) {
                None => {
                    proof {
                        if wi == self.files().len() - 1 {
                            assert(self.files()[wi] == self.active_file);
                        } else {
                            assert(self.files()[wi] == self.older_files@[wi]);
                            assert(self.older_files@[wi].id() == p.file_id);
                        }
                        assert(false);
                    }
                    return Err(Errors::DataFileNotFound);
                },
                Some(i) => {
                    proof {
                        if wi == self.files().len() - 1 {
                            assert(self.files()[wi] == self.active_file);
                            assert(false);
                        }
                        assert(self.files()[wi] == self.older_files@[wi]);
                        if wi != i {
                            assert(self.older_files@[wi].id() != self.older_files@[i as int].id());
                        }
                        assert(self.older_files@[i as int] == self.files()[wi]);
                    }
                    Self::read_known_record(&self.older_files[i], p.offset, Ghost(wit))
                },
            }
        };
        proof {
            assert forall|rec: Rec| #[trigger] rec_at_pos(self.files(), p, rec) implies rec
                == rr.record@ by {
                Self::lemma_rec_at_pos_unique(self.files(), p, rec, wit);
            }
        }
        if rr.record.rec_type == LogRecordType::Deleted {
            return Err(Errors::KeyNotFound);
        }
        Ok(rr.record.value)
    }

    /// Appends one record to the active file, rotating first when the file
    /// is full. Everything already stored stays where it is; the record
    /// sequence of the store grows by this one record.
    fn append_log_record(&mut self, record: &LogRecord) -> (r: Result<LogRecordPos, Errors>)
        requires
            old(self).wf_store(),
            rec_fits(record@),
            key_parses(record@.key),
        ensures
            final(self).wf_store(),
            final(self).index == old(self).index,
            final(self).seq_no == old(self).seq_no,
            final(self).options == old(self).options,
            final(self).reclaim_size == old(self).reclaim_size,
            final(self).seq_file_exists == old(self).seq_file_exists,
            final(self).is_initial == old(self).is_initial,
            files_extend(old(self).files(), final(self).files()),
            r is Ok <==> old(self).append_room(enc(record@).len() as int),
            match r {
                Ok(p) => {
                    &&& cat_recs(final(self).files()) == cat_recs(old(self).files()).push(record@)
                    &&& rec_at_pos(final(self).files(), p, record@)
                    &&& p.file_id == final(self).active_file.id()
                    &&& Self::appended_one(*old(self), *final(self), record@)
                },
                Err(e) => {
                    &&& (e == Errors::FailedWriteToDataFile || e == Errors::FailedOpenDataFile)
                    &&& cat_recs(final(self).files()) == cat_recs(old(self).files())
                },
            },
    {
        let n = record.encoded_len();
        proof {
            lemma_enc_len(record@);
        }
        let write_off0 = self.active_file.get_write_off();
        let dfs = self.options.data_file_size;
        let rotate = write_off0 > dfs || (n as u64) > dfs - write_off0;
        proof {
            assert(rotate == (old(self).active_file.data().len() + enc(record@).len()
                > old(self).options.data_file_size));
        }
        if rotate {
            let r = self.active_file.sync();
            proof {
                assert(r is Ok);
            }
            if self.active_file.get_file_id() == u32::MAX {
                proof {
                    let a = old(self).files();
                    let b = self.files();
                    assert(forall|i: int|
                        0 <= i < a.len() ==> (#[trigger] b[i]).id() == a[i].id() && b[i].recs()
                            == a[i].recs() && b[i].data() == a[i].data());
                    assert(forall|i: int|
                        0 <= i < a.len() ==> (#[trigger] b[i]).data().subrange(
                            0,
                            a[i].data().len() as int,
                        ) =~= a[i].data());
                    lemma_extend_pointwise(a, b);
                    lemma_cat_recs_congruent(a, b);
                }
                return Err(Errors::FailedOpenDataFile);
            }
            let new_id = self.active_file.get_file_id() + 1;
            let mut fresh = DataFile::new(new_id);
            core::mem::swap(&mut self.active_file, &mut fresh);
            self.older_files.push(fresh);
            proof {
                let a = old(self).files();
                let b = self.files();
                assert(b.len() == a.len() + 1);
                assert forall|i: int| 0 <= i < a.len() implies (#[trigger] b[i]).id() == a[i].id()
                    && b[i].recs() == a[i].recs() && b[i].data() == a[i].data() by {
                    if i < a.len() - 1 {
                        assert(b[i] == old(self).older_files@[i]);
                        assert(a[i] == old(self).older_files@[i]);
                    } else {
                        assert(b[i] == self.older_files@[i]);
                    }
                }
                assert(forall|i: int|
                    0 <= i < a.len() ==> (#[trigger] b[i]).data().subrange(
                        0,
                        a[i].data().len() as int,
                    ) =~= a[i].data());
                lemma_extend_pointwise(a, b);
                assert(cat_recs(b) == cat_recs(a)) by {
                    lemma_cat_recs_push(b.drop_last(), b.last());
                    assert(b.drop_last() =~= self.older_files@);
                    lemma_cat_recs_congruent(a, self.older_files@);
                    assert(cat_recs(b) =~= cat_recs(self.older_files@) + Seq::<Rec>::empty());
                }
            }
        }
        let ghost mid = *self;
        let write_off = self.active_file.get_write_off();
        match self.active_file.write(record) {
            Err(e) => {
                proof {
                    assert(cat_recs(self.files()) == cat_recs(mid.files()));
                    if rotate {
                        assert(mid.active_file.data().len() == 0);
                    }
                    assert(!old(self).append_room(enc(record@).len() as int));
                }
                Err(e)
            },
            Ok(written) => {
                let bw = self.bytes_write;
                self.bytes_write = if bw > u64::MAX - (written as u64) {
                    u64::MAX
                } else {
                    bw + (written as u64)
                };
                let need_sync = self.options.sync_writes || (self.options.bytes_per_sync > 0
                    && self.bytes_write >= self.options.bytes_per_sync as u64);
                if need_sync {
                    let r = self.active_file.sync();
                    proof {
                        assert(r is Ok);
                    }
                    self.bytes_write = 0;
                }
                let pos = LogRecordPos {
                    file_id: self.active_file.get_file_id(),
                    offset: write_off,
                    size: written as u32,
                };
                proof {
                    let a = mid.files();
                    let b = self.files();
                    assert(b.len() == a.len());
                    assert(forall|i: int|
                        0 <= i < a.len() - 1 ==> #[trigger] b[i] == a[i]);
                    assert(b.last().id() == a.last().id());
                    assert(b.last().recs() == a.last().recs().push(record@));
                    assert(b.last().data() == a.last().data() + enc(record@));
                    assert(forall|i: int|
                        0 <= i < a.len() ==> (#[trigger] b[i]).data().subrange(
                            0,
                            a[i].data().len() as int,
                        ) =~= a[i].data());
                    lemma_extend_pointwise(a, b);
                    assert(cat_recs(b) == cat_recs(a).push(record@)) by {
                        lemma_cat_recs_push(b.drop_last(), b.last());
                        lemma_cat_recs_push(a.drop_last(), a.last());
                        assert(b.drop_last() =~= a.drop_last());
                        assert(cat_recs(b) =~= cat_recs(a).push(record@));
                    }
                    assert(rec_at_pos(b, pos, record@)) by {
                        let i = b.len() - 1;
                        assert(b[i] == self.active_file);
                        assert(enc_at(self.active_file.data(), pos.offset as int, record@)) by {
                            assert(self.active_file.data().subrange(
                                pos.offset as int,
                                pos.offset + enc(record@).len(),
                            ) =~= enc(record@));
                        }
                    }
                    assert(files_extend(old(self).files(), b));
                    assert(old(self).append_room(enc(record@).len() as int)) by {
                        assert(old(self).files().last() == old(self).active_file);
                        if rotate {
                            assert(mid.active_file.data().len() == 0);
                        }
                    }
                    assert(Self::appended_one(*old(self), *self, record@)) by {
                        assert(old(self).files().last() == old(self).active_file);
                        assert(self.files().last() == self.active_file);
                        assert(mid.files().last() == mid.active_file);
                        assert(self.files().len() == mid.files().len());
                        if rotate {
                            assert(mid.files().len() == old(self).files().len() + 1);
                            assert(mid.active_file.data().len() == 0);
                            assert(mid.active_file.id() == old(self).active_file.id() + 1);
                        } else {
                            assert(mid.files() == old(self).files());
                        }
                        assert(self.active_file.id() == mid.active_file.id());
                        assert(self.active_file.data().len() == mid.active_file.data().len()
                            + enc(record@).len());
                    }
                    assert(self.wf_store()) by {
                        assert forall|i: int, j: int|
                            0 <= i < b.len() && 0 <= j < b[i].recs().len() implies key_parses(
                            (#[trigger] b[i].recs()[j]).key) by {
                            if i < b.len() - 1 {
                                assert(b[i] == a[i]);
                                assert(key_parses(a[i].recs()[j].key));
                            } else {
                                if j < a.last().recs().len() {
                                    assert(b[i].recs()[j] == a.last().recs()[j]);
                                    assert(key_parses(a[i].recs()[j].key));
                                } else {
                                    assert(b[i].recs()[j] == record@);
                                }
                            }
                        }
                    }
                }
                Ok(pos)
            },
        }
    }
}

/// A position that carries a key keeps carrying it when the files grow.
proof fn lemma_entry_ok_extend(
    a: Seq<DataFile>,
    b: Seq<DataFile>,
    p: LogRecordPos,
    k: Seq<u8>,
    v: Seq<u8>,
)
    requires
        files_extend(a, b),
        entry_ok(a, p, k, v),
    ensures
        entry_ok(b, p, k, v),
{
    let sq = choose|sq: u64| rec_at_pos(a, p, #[trigger] normal_rec(sq, k, v));
    assert(rec_at_pos(b, p, normal_rec(sq, k, v)));
}

impl Engine {
    /// The next sequence number a batch would take.
    pub fn seq_no(&self) -> (r: u64)
        ensures
            r == self.seq(),
    {
        self.seq_no
    }

    /// Stores `value` under `key`. The committed contents gain exactly
    /// this pair.
    pub fn put(&mut self, key: Vec<u8>, value: Vec<u8>) -> (r: Result<(), Errors>)
        requires
            old(self).wf(),
            key@.len() + value@.len() + 24 <= u32::MAX,
        ensures
            final(self).wf(),
            final(self).opts() == old(self).opts(),
            final(self).seq() == old(self).seq(),
            match r {
                Ok(_) => {
                    &&& final(self).kv() == old(self).kv().insert(key@, value@)
                    &&& Self::appended_one(
                        *old(self),
                        *final(self),
                        normal_rec(0, key@, value@),
                    )
                    &&& final(self).reclaimable() == Self::sat_cap(
                        old(self).reclaimable() + (if old(self).kv().contains_key(key@) {
                            old(self).index_map()[key@].size as int
                        } else {
                            0
                        }),
                    )
                },
                Err(e) => {
                    &&& final(self).kv() == old(self).kv()
                    &&& cat_recs(final(self).files()) == cat_recs(old(self).files())
                    &&& final(self).reclaimable() == old(self).reclaimable()
                    &&& (e == Errors::KeyIsEmpty || e == Errors::FailedWriteToDataFile || e
                        == Errors::FailedOpenDataFile)
                    &&& (e == Errors::KeyIsEmpty <==> key@.len() == 0)
                },
            },
            r is Ok <==> (key@.len() > 0 && old(self).append_room(
                enc(normal_rec(0, key@, value@)).len() as int,
            )),
    {
        if key.len() == 0 {
            return Err(Errors::KeyIsEmpty);
        }
        let rec_key = log_record_key_with_seq(&key, 0);
        let record = LogRecord { key: rec_key, value, rec_type: LogRecordType::Normal };
        proof {
            lemma_key_parse(0, key@);
            crate::varint::lemma_varint_len(0);
            assert(record@ == normal_rec(0, key@, value@));
        }
        let ghost pre = *self;
        let pos = match self.append_log_record(&record) {
            Err(e) => {
                proof {
                    assert(self.kv() == pre.kv());
                    self.lemma_wf_after_noop(pre);
                }
                return Err(e);
            },
            Ok(p) => p,
        };
        let ghost mid = *self;
        let prev = self.index.put(key, pos);
        if let Some(old_pos) = prev {
            self.reclaim_size = sat_add_usize(self.reclaim_size, old_pos.size as usize);
        }
        proof {
            lemma_replay_push(init_state(), cat_recs(pre.files()), record@);
            lemma_key_parse(0, key@);
            let rp0 = pre.rp();
            let rp1 = self.rp();
            assert(rp1 == step(rp0, record@));
            assert(rp1.kv == rp0.kv.insert(key@, value@));
            assert(rp1.max_seq == rp0.max_seq);
            assert(self.wf_index()) by {
                assert forall|k: Seq<u8>| #[trigger]
                    self.index.m().contains_key(k) implies entry_ok(
                    self.files(),
                    self.index.m()[k],
                    k,
                    rp1.kv[k],
                ) by {
                    if k == key@ {
                        assert(rec_at_pos(self.files(), pos, normal_rec(0, key@, value@)));
                        assert(entry_ok(self.files(), pos, key@, value@));
                    } else {
                        assert(pre.index.m().contains_key(k));
                        lemma_entry_ok_extend(
                            pre.files(),
                            self.files(),
                            pre.index.m()[k],
                            k,
                            rp0.kv[k],
                        );
                    }
                }
            }
        }
        Ok(())
    }

    /// When the record set is unchanged and the files only grew, the
    /// whole invariant carries over.
    proof fn lemma_wf_after_noop(self, pre: Engine)
        requires
            pre.wf(),
            self.wf_store(),
            self.index == pre.index,
            self.seq_no == pre.seq_no,
            cat_recs(self.files()) == cat_recs(pre.files()),
            files_extend(pre.files(), self.files()),
        ensures
            self.wf(),
    {
        assert forall|k: Seq<u8>| #[trigger] self.index.m().contains_key(k) implies entry_ok(
            self.files(),
            self.index.m()[k],
            k,
            self.rp().kv[k],
        ) by {
            lemma_entry_ok_extend(
                pre.files(),
                self.files(),
                pre.index.m()[k],
                k,
                pre.rp().kv[k],
            );
        }
    }

    /// Removes `key`. Removing an absent key is a successful no-op that
    /// writes nothing.
    pub fn delete(&mut self, key: Vec<u8>) -> (r: Result<(), Errors>)
        requires
            old(self).wf(),
            key@.len() + 24 <= u32::MAX,
        ensures
            final(self).wf(),
            final(self).opts() == old(self).opts(),
            final(self).seq() == old(self).seq(),
            match r {
                Ok(_) => {
                    &&& final(self).kv() == old(self).kv().remove(key@)
                    &&& if old(self).kv().contains_key(key@) {
                        &&& Self::appended_one(
                            *old(self),
                            *final(self),
                            Rec {
                                key: key_with_seq(0, key@),
                                value: Seq::empty(),
                                rec_type: LogRecordType::Deleted,
                            },
                        )
                        &&& final(self).reclaimable() == Self::sat_cap(
                            Self::sat_cap(
                                old(self).reclaimable() + enc(
                                    Rec {
                                        key: key_with_seq(0, key@),
                                        value: Seq::empty(),
                                        rec_type: LogRecordType::Deleted,
                                    },
                                ).len(),
                            ) + old(self).index_map()[key@].size,
                        )
                    } else {
                        *final(self) == *old(self)
                    }
                },
                Err(e) => {
                    &&& final(self).kv() == old(self).kv()
                    &&& cat_recs(final(self).files()) == cat_recs(old(self).files())
                    &&& final(self).reclaimable() == old(self).reclaimable()
                    &&& (e == Errors::KeyIsEmpty || e == Errors::FailedWriteToDataFile || e
                        == Errors::FailedOpenDataFile)
                    &&& (e == Errors::KeyIsEmpty <==> key@.len() == 0)
                },
            },
            r is Ok <==> (key@.len() > 0 && (!old(self).kv().contains_key(key@) || old(
                self,
            ).append_room(
                enc(Rec { key: key_with_seq(0, key@), value: Seq::empty(), rec_type: LogRecordType::Deleted }).len() as int,
            ))),
    {
        if key.len() == 0 {
            return Err(Errors::KeyIsEmpty);
        }
        let pos0 = self.index.get(&key);
        if pos0.is_none() {
            proof {
                assert(!self.kv().contains_key(key@));
                assert(self.kv().remove(key@) =~= self.kv());
            }
            return Ok(());
        }
        let rec_key = log_record_key_with_seq(&key, 0);
        let record = LogRecord { key: rec_key, value: Vec::new(), rec_type: LogRecordType::Deleted };
        proof {
            lemma_key_parse(0, key@);
            crate::varint::lemma_varint_len(0);
        }
        let ghost pre = *self;
        let pos = match self.append_log_record(&record) {
            Err(e) => {
                proof {
                    assert(self.kv() == pre.kv());
                    self.lemma_wf_after_noop(pre);
                }
                return Err(e);
            },
            Ok(p) => p,
        };
        self.reclaim_size = sat_add_usize(self.reclaim_size, pos.size as usize);
        let prev = self.index.delete(&key);
        if let Some(old_pos) = prev {
            self.reclaim_size = sat_add_usize(self.reclaim_size, old_pos.size as usize);
        }
        proof {
            lemma_replay_push(init_state(), cat_recs(pre.files()), record@);
            lemma_key_parse(0, key@);
            let rp0 = pre.rp();
            let rp1 = self.rp();
            assert(rp1 == step(rp0, record@));
            assert(rp1.kv == rp0.kv.remove(key@));
            assert(rp1.max_seq == rp0.max_seq);
            assert(self.wf_index()) by {
                assert forall|k: Seq<u8>| #[trigger]
                    self.index.m().contains_key(k) implies entry_ok(
                    self.files(),
                    self.index.m()[k],
                    k,
                    rp1.kv[k],
                ) by {
                    assert(k != key@);
                    assert(pre.index.m().contains_key(k));
                    lemma_entry_ok_extend(
                        pre.files(),
                        self.files(),
                        pre.index.m()[k],
                        k,
                        rp0.kv[k],
                    );
                }
            }
        }
        Ok(())
    }

    /// Looks up the value stored under `key`.
    pub fn get(&self, key: &Vec<u8>) -> (r: Result<Vec<u8>, Errors>)
        requires
            self.wf(),
        ensures
            match r {
                Ok(v) => self.kv().contains_key(key@) && v@ == self.kv()[key@],
                Err(e) => {
                    &&& (e == Errors::KeyIsEmpty || e == Errors::KeyNotFound)
                    &&& (e == Errors::KeyIsEmpty <==> key@.len() == 0)
                    &&& (e == Errors::KeyNotFound ==> !self.kv().contains_key(key@))
                },
            },
            r is Ok <==> (key@.len() > 0 && self.kv().contains_key(key@)),
    {
        if key.len() == 0 {
            return Err(Errors::KeyIsEmpty);
        }
        let pos = self.index.get(key);
        proof {
            if pos is Some {
                let p = pos->0;
                assert(entry_ok(self.files(), p, key@, self.kv()[key@]));
                let sq = choose|sq: u64|
                    rec_at_pos(self.files(), p, #[trigger] normal_rec(sq, key@, self.kv()[key@]));
                assert(rec_at_pos(self.files(), p, normal_rec(sq, key@, self.kv()[key@])));
            }
        }
        let r = self.get_value_by_position(pos);
        proof {
            match pos {
                Some(p) => {
                    let sq = choose|sq: u64|
                        rec_at_pos(
                            self.files(),
                            p,
                            #[trigger] normal_rec(sq, key@, self.kv()[key@]),
                        );
                    assert(rec_at_pos(self.files(), p, normal_rec(sq, key@, self.kv()[key@])));
                    assert(r is Ok && r->Ok_0@ == self.kv()[key@]);
                },
                None => {
                    assert(!self.kv().contains_key(key@));
                },
            }
        }
        r
    }

    /// Flushes the active file.
    pub fn sync(&mut self) -> (r: Result<(), Errors>)
        requires
            old(self).wf(),
        ensures
            final(self).wf(),
            r == Ok::<(), Errors>(()),
            final(self).kv() == old(self).kv(),
            final(self).opts() == old(self).opts(),
            final(self).seq() == old(self).seq(),
            Self::files_data_eq(old(self).files(), final(self).files()),
            cat_recs(final(self).files()) == cat_recs(old(self).files()),
            final(self).reclaimable() == old(self).reclaimable(),
            final(self).index_map() == old(self).index_map(),
    {
        let ghost pre = *self;
        let r = self.active_file.sync();
        proof {
            assert(r is Ok);
            let a = pre.files();
            let b = self.files();
            assert(forall|i: int|
                0 <= i < a.len() ==> (#[trigger] b[i]).id() == a[i].id() && b[i].recs()
                    == a[i].recs() && b[i].data() == a[i].data());
            assert(forall|i: int|
                0 <= i < a.len() ==> (#[trigger] b[i]).data().subrange(
                    0,
                    a[i].data().len() as int,
                ) =~= a[i].data());
            lemma_extend_pointwise(a, b);
            lemma_cat_recs_congruent(a, b);
            self.lemma_wf_after_noop(pre);
        }
        Ok(())
    }

    /// Every key of the store, in ascending order.
    pub fn list_keys(&self) -> (r: Result<Vec<Vec<u8>>, Errors>)
        requires
            self.wf(),
        ensures
            match r {
                Ok(keys) => {
                    &&& keys@.len() == self.kv().dom().len()
                    &&& forall|i: int|
                        0 <= i < keys@.len() ==> self.kv().contains_key(#[trigger] keys@[i]@)
                    &&& forall|k: Seq<u8>|
                        self.kv().contains_key(k) ==> exists|i: int|
                            0 <= i < keys@.len() && #[trigger] keys@[i]@ == k
                    &&& forall|i: int, j: int|
                        0 <= i < j < keys@.len() ==> crate::index::lex_lt(keys@[i]@, keys@[j]@)
                },
                Err(_) => false,
            },
    {
        let keys = self.index.list_keys();
        proof {
            assert(self.index.m().dom() =~= self.kv().dom());
        }
        Ok(keys)
    }

    /// Statistics of the store.
    pub fn stat(&self) -> (r: Result<Stat, Errors>)
        requires
            self.wf(),
        ensures
            match r {
                Ok(st) => {
                    &&& st.key_num == self.kv().dom().len()
                    &&& st.data_file_num == if self.files().len() <= usize::MAX {
                        self.files().len() as int
                    } else {
                        usize::MAX as int
                    }
                    &&& st.reclaim_size == self.reclaimable()
                    &&& st.disk_size == if total_data(self.files(), self.files().len() as int)
                        <= u64::MAX {
                        total_data(self.files(), self.files().len() as int)
                    } else {
                        u64::MAX as int
                    }
                },
                Err(_) => false,
            },
    {
        let keys = self.list_keys()?;
        let mut disk_size: u64 = 0;
        let n = self.older_files.len();
        let mut i: usize = 0;
        while i < n
            invariant
                i <= n == self.older_files@.len(),
                self.wf(),
                disk_size == if total_data(self.files(), i as int) <= u64::MAX {
                    total_data(self.files(), i as int)
                } else {
                    u64::MAX as int
                },
            decreases n - i,
        {
            let sz = self.older_files[i].file_size();
            proof {
                assert(self.files()[i as int] == self.older_files@[i as int]);
            }
            disk_size = if disk_size > u64::MAX - sz {
                u64::MAX
            } else {
                disk_size + sz
            };
            i = i + 1;
        }
        let sz = self.active_file.file_size();
        proof {
            assert(self.files()[n as int] == self.active_file);
        }
        disk_size = if disk_size > u64::MAX - sz {
            u64::MAX
        } else {
            disk_size + sz
        };
        Ok(
            Stat {
                key_num: keys.len(),
                data_file_num: sat_add_usize(self.older_files.len(), 1),
                reclaim_size: self.reclaim_size,
                disk_size,
            },
        )
    }

    /// Closes the store: flushes the active file and hands back the bytes
    /// of the record that persists the sequence number.
    pub fn close(&mut self) -> (r: Result<Vec<u8>, Errors>)
        requires
            old(self).wf(),
        ensures
            final(self).wf(),
            final(self).kv() == old(self).kv(),
            final(self).seq() == old(self).seq(),
            final(self).opts() == old(self).opts(),
            Self::files_data_eq(old(self).files(), final(self).files()),
            cat_recs(final(self).files()) == cat_recs(old(self).files()),
            final(self).reclaimable() == old(self).reclaimable(),
            final(self).index_map() == old(self).index_map(),
            match r {
                Ok(bytes) => bytes@ == enc(
                    Rec {
                        key: seq_no_file_key(),
                        value: crate::varint::decimal(old(self).seq()),
                        rec_type: LogRecordType::Normal,
                    },
                ),
                Err(_) => false,
            },
    {
        let mut key: Vec<u8> = Vec::new();
        key.push(115);
        key.push(101);
        key.push(113);
        key.push(46);
        key.push(110);
        key.push(111);
        proof {
            assert(key@ =~= seq_no_file_key());
        }
        let value = crate::varint::write_decimal(self.seq_no);
        proof {
            crate::varint::lemma_decimal_len_max(self.seq_no);
        }
        let record = LogRecord { key, value, rec_type: LogRecordType::Normal };
        let bytes = record.encode();
        self.sync()?;
        Ok(bytes)
    }
}

/// The spec view of staged transaction records.
pub open spec fn stage_ops(trs: Seq<crate::log_record::TransactionRecord>) -> Seq<StagedOp> {
    trs.map_values(
        |tr: crate::log_record::TransactionRecord|
            StagedOp { rec_type: tr.record.rec_type, key: tr.record.key@, value: tr.record.value@ },
    )
}

/// The index agrees with a visible map: same keys, and every entry points
/// at a live record carrying the key's value.
pub open spec fn index_kv_inv(
    fs: Seq<DataFile>,
    index: IndexImpl,
    kv: Map<Seq<u8>, Seq<u8>>,
) -> bool {
    &&& index.inv()
    &&& forall|k: Seq<u8>| index.m().contains_key(k) <==> #[trigger] kv.contains_key(k)
    &&& forall|k: Seq<u8>|
        #[trigger] index.m().contains_key(k) ==> entry_ok(fs, index.m()[k], k, kv[k])
}

/// One staged record of a batch is sound: not a finish marker, and a
/// staged store points at its record on disk.
pub open spec fn staged_tr_ok(
    fs: Seq<DataFile>,
    sq: u64,
    tr: crate::log_record::TransactionRecord,
) -> bool {
    &&& tr.record.rec_type != LogRecordType::TxnFinished
    &&& (tr.record.rec_type == LogRecordType::Normal ==> rec_at_pos(
        fs,
        tr.pos,
        normal_rec(sq, tr.record.key@, tr.record.value@),
    ))
}

/// The staged-batches vector models the replay's pending map.
pub open spec fn pending_inv(
    fs: Seq<DataFile>,
    pend: Seq<(u64, Vec<crate::log_record::TransactionRecord>)>,
    pmap: Map<u64, Seq<StagedOp>>,
) -> bool {
    &&& forall|i: int, j: int|
        0 <= i < j < pend.len() ==> (#[trigger] pend[i]).0 != (#[trigger] pend[j]).0
    &&& forall|i: int|
        0 <= i < pend.len() ==> pmap.contains_key((#[trigger] pend[i]).0) && pmap[pend[i].0]
            == stage_ops(pend[i].1@)
    &&& forall|sq: u64|
        #[trigger] pmap.contains_key(sq) ==> exists|i: int|
            0 <= i < pend.len() && (#[trigger] pend[i]).0 == sq
    &&& forall|i: int, j: int|
        0 <= i < pend.len() && 0 <= j < pend[i].1@.len() ==> staged_tr_ok(
            fs,
            pend[i].0,
            #[trigger] pend[i].1@[j],
        )
}

/// The whole state of a recovery scan after some records were replayed.
pub open spec fn scan_state_inv(
    fs: Seq<DataFile>,
    recs: Seq<Rec>,
    index: IndexImpl,
    pend: Seq<(u64, Vec<crate::log_record::TransactionRecord>)>,
    max_seq: u64,
) -> bool {
    let st = replay(init_state(), recs);
    &&& index_kv_inv(fs, index, st.kv)
    &&& max_seq == st.max_seq
    &&& pending_inv(fs, pend, st.pending)
}

/// All records of a per-file record listing, in order.
pub open spec fn cat_all(rss: Seq<Seq<Rec>>) -> Seq<Rec>
    decreases rss.len(),
{
    if rss.len() == 0 {
        Seq::empty()
    } else {
        cat_all(rss.drop_last()) + rss.last()
    }
}

/// Per-file record listings that match a file set record for record
/// concatenate to the records of that file set.
pub proof fn lemma_cat_all_eq(rss: Seq<Seq<Rec>>, fs: Seq<DataFile>)
    requires
        rss.len() == fs.len(),
        forall|i: int| 0 <= i < fs.len() ==> #[trigger] rss[i] == fs[i].recs(),
    ensures
        cat_all(rss) == cat_recs(fs),
    decreases fs.len(),
{
    if fs.len() > 0 {
        lemma_cat_all_eq(rss.drop_last(), fs.drop_last());
        assert(forall|i: int|
            0 <= i < fs.len() - 1 ==> #[trigger] rss.drop_last()[i] == rss[i]
                && fs.drop_last()[i] == fs[i]);
        assert(rss.last() == fs.last().recs());
    }
}

/// Every per-file listing matches the corresponding file's bytes.
pub open spec fn files_match_all(fs: Seq<DataFile>, rss: Seq<Seq<Rec>>) -> bool {
    &&& rss.len() == fs.len()
    &&& forall|i: int|
        0 <= i < fs.len() ==> crate::data_file::file_matches(
            (#[trigger] fs[i]).data(),
            rss[i],
        )
}

/// The encoding of a positive value does not start with a zero byte.
proof fn lemma_varint_first_nonzero(n: u64)
    requires
        n >= 1,
    ensures
        varint(n)[0] != 0,
{
    if n < 128 {
        assert(varint(n)[0] == n as u8);
    } else {
        assert(varint(n)[0] == (n % 128 + 128) as u8);
    }
}

/// Applies one replayed record to the index, the way recovery does:
/// an ordinary record replaces the key's position, a tombstone removes
/// the key and counts both records as reclaimable.
fn update_index(
    index: &mut IndexImpl,
    reclaim: &mut usize,
    key: Vec<u8>,
    rec_type: LogRecordType,
    pos: LogRecordPos,
    Ghost(fs): Ghost<Seq<DataFile>>,
    Ghost(kv): Ghost<Map<Seq<u8>, Seq<u8>>>,
    Ghost(sq): Ghost<u64>,
    Ghost(v): Ghost<Seq<u8>>,
)
    requires
        index_kv_inv(fs, *old(index), kv),
        rec_type == LogRecordType::Normal ==> rec_at_pos(fs, pos, normal_rec(sq, key@, v)),
    ensures
        index_kv_inv(
            fs,
            *final(index),
            crate::replay::apply_op(kv, StagedOp { rec_type, key: key@, value: v }),
        ),
        final(index).m() == (match rec_type {
            LogRecordType::Normal => old(index).m().insert(key@, pos),
            LogRecordType::Deleted => old(index).m().remove(key@),
            LogRecordType::TxnFinished => old(index).m(),
        }),
{
    let ghost op = StagedOp { rec_type, key: key@, value: v };
    if rec_type == LogRecordType::Normal {
        let prev = index.put(key, pos);
        if let Some(old_pos) = prev {
            *reclaim = sat_add_usize(*reclaim, old_pos.size as usize);
        }
        proof {
            let kv2 = crate::replay::apply_op(kv, op);
            assert(kv2 == kv.insert(op.key, op.value));
            assert forall|k: Seq<u8>| #[trigger] index.m().contains_key(k) implies entry_ok(
                fs,
                index.m()[k],
                k,
                kv2[k],
            ) by {
                if k == op.key {
                    assert(rec_at_pos(fs, pos, normal_rec(sq, op.key, v)));
                    assert(entry_ok(fs, pos, op.key, v));
                } else {
                    let p0 = old(index).m()[k];
                    let sqw = choose|sqw: u64|
                        rec_at_pos(fs, p0, #[trigger] normal_rec(sqw, k, kv[k]));
                    assert(rec_at_pos(fs, p0, normal_rec(sqw, k, kv2[k])));
                }
            }
        }
    } else if rec_type == LogRecordType::Deleted {
        let mut size: usize = pos.size as usize;
        let prev = index.delete(&key);
        if let Some(old_pos) = prev {
            size = sat_add_usize(size, old_pos.size as usize);
        }
        *reclaim = sat_add_usize(*reclaim, size);
        proof {
            let kv2 = crate::replay::apply_op(kv, op);
            assert(kv2 == kv.remove(op.key));
            assert forall|k: Seq<u8>| #[trigger] index.m().contains_key(k) implies entry_ok(
                fs,
                index.m()[k],
                k,
                kv2[k],
            ) by {
                let p0 = old(index).m()[k];
                let sqw = choose|sqw: u64| rec_at_pos(fs, p0, #[trigger] normal_rec(sqw, k, kv[k]));
                assert(rec_at_pos(fs, p0, normal_rec(sqw, k, kv2[k])));
            }
        }
    } else {
        proof {
            assert(crate::replay::apply_op(kv, op) == kv);
        }
    }
}

/// New index entries and staged positions created while scanning file
/// `fid` stay within the scanned prefix.
pub open spec fn scan_pos_bounded(
    index: IndexImpl,
    pend: Seq<(u64, Vec<crate::log_record::TransactionRecord>)>,
    fid: u32,
    off: int,
) -> bool {
    &&& forall|k: Seq<u8>|
        #[trigger] index.m().contains_key(k) && index.m()[k].file_id == fid ==> index.m()[k].offset
            + index.m()[k].size <= off
    &&& forall|i: int, j: int|
        0 <= i < pend.len() && 0 <= j < pend[i].1@.len() && (#[trigger] pend[i].1@[j]).pos.file_id
            == fid && pend[i].1@[j].record.rec_type == LogRecordType::Normal ==> pend[i].1@[
            j].pos.offset + pend[i].1@[j].pos.size <= off
}

/// Applies a finished batch: every record staged under `sq` goes to the
/// index, in order, and the batch leaves the staging area.
#[verifier::spinoff_prover]
#[verifier::rlimit(100)]
fn apply_txn_finished(
    index: &mut IndexImpl,
    pending: &mut Vec<(u64, Vec<crate::log_record::TransactionRecord>)>,
    reclaim: &mut usize,
    sq: u64,
    Ghost(fsx): Ghost<Seq<DataFile>>,
    Ghost(st): Ghost<ReplayState>,
    Ghost(fid): Ghost<u32>,
    Ghost(off): Ghost<int>,
)
    requires
        index_kv_inv(fsx, *old(index), st.kv),
        pending_inv(fsx, old(pending)@, st.pending),
        scan_pos_bounded(*old(index), old(pending)@, fid, off),
    ensures
        index_kv_inv(fsx, *final(index), crate::replay::apply_ops(st.kv, crate::replay::staged(st, sq))),
        pending_inv(fsx, final(pending)@, st.pending.remove(sq)),
        scan_pos_bounded(*final(index), final(pending)@, fid, off),
{
    let pn = pending.len();
    let mut pi: usize = 0;
    let mut found_idx: Option<usize> = None;
    while pi < pn
        invariant
            pi <= pn == pending@.len(),
            pending@ == old(pending)@,
            match found_idx {
                Some(x) => x < pending@.len() && pending@[x as int].0 == sq,
                None => forall|t: int| 0 <= t < pi ==> (#[trigger] pending@[t]).0 != sq,
            },
        decreases pn - pi,
    {
        if found_idx.is_none() && pending[pi].0 == sq {
            found_idx = Some(pi);
        }
        pi = pi + 1;
    }
    match found_idx {
        None => {
            proof {
                assert(!st.pending.contains_key(sq)) by {
                    if st.pending.contains_key(sq) {
                        let i0 = choose|i0: int|
                            0 <= i0 < pending@.len() && (#[trigger] pending@[i0]).0 == sq;
                    }
                }
                assert(crate::replay::staged(st, sq) =~= Seq::<StagedOp>::empty());
                assert(crate::replay::apply_ops(st.kv, crate::replay::staged(st, sq)) == st.kv);
                assert(st.pending.remove(sq) =~= st.pending);
            }
        },
        Some(x) => {
            let ghost pend0 = pending@;
            let entry = pending.remove(x);
            let mut trs = entry.1;
            let tl = trs.len();
            let ghost orig = trs@;
            let ghost ops = stage_ops(orig);
            let ghost kv_pre = st.kv;
            proof {
                pend0.remove_ensures(x as int);
                assert(st.pending.contains_key(sq));
                assert(crate::replay::staged(st, sq) == ops);
                assert(ops.take(0) =~= Seq::<StagedOp>::empty());
                assert(crate::replay::apply_ops(kv_pre, ops.take(0)) == kv_pre);
                assert(forall|j: int|
                    0 <= j < orig.len() ==> staged_tr_ok(fsx, sq, #[trigger] orig[j]));
            }
            let ghost mut done_ops: int = 0;
            let ghost total = orig.len();
            while trs.len() > 0
                invariant
                    0 <= done_ops,
                    done_ops + trs@.len() == total,
                    total == orig.len() == ops.len(),
                    trs@ =~= orig.skip(done_ops),
                    forall|j: int| 0 <= j < orig.len() ==> staged_tr_ok(fsx, sq, #[trigger] orig[j]),
                    ops == stage_ops(orig),
                    index_kv_inv(fsx, *index, crate::replay::apply_ops(kv_pre, ops.take(done_ops))),
                    forall|k: Seq<u8>|
                        #[trigger] index.m().contains_key(k) && index.m()[k].file_id == fid
                            ==> index.m()[k].offset + index.m()[k].size <= off,
                    forall|j: int|
                        0 <= j < orig.len() && (#[trigger] orig[j]).pos.file_id == fid && orig[
                        j].record.rec_type == LogRecordType::Normal ==> orig[j].pos.offset + orig[
                        j].pos.size <= off,
                decreases trs@.len(),
            {
                let tr = trs.remove(0);
                proof {
                    assert(tr == orig[done_ops]);
                    assert(ops[done_ops] == StagedOp {
                        rec_type: tr.record.rec_type,
                        key: tr.record.key@,
                        value: tr.record.value@,
                    });
                    lemma_apply_ops_take(kv_pre, ops, done_ops);
                    assert(staged_tr_ok(fsx, sq, tr));
                    assert(trs@ =~= orig.skip(done_ops + 1));
                }
                update_index(
                    index,
                    reclaim,
                    tr.record.key,
                    tr.record.rec_type,
                    tr.pos,
                    Ghost(fsx),
                    Ghost(crate::replay::apply_ops(kv_pre, ops.take(done_ops))),
                    Ghost(sq),
                    Ghost(tr.record@.value),
                );
                proof {
                    done_ops = done_ops + 1;
                }
            }
            proof {
                assert(done_ops == total);
                assert(ops.take(total as int) =~= ops);
                pend0.remove_ensures(x as int);
                let pmap2 = st.pending.remove(sq);
                assert forall|sq2: u64| #[trigger] pmap2.contains_key(sq2) implies exists|
                    i: int,
                |
                    0 <= i < pending@.len() && (#[trigger] pending@[i]).0 == sq2 by {
                    let i0 = choose|i0: int|
                        0 <= i0 < pend0.len() && (#[trigger] pend0[i0]).0 == sq2;
                    if i0 < x {
                        assert(pending@[i0].0 == sq2);
                    } else {
                        assert(i0 != x);
                        assert(pending@[i0 - 1].0 == sq2);
                    }
                }
            }
        },
    }
}

/// Stages one record of a batch under its sequence number.
#[verifier::spinoff_prover]
#[verifier::rlimit(100)]
fn stage_pending(
    pending: &mut Vec<(u64, Vec<crate::log_record::TransactionRecord>)>,
    sq: u64,
    tr: crate::log_record::TransactionRecord,
    Ghost(fsx): Ghost<Seq<DataFile>>,
    Ghost(st): Ghost<ReplayState>,
)
    requires
        pending_inv(fsx, old(pending)@, st.pending),
        staged_tr_ok(fsx, sq, tr),
    ensures
        pending_inv(
            fsx,
            final(pending)@,
            st.pending.insert(
                sq,
                crate::replay::staged(st, sq).push(
                    StagedOp {
                        rec_type: tr.record.rec_type,
                        key: tr.record.key@,
                        value: tr.record.value@,
                    },
                ),
            ),
        ),
        forall|i: int, j: int|
            0 <= i < final(pending)@.len() && 0 <= j < final(pending)@[i].1@.len() ==> ((
            #[trigger] final(pending)@[i].1@[j]) == tr || exists|i2: int, j2: int|
                0 <= i2 < old(pending)@.len() && 0 <= j2 < old(pending)@[i2].1@.len() && (
                #[trigger] old(pending)@[i2].1@[j2]) == final(pending)@[i].1@[j]),
{
    let ghost op = StagedOp {
        rec_type: tr.record.rec_type,
        key: tr.record.key@,
        value: tr.record.value@,
    };
    let pn = pending.len();
    let mut pi: usize = 0;
    let mut found_idx: Option<usize> = None;
    while pi < pn
        invariant
            pi <= pn == pending@.len(),
            pending@ == old(pending)@,
            match found_idx {
                Some(x) => x < pending@.len() && pending@[x as int].0 == sq,
                None => forall|t: int| 0 <= t < pi ==> (#[trigger] pending@[t]).0 != sq,
            },
        decreases pn - pi,
    {
        if found_idx.is_none() && pending[pi].0 == sq {
            found_idx = Some(pi);
        }
        pi = pi + 1;
    }
    let ghost pend0 = pending@;
    let ghost pmap2 = st.pending.insert(sq, crate::replay::staged(st, sq).push(op));
    match found_idx {
        None => {
            let mut trs: Vec<crate::log_record::TransactionRecord> = Vec::new();
            trs.push(tr);
            pending.push((sq, trs));
            proof {
                assert(!st.pending.contains_key(sq)) by {
                    if st.pending.contains_key(sq) {
                        let i0 = choose|i0: int|
                            0 <= i0 < pend0.len() && (#[trigger] pend0[i0]).0 == sq;
                    }
                }
                assert(crate::replay::staged(st, sq) =~= Seq::<StagedOp>::empty());
                assert(stage_ops(pending@[pend0.len() as int].1@) =~= crate::replay::staged(
                    st,
                    sq,
                ).push(op));
                assert forall|sq2: u64| #[trigger] pmap2.contains_key(sq2) implies exists|
                    i: int,
                |
                    0 <= i < pending@.len() && (#[trigger] pending@[i]).0 == sq2 by {
                    if sq2 == sq {
                        assert(pending@[pend0.len() as int].0 == sq);
                    } else {
                        let i0 = choose|i0: int|
                            0 <= i0 < pend0.len() && (#[trigger] pend0[i0]).0 == sq2;
                        assert(pending@[i0].0 == sq2);
                    }
                }
                assert forall|i: int, j: int|
                    0 <= i < pending@.len() && 0 <= j < pending@[i].1@.len() implies ((
                #[trigger] pending@[i].1@[j]) == tr || exists|i2: int, j2: int|
                    0 <= i2 < pend0.len() && 0 <= j2 < pend0[i2].1@.len() && (
                    #[trigger] pend0[i2].1@[j2]) == pending@[i].1@[j]) by {
                    if i < pend0.len() {
                        assert(pend0[i].1@[j] == pending@[i].1@[j]);
                    } else {
                        assert(pending@[i].1@[j] == tr);
                    }
                }
            }
        },
        Some(x) => {
            let mut entry = pending.remove(x);
            entry.1.push(tr);
            let ghost newtrs = entry.1@;
            pending.insert(x, entry);
            proof {
                pend0.remove_ensures(x as int);
                assert(pending@ =~= pend0.update(x as int, (sq, entry.1)));
                assert(st.pending.contains_key(sq));
                assert(crate::replay::staged(st, sq) == stage_ops(pend0[x as int].1@));
                assert(stage_ops(newtrs) =~= stage_ops(pend0[x as int].1@).push(op));
                assert forall|sq2: u64| #[trigger] pmap2.contains_key(sq2) implies exists|
                    i: int,
                |
                    0 <= i < pending@.len() && (#[trigger] pending@[i]).0 == sq2 by {
                    if sq2 == sq {
                        assert(pending@[x as int].0 == sq);
                    } else {
                        let i0 = choose|i0: int|
                            0 <= i0 < pend0.len() && (#[trigger] pend0[i0]).0 == sq2;
                        assert(pending@[i0].0 == sq2);
                    }
                }
                assert forall|i: int, j: int|
                    0 <= i < pending@.len() && 0 <= j < pending@[i].1@.len() implies ((
                #[trigger] pending@[i].1@[j]) == tr || exists|i2: int, j2: int|
                    0 <= i2 < pend0.len() && 0 <= j2 < pend0[i2].1@.len() && (
                    #[trigger] pend0[i2].1@[j2]) == pending@[i].1@[j]) by {
                    if i != x {
                        assert(pend0[i].1@[j] == pending@[i].1@[j]);
                    } else {
                        if j < pend0[x as int].1@.len() {
                            assert(pend0[x as int].1@[j] == pending@[i].1@[j]);
                        } else {
                            assert(pending@[i].1@[j] == tr);
                        }
                    }
                }
            }
        },
    }
}

/// Scans one data file from the front, replaying each record into the
/// index and the staged batches, and cuts the file back to where its
/// records end. Scanning is deterministic: whatever record listing the
/// bytes hold is the one the scan finds, and on such bytes it succeeds.
#[verifier::rlimit(100)]
fn scan_file(
    f: DataFile,
    index: &mut IndexImpl,
    pending: &mut Vec<(u64, Vec<crate::log_record::TransactionRecord>)>,
    max_seq: &mut u64,
    reclaim: &mut usize,
    Ghost(done): Ghost<Seq<DataFile>>,
) -> (r: Result<DataFile, Errors>)
    requires
        f.wf(),
        forall|i: int| 0 <= i < done.len() ==> (#[trigger] done[i]).id() != f.id(),
        scan_state_inv(done, cat_recs(done), *old(index), old(pending)@, *old(max_seq)),
    ensures
        match r {
            Ok(f2) => {
                &&& f2.id() == f.id()
                &&& f2.wf()
                &&& f2.tracks()
                &&& forall|i: int|
                    0 <= i < f2.recs().len() ==> key_parses((#[trigger] f2.recs()[i]).key)
                &&& scan_state_inv(
                    done.push(f2),
                    cat_recs(done.push(f2)),
                    *final(index),
                    final(pending)@,
                    *final(max_seq),
                )
            },
            Err(e) => e == Errors::InvalidLogRecordCrc || e == Errors::DataDirectoryCorrupted,
        },
        forall|rs: Seq<Rec>|
            crate::data_file::file_matches(f.data(), rs) ==> r is Ok && rs == r->Ok_0.recs(),
{
    let mut off: u64 = 0;
    let ghost mut found: Seq<Rec> = Seq::empty();
    let ghost fsx = done.push(f);
    proof {
        assert(cat_recs(done) + found =~= cat_recs(done));
        assert(f.data().subrange(0, 0) =~= enc_list(found));
        assert(forall|i: int|
            0 <= i < done.len() ==> (#[trigger] fsx[i]).id() == done[i].id() && fsx[i].data()
                == done[i].data() && fsx[i].data().subrange(0, done[i].data().len() as int)
                =~= done[i].data());
        lemma_extend_pointwise(done, fsx);
        let st = replay(init_state(), cat_recs(done));
        assert forall|k: Seq<u8>| #[trigger] old(index).m().contains_key(k) implies entry_ok(
            fsx,
            old(index).m()[k],
            k,
            st.kv[k],
        ) by {
            lemma_entry_ok_extend(done, fsx, old(index).m()[k], k, st.kv[k]);
        }
        assert forall|i: int, j: int|
            0 <= i < old(pending)@.len() && 0 <= j < old(pending)@[i].1@.len() implies
            staged_tr_ok(fsx, old(pending)@[i].0, #[trigger] old(pending)@[i].1@[j]) by {
            let tr = old(pending)@[i].1@[j];
            if tr.record.rec_type == LogRecordType::Normal {
                assert(rec_at_pos(
                    done,
                    tr.pos,
                    normal_rec(old(pending)@[i].0, tr.record.key@, tr.record.value@),
                ));
            }
        }
        assert forall|k: Seq<u8>|
            #[trigger] old(index).m().contains_key(k) && old(index).m()[k].file_id == f.id()
            implies false by {
            let st0 = replay(init_state(), cat_recs(done));
            let p = old(index).m()[k];
            let sq = choose|sq: u64| rec_at_pos(done, p, #[trigger] normal_rec(sq, k, st0.kv[k]));
            let i = choose|i: int|
                0 <= i < done.len() && (#[trigger] done[i]).id() == p.file_id && enc_at(
                    done[i].data(),
                    p.offset as int,
                    normal_rec(sq, k, st0.kv[k]),
                ) && p.size == enc(normal_rec(sq, k, st0.kv[k])).len();
        }
        assert forall|i: int, j: int|
            0 <= i < old(pending)@.len() && 0 <= j < old(pending)@[i].1@.len() && (
            #[trigger] old(pending)@[i].1@[j]).pos.file_id == f.id() && old(
                pending,
            )@[i].1@[j].record.rec_type == LogRecordType::Normal implies false by {
            let tr = old(pending)@[i].1@[j];
            let p = tr.pos;
            let i2 = choose|i2: int|
                0 <= i2 < done.len() && (#[trigger] done[i2]).id() == p.file_id && enc_at(
                    done[i2].data(),
                    p.offset as int,
                    normal_rec(old(pending)@[i].0, tr.record.key@, tr.record.value@),
                ) && p.size == enc(
                    normal_rec(old(pending)@[i].0, tr.record.key@, tr.record.value@),
                ).len();
        }
    }
    loop
        invariant
            f.wf(),
            off == enc_list(found).len(),
            off <= f.data().len(),
            fsx == done.push(f),
            forall|i: int| 0 <= i < done.len() ==> (#[trigger] done[i]).id() != f.id(),
            forall|j: int|
                0 <= j < found.len() ==> rec_fits(#[trigger] found[j]) && key_parses(
                    found[j].key,
                ),
            f.data().subrange(0, off as int) == enc_list(found),
            forall|rs: Seq<Rec>|
                crate::data_file::file_matches(f.data(), rs) ==> found.len() <= rs.len() && found
                    == rs.take(found.len() as int),
            scan_state_inv(fsx, cat_recs(done) + found, *index, pending@, *max_seq),
            scan_pos_bounded(*index, pending@, f.id(), off as int),
        decreases f.data().len() - off,
    {
        let ghost st = replay(init_state(), cat_recs(done) + found);
        let rr = match f.read_log_record(off) {
            Err(e) => {
                if e == Errors::ReadDataFileEOF {
                    // the records end here: cut the file back
                    proof {
                        assert forall|rs: Seq<Rec>|
                            crate::data_file::file_matches(f.data(), rs) implies rs == found by {
                            if rs.len() > found.len() {
                                crate::data_file::lemma_enc_at_in_list(
                                    f.data(),
                                    rs,
                                    found.len() as int,
                                );
                                assert(rs.take(found.len() as int) == found);
                                let nxt = rs[found.len() as int];
                                assert(enc_at(f.data(), off as int, nxt));
                                crate::log_record::lemma_enc_at_fields(f.data(), off as int, nxt);
                                lemma_varint_first_nonzero(nxt.key.len() as u64);
                                assert(crate::varint::byte_at(f.data(), off + 1) == varint(
                                    nxt.key.len() as u64,
                                )[0]);
                                assert(false);
                            }
                            assert(rs =~= rs.take(found.len() as int));
                        }
                    }
                    proof {
                        f.lemma_wf_len();
                        assert(enc_list(found).len() == off as int);
                        assert(f.data().subrange(0, off as int) == enc_list(found));
                    }
                    let mut f2 = f;
                    f2.truncate_to(off as usize, Ghost(found));
                    proof {
                        let fs2 = done.push(f2);
                        let st2 = replay(init_state(), cat_recs(fs2));
                        lemma_cat_recs_push(done, f2);
                        assert(cat_recs(fs2) == cat_recs(done) + found);
                        assert(st2 == st);
                        assert forall|k: Seq<u8>| #[trigger]
                            index.m().contains_key(k) implies entry_ok(
                            fs2,
                            index.m()[k],
                            k,
                            st2.kv[k],
                        ) by {
                            let p = index.m()[k];
                            let sq = choose|sq: u64|
                                rec_at_pos(fsx, p, #[trigger] normal_rec(sq, k, st.kv[k]));
                            let i = choose|i: int|
                                0 <= i < fsx.len() && (#[trigger] fsx[i]).id() == p.file_id
                                    && enc_at(
                                    fsx[i].data(),
                                    p.offset as int,
                                    normal_rec(sq, k, st.kv[k]),
                                ) && p.size == enc(normal_rec(sq, k, st.kv[k])).len();
                            if i < done.len() {
                                assert(fs2[i] == done[i]);
                            } else {
                                assert(fsx[i] == f);
                                assert(p.file_id == f.id());
                                crate::data_file::lemma_enc_at_shrink(
                                    f.data(),
                                    off as int,
                                    p.offset as int,
                                    normal_rec(sq, k, st.kv[k]),
                                );
                                assert(fs2[i] == f2);
                            }
                            assert(rec_at_pos(fs2, p, normal_rec(sq, k, st2.kv[k])));
                        }
                        assert forall|i: int, j: int|
                            0 <= i < pending@.len() && 0 <= j < pending@[i].1@.len() implies
                            staged_tr_ok(fs2, pending@[i].0, #[trigger] pending@[i].1@[j]) by {
                            let tr = pending@[i].1@[j];
                            if tr.record.rec_type == LogRecordType::Normal {
                                let rec = normal_rec(pending@[i].0, tr.record.key@, tr.record.value@);
                                let p = tr.pos;
                                let i2 = choose|i2: int|
                                    0 <= i2 < fsx.len() && (#[trigger] fsx[i2]).id() == p.file_id
                                        && enc_at(fsx[i2].data(), p.offset as int, rec) && p.size
                                        == enc(rec).len();
                                if i2 < done.len() {
                                    assert(fs2[i2] == done[i2]);
                                } else {
                                    assert(fsx[i2] == f);
                                    assert(p.file_id == f.id());
                                    crate::data_file::lemma_enc_at_shrink(
                                        f.data(),
                                        off as int,
                                        p.offset as int,
                                        rec,
                                    );
                                    assert(fs2[i2] == f2);
                                }
                                assert(rec_at_pos(fs2, p, rec));
                            }
                        }
                    }
                    return Ok(f2);
                }
                proof {
                    assert forall|rs: Seq<Rec>|
                        !crate::data_file::file_matches(f.data(), rs) by {
                        if crate::data_file::file_matches(f.data(), rs) {
                            lemma_match_next(f.data(), rs, found, off as int);
                            if rs.len() > found.len() {
                                let nxt = rs[found.len() as int];
                                assert(enc_at(f.data(), off as int, nxt));
                                assert(crate::log_record::decode_ok_matches(
                                    Err::<crate::log_record::ReadLogRecord, Errors>(e),
                                    nxt,
                                ));
                            } else {
                                assert(enc_list(rs) == enc_list(found));
                                assert forall|t: int|
                                    off + 1 <= t <= off + 2 implies crate::varint::byte_at(
                                    f.data(),
                                    t,
                                ) == 0 by {
                                    if t < f.data().len() {
                                        assert(f.data()[t] == 0);
                                    }
                                }
                            }
                        }
                    }
                }
                return Err(Errors::InvalidLogRecordCrc);
            },
            Ok(rr) => rr,
        };
        proof {
            assert(enc_at(f.data(), off as int, rr.record@));
            assert forall|rs: Seq<Rec>|
                crate::data_file::file_matches(f.data(), rs) implies found.len() < rs.len() && rs[
                found.len() as int] == rr.record@ && rs.take(found.len() as int + 1) == found.push(
                rr.record@,
            ) by {
                lemma_match_next(f.data(), rs, found, off as int);
                if rs.len() > found.len() {
                    let nxt = rs[found.len() as int];
                    assert(enc_at(f.data(), off as int, nxt));
                    assert(crate::log_record::decode_ok_matches(
                        Ok::<crate::log_record::ReadLogRecord, Errors>(rr),
                        nxt,
                    ));
                    assert(rs.take(found.len() as int + 1) =~= rs.take(found.len() as int).push(nxt));
                } else {
                    assert(enc_list(rs) == enc_list(found));
                    assert forall|t: int|
                        off + 1 <= t <= off + 2 implies crate::varint::byte_at(f.data(), t)
                        == 0 by {
                        if t < f.data().len() {
                            assert(f.data()[t] == 0);
                        }
                    }
                    assert(false);
                }
            }
        }
        let klen = rr.record.key.len() as u64;
        let vlen = rr.record.value.len() as u64;
        if klen + vlen + 20 > u32::MAX as u64 {
            proof {
                assert forall|rs: Seq<Rec>|
                    !crate::data_file::file_matches(f.data(), rs) by {
                    if crate::data_file::file_matches(f.data(), rs) {
                        assert(rec_fits(rs[found.len() as int]));
                    }
                }
            }
            return Err(Errors::DataDirectoryCorrupted);
        }
        proof {
            lemma_enc_len(rr.record@);
        }
        let pos = LogRecordPos { file_id: f.get_file_id(), offset: off, size: rr.size as u32 };
        let (user_key, sq) = match crate::replay::parse_log_record_key(&rr.record.key) {
            Ok(p) => p,
            Err(_) => {
                proof {
                    assert forall|rs: Seq<Rec>|
                        !crate::data_file::file_matches(f.data(), rs) by {
                        if crate::data_file::file_matches(f.data(), rs) {
                            assert(key_parses(rs[found.len() as int].key));
                        }
                    }
                }
                return Err(Errors::DataDirectoryCorrupted);
            },
        };
        proof {
            crate::replay::lemma_key_recompose(rr.record@.key);
        }
        let ghost op = StagedOp {
            rec_type: rr.record.rec_type,
            key: user_key@,
            value: rr.record@.value,
        };
        let ghost st2 = step(st, rr.record@);
        let ghost old_index_m = index.m();
        let ghost old_pending = pending@;
        proof {
            lemma_replay_push(init_state(), cat_recs(done) + found, rr.record@);
            assert((cat_recs(done) + found).push(rr.record@) =~= cat_recs(done) + found.push(
                rr.record@,
            ));
            assert(replay(init_state(), cat_recs(done) + found.push(rr.record@)) == st2);
            assert(rec_at_pos(fsx, pos, rr.record@)) by {
                assert(fsx[done.len() as int] == f);
            }
        }
        if sq == 0 {
            proof {
                if rr.record@.rec_type == LogRecordType::Normal {
                    assert(rr.record@ =~= normal_rec(0, user_key@, rr.record@.value));
                }
                assert(st2.kv == crate::replay::apply_op(st.kv, op));
                assert(st2.pending == st.pending);
            }
            update_index(
                index,
                reclaim,
                user_key,
                rr.record.rec_type,
                pos,
                Ghost(fsx),
                Ghost(st.kv),
                Ghost(0),
                Ghost(rr.record@.value),
            );
            proof {
                assert(index_kv_inv(fsx, *index, st2.kv));
                assert(pending_inv(fsx, pending@, st2.pending)) by {
                    assert(st2.pending == st.pending);
                }
                assert forall|k: Seq<u8>|
                    #[trigger] index.m().contains_key(k) && index.m()[k].file_id == f.id()
                    implies index.m()[k].offset + index.m()[k].size <= off + rr.size by {
                    if k != user_key@ {
                        assert(index.m()[k] == old_index_m[k]);
                    }
                }
            }
        } else if rr.record.rec_type == LogRecordType::TxnFinished {
            proof {
                assert(st2.kv == crate::replay::apply_ops(st.kv, crate::replay::staged(st, sq)));
                assert(st2.pending == st.pending.remove(sq));
            }
            apply_txn_finished(
                index,
                pending,
                reclaim,
                sq,
                Ghost(fsx),
                Ghost(st),
                Ghost(f.id()),
                Ghost(off as int),
            );
            proof {
                assert(index_kv_inv(fsx, *index, st2.kv));
                assert(pending_inv(fsx, pending@, st2.pending)) by {
                    assert(st2.pending == st.pending.remove(sq));
                }
            }
        } else {
            let tr = crate::log_record::TransactionRecord {
                record: LogRecord {
                    key: user_key,
                    value: rr.record.value,
                    rec_type: rr.record.rec_type,
                },
                pos,
            };
            proof {
                assert(st2.kv == st.kv);
                if tr.record.rec_type == LogRecordType::Normal {
                    assert(rr.record@ =~= normal_rec(sq, tr.record.key@, tr.record.value@));
                }
                assert(staged_tr_ok(fsx, sq, tr));
                assert(st2.pending == st.pending.insert(
                    sq,
                    crate::replay::staged(st, sq).push(
                        StagedOp {
                            rec_type: tr.record.rec_type,
                            key: tr.record.key@,
                            value: tr.record.value@,
                        },
                    ),
                ));
            }
            stage_pending(pending, sq, tr, Ghost(fsx), Ghost(st));
            proof {
                assert(index_kv_inv(fsx, *index, st2.kv)) by {
                    assert(st2.kv == st.kv);
                }
                assert(pending_inv(fsx, pending@, st2.pending));
                assert forall|i: int, j: int|
                    0 <= i < pending@.len() && 0 <= j < pending@[i].1@.len() && (
                    #[trigger] pending@[i].1@[j]).pos.file_id == f.id() && pending@[
                    i].1@[j].record.rec_type == LogRecordType::Normal implies pending@[
                i].1@[j].pos.offset + pending@[i].1@[j].pos.size <= off + rr.size by {
                    let e = pending@[i].1@[j];
                    if e == tr {
                        assert(e.pos.offset + e.pos.size == off + rr.size);
                    } else {
                        let (i2, j2) = choose|i2: int, j2: int|
                            0 <= i2 < old_pending.len() && 0 <= j2 < old_pending[i2].1@.len() && (
                            #[trigger] old_pending[i2].1@[j2]) == e;
                        assert(old_pending[i2].1@[j2].pos.offset + old_pending[i2].1@[j2].pos.size
                            <= off);
                    }
                }
            }
        }
        if sq > *max_seq {
            *max_seq = sq;
        }
        proof {
            let found2 = found.push(rr.record@);
            lemma_enc_list_push(found, rr.record@);
            assert(f.data().subrange(0, off + rr.size) =~= enc_list(found2)) by {
                assert(forall|t: int|
                    0 <= t < off ==> #[trigger] f.data().subrange(0, off as int)[t] == f.data()[t]);
                assert(forall|t: int|
                    0 <= t < enc(rr.record@).len() ==> #[trigger] f.data().subrange(
                        off as int,
                        off + enc(rr.record@).len(),
                    )[t] == f.data()[off + t]);
            }
            found = found2;
        }
        proof {
            f.lemma_wf_len();
            assert(off + rr.size <= f.data().len());
        }
        off = off + rr.size;
    }
}

/// Where the first `k` records of a matching listing have been read, the
/// listing either ends exactly here or its next record's encoding starts
/// here.
proof fn lemma_match_next(content: Seq<u8>, rs: Seq<Rec>, found: Seq<Rec>, off: int)
    requires
        crate::data_file::file_matches(content, rs),
        found.len() <= rs.len(),
        found == rs.take(found.len() as int),
        off == enc_list(found).len(),
    ensures
        rs.len() > found.len() ==> enc_at(content, off, rs[found.len() as int]) && enc_list(
            rs.take(found.len() as int),
        ).len() == off,
        rs.len() == found.len() ==> enc_list(rs) == enc_list(found),
{
    if rs.len() > found.len() {
        crate::data_file::lemma_enc_at_in_list(content, rs, found.len() as int);
        assert(enc_list(rs.take(found.len() as int)) == enc_list(found));
    } else {
        assert(rs =~= found);
    }
}

/// Applying one more staged operation steps the accumulated map.
proof fn lemma_apply_ops_take(kv: Map<Seq<u8>, Seq<u8>>, ops: Seq<StagedOp>, i: int)
    requires
        0 <= i < ops.len(),
    ensures
        crate::replay::apply_ops(kv, ops.take(i + 1)) == crate::replay::apply_op(
            crate::replay::apply_ops(kv, ops.take(i)),
            ops[i],
        ),
{
    assert(ops.take(i + 1).drop_last() =~= ops.take(i));
    assert(ops.take(i + 1).last() == ops[i]);
}

impl Engine {
    /// Opens the engine over the data files of a directory, given oldest
    /// first. The index is rebuilt by scanning the files; whatever record
    /// listing the files hold is what the engine then serves, with the
    /// next sequence number one past the largest found. Both in-memory
    /// index kinds are served by the ordered map; the disk-backed B+ tree
    /// keeps its own store, which this engine cannot open, and is
    /// rejected.
    pub fn open(opts: Options, data_files: Vec<DataFile>, is_initial: bool) -> (r: Result<
        Engine,
        Errors,
    >)
        requires
            forall|i: int| 0 <= i < data_files@.len() ==> (#[trigger] data_files@[i]).wf(),
            forall|i: int, j: int|
                0 <= i < j < data_files@.len() ==> (#[trigger] data_files@[i]).id() < (
                #[trigger] data_files@[j]).id(),
        ensures
            match r {
                Ok(e) => {
                    &&& e.wf()
                    &&& e.opts() == opts
                    &&& forall|rss: Seq<Seq<Rec>>|
                        #[trigger] files_match_all(data_files@, rss) ==> e.kv() == replay(
                            init_state(),
                            cat_all(rss),
                        ).kv && e.seq() == replay(init_state(), cat_all(rss)).max_seq + 1
                },
                Err(e) => {
                    ||| (e == Errors::DirPathIsEmpty && opts.dir_path@.len() == 0)
                    ||| (e == Errors::DataFileSizeTooSmall && opts.data_file_size == 0)
                    ||| (e == Errors::InvalidMergeRatio && opts.data_file_merge_ratio > 100)
                    ||| (e == Errors::FailedOpenDataFile && opts.index_type
                        == IndexType::BPlusTree)
                    ||| e == Errors::InvalidLogRecordCrc
                    ||| e == Errors::DataDirectoryCorrupted
                },
            },
            forall|rss: Seq<Seq<Rec>>|
                #[trigger] files_match_all(data_files@, rss) && opts.dir_path@.len() > 0
                    && opts.data_file_size > 0 && opts.data_file_merge_ratio <= 100
                    && opts.index_type != IndexType::BPlusTree && replay(
                    init_state(),
                    cat_all(rss),
                ).max_seq < u64::MAX ==> r is Ok,
    {
        let ghost input = data_files@;
        match check_options(&opts) {
            Ok(_) => {},
            Err(e) => {
                proof {
                    assert(opts.dir_path@.len() == 0 || opts.data_file_size == 0
                        || opts.data_file_merge_ratio > 100);
                }
                return Err(e);
            },
        }
        if opts.index_type == IndexType::BPlusTree {
            // the disk-backed index's own store is not something this
            // engine can open
            return Err(Errors::FailedOpenDataFile);
        }
        let mut index = new_indexer(opts.index_type);
        let mut pending: Vec<(u64, Vec<crate::log_record::TransactionRecord>)> = Vec::new();
        let mut max_seq: u64 = 0;
        let mut reclaim: usize = 0;
        let mut files = data_files;
        let mut scanned: Vec<DataFile> = Vec::new();
        proof {
            assert(files@ =~= input.skip(0));
            assert(cat_recs(scanned@) =~= Seq::<Rec>::empty());
            assert(replay(init_state(), cat_recs(scanned@)) == init_state());
            assert(index_kv_inv(scanned@, index, init_state().kv));
        }
        while files.len() > 0
            invariant
                input == data_files@,
                opts.index_type != IndexType::BPlusTree,
                forall|i: int| 0 <= i < input.len() ==> (#[trigger] input[i]).wf(),
                forall|i: int, j: int|
                    0 <= i < j < input.len() ==> (#[trigger] input[i]).id() < (
                    #[trigger] input[j]).id(),
                scanned@.len() + files@.len() == input.len(),
                files@ =~= input.skip(scanned@.len() as int),
                forall|i: int|
                    0 <= i < scanned@.len() ==> (#[trigger] scanned@[i]).id() == input[i].id()
                        && scanned@[i].wf() && scanned@[i].tracks(),
                forall|i: int, j: int|
                    0 <= i < scanned@.len() && 0 <= j < scanned@[i].recs().len() ==> key_parses(
                        (#[trigger] scanned@[i].recs()[j]).key,
                    ),
                forall|i: int, rs: Seq<Rec>|
                    0 <= i < scanned@.len() && #[trigger] crate::data_file::file_matches(
                        input[i].data(),
                        rs,
                    ) ==> rs == scanned@[i].recs(),
                scan_state_inv(scanned@, cat_recs(scanned@), index, pending@, max_seq),
            decreases files@.len(),
        {
            let f = files.remove(0);
            let ghost k = scanned@.len() as int;
            proof {
                assert(f == input[k]);
                assert forall|i: int| 0 <= i < scanned@.len() implies (#[trigger] scanned@[i]).id()
                    != f.id() by {
                    assert(input[i].id() < input[k].id());
                }
            }
            let f2 = match scan_file(
                f,
                &mut index,
                &mut pending,
                &mut max_seq,
                &mut reclaim,
                Ghost(scanned@),
            ) {
                Ok(f2) => f2,
                Err(e) => {
                    proof {
                        assert forall|rss: Seq<Seq<Rec>>|
                            !(#[trigger] files_match_all(data_files@, rss)) by {
                            if files_match_all(data_files@, rss) {
                                assert(data_files@ == input);
                                assert(crate::data_file::file_matches(input[k].data(), rss[k]));
                                assert(crate::data_file::file_matches(f.data(), rss[k]));
                            }
                        }
                    }
                    return Err(e);
                },
            };
            let ghost scanned0 = scanned@;
            scanned.push(f2);
            proof {
                assert(scanned@ =~= scanned0.push(f2));
                assert(files@ =~= input.skip(scanned@.len() as int));
            }
        }
        if max_seq == u64::MAX {
            proof {
                assert(input == data_files@);
                assert forall|rss: Seq<Seq<Rec>>|
                    #[trigger] files_match_all(input, rss) implies !(replay(
                    init_state(),
                    cat_all(rss),
                ).max_seq < u64::MAX) by {
                    lemma_cat_all_eq(rss, scanned@);
                }
            }
            return Err(Errors::DataDirectoryCorrupted);
        }
        let ghost scfinal = scanned@;
        let mut older = scanned;
        let active = match older.pop() {
            Some(a) => a,
            None => DataFile::new(0),
        };
        let engine = Engine {
            options: opts,
            active_file: active,
            older_files: older,
            index,
            seq_no: max_seq + 1,
            bytes_write: 0,
            reclaim_size: reclaim,
            seq_file_exists: false,
            is_initial,
        };
        proof {
            assert(input == data_files@);
            let ghost sc = if input.len() == 0 {
                seq![engine.active_file]
            } else {
                Seq::<DataFile>::empty()
            };
            if input.len() == 0 {
                assert(engine.files() =~= seq![engine.active_file]);
                assert(cat_recs(engine.files()) =~= Seq::<Rec>::empty()) by {
                    lemma_cat_recs_push(Seq::<DataFile>::empty(), engine.active_file);
                    assert(cat_recs(Seq::<DataFile>::empty()) + engine.active_file.recs()
                        =~= Seq::<Rec>::empty());
                }
                assert(engine.rp() == init_state());
                assert(engine.wf_store());
                assert(engine.wf_index()) by {
                    assert(index_kv_inv(Seq::<DataFile>::empty(), engine.index, init_state().kv));
                    assert forall|key: Seq<u8>| !(#[trigger] engine.index.m().contains_key(
                        key,
                    )) by {
                        if engine.index.m().contains_key(key) {
                            assert(init_state().kv.contains_key(key));
                        }
                    }
                }
            } else {
                let scv = engine.older_files@.push(engine.active_file);
                assert(scv =~= scfinal);
                assert(scv.len() == input.len());
                assert(engine.files() == scv);
                assert(scan_state_inv(scv, cat_recs(scv), engine.index, pending@, max_seq));
                assert forall|i: int| 0 <= i < input.len() implies (#[trigger] scv[i]).id()
                    == input[i].id() && scv[i].wf() && scv[i].tracks() by {}
                assert(engine.wf_store()) by {
                    assert forall|i: int, j: int|
                        0 <= i < j < engine.older_files@.len() implies (
                    #[trigger] engine.older_files@[i]).id() < (
                    #[trigger] engine.older_files@[j]).id() by {
                        assert(engine.older_files@[i] == scv[i]);
                        assert(engine.older_files@[j] == scv[j]);
                    }
                    assert forall|i: int|
                        0 <= i < engine.older_files@.len() implies (
                    #[trigger] engine.older_files@[i]).id() < engine.active_file.id() by {
                        assert(engine.older_files@[i] == scv[i]);
                        assert(engine.active_file == scv[input.len() - 1]);
                        assert(input[i].id() < input[input.len() - 1].id());
                    }
                }
                assert(engine.wf_index());
            }
            assert(engine.rp().max_seq == max_seq);
            assert forall|rss: Seq<Seq<Rec>>|
                #[trigger] files_match_all(input, rss) implies engine.kv() == replay(
                init_state(),
                cat_all(rss),
            ).kv && engine.seq() == replay(init_state(), cat_all(rss)).max_seq + 1 by {
                if input.len() == 0 {
                    assert(rss.len() == 0);
                    assert(cat_all(rss) =~= Seq::<Rec>::empty());
                    assert(cat_recs(engine.files()) =~= Seq::<Rec>::empty()) by {
                        lemma_cat_recs_push(Seq::<DataFile>::empty(), engine.active_file);
                        assert(cat_recs(Seq::<DataFile>::empty()) + engine.active_file.recs()
                            =~= Seq::<Rec>::empty());
                    }
                } else {
                    let scv = engine.older_files@.push(engine.active_file);
                    lemma_cat_all_eq(rss, scv);
                }
            }
        }
        Ok(engine)
    }
}

/// The on-disk record a staged batch entry becomes under sequence `s`.
pub open spec fn batch_rec(e: (Vec<u8>, LogRecord), s: u64) -> Rec {
    Rec { key: key_with_seq(s, e.0@), value: e.1.value@, rec_type: e.1.rec_type }
}

/// The records a whole batch becomes.
pub open spec fn batch_recs(es: Seq<(Vec<u8>, LogRecord)>, s: u64) -> Seq<Rec> {
    es.map_values(|e: (Vec<u8>, LogRecord)| batch_rec(e, s))
}

/// A merge ratio, held to at most one hundred percent.
pub open spec fn clamp100(x: int) -> int {
    if x > 100 {
        100
    } else {
        x
    }
}

/// The hint file's records name every live key of `e`, each carrying the
/// encoded position of a live record with the key's current value.
pub open spec fn hint_recs_ok(hrecs: Seq<Rec>, e: Engine) -> bool {
    &&& forall|i: int|
        0 <= i < hrecs.len() ==> (#[trigger] hrecs[i]).rec_type == LogRecordType::Normal
            && e.kv().contains_key(hrecs[i].key) && (exists|p: LogRecordPos|
            hrecs[i].value == crate::log_record::enc_pos(p) && #[trigger] entry_ok(
                e.files(),
                p,
                hrecs[i].key,
                e.kv()[hrecs[i].key],
            ))
    &&& forall|k: Seq<u8>|
        #[trigger] e.kv().contains_key(k) ==> exists|i: int|
            0 <= i < hrecs.len() && (#[trigger] hrecs[i]).key == k
}

/// The finish marker of batch `s`.
pub open spec fn fin_rec(s: u64) -> Rec {
    Rec {
        key: key_with_seq(s, txn_fin_key()),
        value: Seq::empty(),
        rec_type: LogRecordType::TxnFinished,
    }
}

/// Whether a run of records fits, starting from a file of `len` bytes
/// with id `id` and rotating at `dfs`: each record in turn must find room
/// in the file that would receive it.
pub open spec fn rooms(len: int, id: u32, dfs: int, rs: Seq<Rec>) -> bool
    decreases rs.len(),
{
    if rs.len() == 0 {
        true
    } else {
        let n = enc(rs.first()).len() as int;
        if len + n > dfs {
            &&& id < u32::MAX
            &&& n + 32 <= usize::MAX
            &&& rooms(n, (id + 1) as u32, dfs, rs.drop_first())
        } else {
            &&& len + n + 32 <= usize::MAX
            &&& rooms(len + n, id, dfs, rs.drop_first())
        }
    }
}

/// The operations a batch applies to the visible map.
pub open spec fn entry_ops(es: Seq<(Vec<u8>, LogRecord)>) -> Seq<StagedOp> {
    es.map_values(
        |e: (Vec<u8>, LogRecord)|
            StagedOp { rec_type: e.1.rec_type, key: e.0@, value: e.1.value@ },
    )
}

/// A batch entry the engine can commit: a non-empty user key, lengths
/// within the format, and an ordinary or tombstone record.
pub open spec fn batch_entry_wf(e: (Vec<u8>, LogRecord)) -> bool {
    &&& 1 <= e.0@.len()
    &&& e.0@.len() + e.1.value@.len() + 34 <= u32::MAX
    &&& (e.1.rec_type == LogRecordType::Normal || e.1.rec_type == LogRecordType::Deleted)
}

/// What the records of a batch parse to.
proof fn lemma_batch_recs_facts(es: Seq<(Vec<u8>, LogRecord)>, s: u64)
    requires
        forall|i: int| 0 <= i < es.len() ==> batch_entry_wf(#[trigger] es[i]),
    ensures
        batch_recs(es, s).len() == es.len(),
        forall|t: int|
            0 <= t < es.len() ==> key_parses((#[trigger] batch_recs(es, s)[t]).key) && key_seq_no(
                batch_recs(es, s)[t].key,
            ) == s && crate::replay::user_key(batch_recs(es, s)[t].key) == es[t].0@ && batch_recs(
                es,
                s,
            )[t].rec_type != LogRecordType::TxnFinished,
{
    assert forall|t: int| 0 <= t < es.len() implies key_parses(
        (#[trigger] batch_recs(es, s)[t]).key,
    ) && key_seq_no(batch_recs(es, s)[t].key) == s && crate::replay::user_key(
        batch_recs(es, s)[t].key,
    ) == es[t].0@ && batch_recs(es, s)[t].rec_type != LogRecordType::TxnFinished by {
        lemma_key_parse(s, es[t].0@);
        assert(batch_recs(es, s)[t] == batch_rec(es[t], s));
    }
}

/// Record sequences extend transitively.
proof fn lemma_extend_trans(a: Seq<DataFile>, b: Seq<DataFile>, c: Seq<DataFile>)
    requires
        files_extend(a, b),
        files_extend(b, c),
    ensures
        files_extend(a, c),
{
    assert forall|p: LogRecordPos, rec: Rec| #[trigger] rec_at_pos(a, p, rec) implies rec_at_pos(
        c,
        p,
        rec,
    ) by {
        assert(rec_at_pos(b, p, rec));
    }
}

impl Engine {
    /// Commits a staged batch: writes every staged record under one fresh
    /// sequence number, then the finish marker, and only then applies the
    /// batch to the index. On an append failure nothing becomes visible.
    /// Success is owed exactly when the batch is empty, or fits its
    /// configured maximum, a sequence number is left, and the files have
    /// room for every record plus the marker.
    #[verifier::rlimit(100)]
    pub(crate) fn commit_batch(
        &mut self,
        entries: &Vec<(Vec<u8>, LogRecord)>,
        max_batch_num: usize,
        sync_writes: bool,
    ) -> (r: Result<(), Errors>)
        requires
            old(self).wf(),
            forall|i: int| 0 <= i < entries@.len() ==> batch_entry_wf(#[trigger] entries@[i]),
        ensures
            final(self).wf(),
            final(self).opts() == old(self).opts(),
            match r {
                Ok(_) => {
                    &&& final(self).kv() == crate::replay::apply_ops(
                        old(self).kv(),
                        entry_ops(entries@),
                    )
                    &&& entries@.len() <= max_batch_num
                    &&& if entries@.len() == 0 {
                        *final(self) == *old(self)
                    } else {
                        &&& final(self).seq() == old(self).seq() + 1
                        &&& cat_recs(final(self).files()) == cat_recs(old(self).files())
                            + batch_recs(entries@, old(self).seq()) + seq![
                            fin_rec(old(self).seq()),
                        ]
                    }
                },
                Err(e) => {
                    &&& final(self).kv() == old(self).kv()
                    &&& (e == Errors::ExceedMaxBatchNum <==> entries@.len() > max_batch_num)
                    &&& (e == Errors::UnableToUseWriteBatch <==> (entries@.len() > 0
                        && entries@.len() <= max_batch_num && old(self).seq() == u64::MAX))
                    &&& (e == Errors::ExceedMaxBatchNum || e == Errors::UnableToUseWriteBatch || e
                        == Errors::FailedWriteToDataFile || e == Errors::FailedOpenDataFile)
                    &&& ((e == Errors::ExceedMaxBatchNum || e == Errors::UnableToUseWriteBatch)
                        ==> *final(self) == *old(self))
                    &&& ((e == Errors::FailedWriteToDataFile || e == Errors::FailedOpenDataFile)
                        ==> final(self).seq() == old(self).seq() + 1 && exists|i: int|
                        0 <= i <= entries@.len() && cat_recs(final(self).files()) == cat_recs(
                            old(self).files(),
                        ) + batch_recs(#[trigger] entries@.take(i), old(self).seq()))
                },
            },
            r is Ok <==> (entries@.len() == 0 || (entries@.len() <= max_batch_num && old(
                self,
            ).seq() < u64::MAX && rooms(
                old(self).files().last().data().len() as int,
                old(self).files().last().id(),
                old(self).opts().data_file_size as int,
                batch_recs(entries@, old(self).seq()).push(fin_rec(old(self).seq())),
            ))),
    {
        let n = entries.len();
        if n == 0 {
            proof {
                assert(entry_ops(entries@) =~= Seq::<StagedOp>::empty());
                assert(crate::replay::apply_ops(old(self).kv(), entry_ops(entries@)) == old(
                    self,
                ).kv());
            }
            return Ok(());
        }
        if n > max_batch_num {
            return Err(Errors::ExceedMaxBatchNum);
        }
        if self.seq_no == u64::MAX {
            return Err(Errors::UnableToUseWriteBatch);
        }
        let s = self.seq_no;
        self.seq_no = s + 1;
        let ghost pre = *old(self);
        let ghost st0 = pre.rp();
        let ghost cat0 = cat_recs(pre.files());
        let ghost brecs = batch_recs(entries@, s);
        proof {
            lemma_pending_bounded(init_state(), cat0);
            assert(entries@.take(n as int) =~= entries@);
            lemma_batch_recs_facts(entries@, s);
        }
        let positions = match self.append_batch(entries, s) {
            Err(e) => {
                proof {
                    let i = choose|i: int|
                        0 <= i <= entries@.len() && cat_recs(self.files()) == cat0 + batch_recs(
                            #[trigger] entries@.take(i),
                            s,
                        );
                    assert(forall|t: int|
                        0 <= t < i ==> batch_entry_wf(#[trigger] entries@.take(i)[t]));
                    lemma_batch_recs_facts(entries@.take(i), s);
                    crate::replay::lemma_replay_app(
                        init_state(),
                        cat0,
                        batch_recs(entries@.take(i), s),
                    );
                    crate::replay::lemma_stage_run(st0, batch_recs(entries@.take(i), s), s);
                    assert(self.kv() == pre.kv());
                    assert(self.rp().max_seq < self.seq_no);
                    assert(self.wf_index()) by {
                        assert forall|k: Seq<u8>| #[trigger]
                            self.index.m().contains_key(k) implies entry_ok(
                            self.files(),
                            self.index.m()[k],
                            k,
                            self.rp().kv[k],
                        ) by {
                            lemma_entry_ok_extend(
                                pre.files(),
                                self.files(),
                                pre.index.m()[k],
                                k,
                                st0.kv[k],
                            );
                        }
                    }
                }
                return Err(e);
            },
            Ok(ps) => ps,
        };
        let ghost st_fin = self.rp();
        proof {
            assert(cat0 + brecs + seq![fin_rec(s)] =~= cat0 + brecs.push(fin_rec(s)));
            crate::replay::lemma_replay_app(init_state(), cat0, brecs.push(fin_rec(s)));
            crate::replay::lemma_replay_push(st0, brecs, fin_rec(s));
            crate::replay::lemma_stage_run(st0, brecs, s);
            let stm = replay(st0, brecs);
            assert(st_fin == step(stm, fin_rec(s))) by {
                lemma_key_parse(s, txn_fin_key());
            }
            assert(!st0.pending.contains_key(s));
            assert(crate::replay::staged(st0, s) =~= Seq::<StagedOp>::empty());
            assert(crate::replay::staged(stm, s) =~= crate::replay::recs_ops(brecs)) by {
                lemma_key_parse(s, txn_fin_key());
            }
            assert(st_fin.kv == crate::replay::apply_ops(
                stm.kv,
                crate::replay::staged(stm, s),
            )) by {
                lemma_key_parse(s, txn_fin_key());
            }
            assert(stm.kv == st0.kv);
            assert(st_fin.kv == crate::replay::apply_ops(st0.kv, crate::replay::recs_ops(brecs)));
            assert(crate::replay::recs_ops(brecs) =~= entry_ops(entries@)) by {
                assert forall|t: int| 0 <= t < n implies #[trigger] crate::replay::recs_ops(
                    brecs,
                )[t] == entry_ops(entries@)[t] by {
                    lemma_key_parse(s, entries@[t].0@);
                    assert(brecs[t] == batch_rec(entries@[t], s));
                }
            }
            assert(st_fin.max_seq == s) by {
                lemma_key_parse(s, txn_fin_key());
            }
        }
        // the batch is durable: apply it to the index
        let mut j: usize = 0;
        while j < n
            invariant
                j <= n == entries@.len(),
                forall|t: int| 0 <= t < entries@.len() ==> batch_entry_wf(#[trigger] entries@[t]),
                self.wf_store(),
                self.options == pre.options,
                self.seq_no == s + 1,
                self.seq_file_exists == pre.seq_file_exists,
                self.is_initial == pre.is_initial,
                self.reclaim_size == self.reclaim_size,
                pre == *old(self),
                pre.wf(),
                st0 == pre.rp(),
                s == pre.seq_no,
                st_fin == self.rp(),
                st_fin.kv == crate::replay::apply_ops(st0.kv, entry_ops(entries@)),
                st_fin.max_seq == s,
                cat_recs(self.files()) == cat_recs(pre.files()) + brecs + seq![fin_rec(s)],
                brecs == batch_recs(entries@, s),
                positions@.len() == n,
                forall|t: int|
                    0 <= t < n ==> rec_at_pos(
                        self.files(),
                        #[trigger] positions@[t],
                        batch_rec(entries@[t], s),
                    ),
                index_kv_inv(
                    self.files(),
                    self.index,
                    crate::replay::apply_ops(st0.kv, entry_ops(entries@).take(j as int)),
                ),
            decreases n - j,
        {
            let key = crate::log_record::copy_range(&entries[j].0, 0, entries[j].0.len());
            proof {
                assert(key@ =~= entries@[j as int].0@);
                lemma_apply_ops_take(st0.kv, entry_ops(entries@), j as int);
                assert(entry_ops(entries@)[j as int] == StagedOp {
                    rec_type: entries@[j as int].1.rec_type,
                    key: entries@[j as int].0@,
                    value: entries@[j as int].1.value@,
                });
                if entries@[j as int].1.rec_type == LogRecordType::Normal {
                    assert(batch_rec(entries@[j as int], s) == normal_rec(
                        s,
                        entries@[j as int].0@,
                        entries@[j as int].1.value@,
                    ));
                }
            }
            let ghost fsnow = self.files();
            update_index(
                &mut self.index,
                &mut self.reclaim_size,
                key,
                entries[j].1.rec_type,
                positions[j],
                Ghost(fsnow),
                Ghost(crate::replay::apply_ops(st0.kv, entry_ops(entries@).take(j as int))),
                Ghost(s),
                Ghost(entries@[j as int].1.value@),
            );
            j = j + 1;
        }
        proof {
            assert(entry_ops(entries@).take(n as int) =~= entry_ops(entries@));
            assert(self.wf());
        }
        if sync_writes {
            let r = self.sync();
            proof {
                assert(r is Ok);
            }
        }
        proof {
            assert(s == old(self).seq());
            assert(cat_recs(self.files()) == cat_recs(old(self).files()) + batch_recs(
                entries@,
                old(self).seq(),
            ) + seq![fin_rec(old(self).seq())]);
        }
        Ok(())
    }

    /// Appends every record of a batch under sequence number `s`, followed
    /// by the finish marker. Exactly the room condition `rooms` decides
    /// success; on failure some prefix of the batch records is in the
    /// files without the marker, so nothing of the batch is visible.
    #[verifier::rlimit(100)]
    fn append_batch(&mut self, entries: &Vec<(Vec<u8>, LogRecord)>, s: u64) -> (r: Result<
        Vec<LogRecordPos>,
        Errors,
    >)
        requires
            old(self).wf_store(),
            forall|i: int| 0 <= i < entries@.len() ==> batch_entry_wf(#[trigger] entries@[i]),
            1 <= s < u64::MAX,
        ensures
            final(self).wf_store(),
            final(self).index == old(self).index,
            final(self).seq_no == old(self).seq_no,
            final(self).options == old(self).options,
            final(self).reclaim_size == old(self).reclaim_size,
            final(self).seq_file_exists == old(self).seq_file_exists,
            final(self).is_initial == old(self).is_initial,
            files_extend(old(self).files(), final(self).files()),
            r is Ok <==> rooms(
                old(self).files().last().data().len() as int,
                old(self).files().last().id(),
                old(self).opts().data_file_size as int,
                batch_recs(entries@, s).push(fin_rec(s)),
            ),
            match r {
                Ok(ps) => {
                    &&& ps@.len() == entries@.len()
                    &&& cat_recs(final(self).files()) == cat_recs(old(self).files())
                        + batch_recs(entries@, s) + seq![fin_rec(s)]
                    &&& forall|t: int|
                        0 <= t < entries@.len() ==> rec_at_pos(
                            final(self).files(),
                            (#[trigger] ps@[t]),
                            batch_rec(entries@[t], s),
                        )
                },
                Err(e) => {
                    &&& (e == Errors::FailedWriteToDataFile || e == Errors::FailedOpenDataFile)
                    &&& exists|i: int|
                        0 <= i <= entries@.len() && cat_recs(final(self).files()) == cat_recs(
                            old(self).files(),
                        ) + batch_recs(#[trigger] entries@.take(i), s)
                },
            },
    {
        let ghost pre = *old(self);
        let ghost cat0 = cat_recs(pre.files());
        let ghost dfs = pre.opts().data_file_size as int;
        let ghost allrecs = batch_recs(entries@, s).push(fin_rec(s));
        let n = entries.len();
        let mut positions: Vec<LogRecordPos> = Vec::new();
        let mut i: usize = 0;
        proof {
            assert(allrecs.skip(0) =~= allrecs);
        }
        while i < n
            invariant
                i <= n == entries@.len(),
                forall|t: int| 0 <= t < entries@.len() ==> batch_entry_wf(#[trigger] entries@[t]),
                1 <= s < u64::MAX,
                self.wf_store(),
                self.index == pre.index,
                self.options == pre.options,
                self.seq_no == pre.seq_no,
                self.seq_file_exists == pre.seq_file_exists,
                self.is_initial == pre.is_initial,
                self.reclaim_size == pre.reclaim_size,
                pre == *old(self),
                pre.wf_store(),
                cat0 == cat_recs(pre.files()),
                dfs == pre.opts().data_file_size as int,
                allrecs == batch_recs(entries@, s).push(fin_rec(s)),
                positions@.len() == i,
                cat_recs(self.files()) == cat0 + batch_recs(entries@.take(i as int), s),
                files_extend(pre.files(), self.files()),
                forall|t: int|
                    0 <= t < i ==> rec_at_pos(
                        self.files(),
                        #[trigger] positions@[t],
                        batch_rec(entries@[t], s),
                    ),
                rooms(
                    pre.files().last().data().len() as int,
                    pre.files().last().id(),
                    dfs,
                    allrecs,
                ) == rooms(
                    self.files().last().data().len() as int,
                    self.files().last().id(),
                    dfs,
                    allrecs.skip(i as int),
                ),
            decreases n - i,
        {
            let key_s = log_record_key_with_seq(&entries[i].0, s);
            let value = crate::log_record::copy_range(
                &entries[i].1.value,
                0,
                entries[i].1.value.len(),
            );
            let record = LogRecord { key: key_s, value, rec_type: entries[i].1.rec_type };
            proof {
                lemma_key_parse(s, entries@[i as int].0@);
                crate::varint::lemma_varint_len(s);
                assert(record@ == batch_rec(entries@[i as int], s));
                assert(allrecs.skip(i as int).first() == record@) by {
                    assert(allrecs[i as int] == batch_recs(entries@, s)[i as int]);
                }
                assert(allrecs.skip(i as int).drop_first() =~= allrecs.skip(i + 1));
            }
            let ghost mid = *self;
            match self.append_log_record(&record) {
                Err(e) => {
                    proof {
                        lemma_extend_trans(pre.files(), mid.files(), self.files());
                        assert(!mid.append_room(enc(record@).len() as int));
                        assert(!rooms(
                            mid.files().last().data().len() as int,
                            mid.files().last().id(),
                            dfs,
                            allrecs.skip(i as int),
                        ));
                        assert(cat_recs(self.files()) == cat0 + batch_recs(
                            #[trigger] entries@.take(i as int),
                            s,
                        ));
                    }
                    return Err(e);
                },
                Ok(p) => {
                    positions.push(p);
                    proof {
                        assert(entries@.take(i + 1) =~= entries@.take(i as int).push(
                            entries@[i as int],
                        ));
                        assert(batch_recs(entries@.take(i + 1), s) =~= batch_recs(
                            entries@.take(i as int),
                            s,
                        ).push(record@));
                        assert(cat_recs(self.files()) =~= cat0 + batch_recs(
                            entries@.take(i + 1),
                            s,
                        ));
                        lemma_extend_trans(pre.files(), mid.files(), self.files());
                        assert forall|t: int| 0 <= t < i + 1 implies rec_at_pos(
                            self.files(),
                            #[trigger] positions@[t],
                            batch_rec(entries@[t], s),
                        ) by {
                            if t < i {
                                assert(rec_at_pos(
                                    mid.files(),
                                    positions@[t],
                                    batch_rec(entries@[t], s),
                                ));
                            }
                        }
                        assert(Self::appended_one(mid, *self, record@));
                        assert(mid.append_room(enc(record@).len() as int));
                        assert(rooms(
                            mid.files().last().data().len() as int,
                            mid.files().last().id(),
                            dfs,
                            allrecs.skip(i as int),
                        ) == rooms(
                            self.files().last().data().len() as int,
                            self.files().last().id(),
                            dfs,
                            allrecs.skip(i + 1),
                        ));
                    }
                },
            }
            i = i + 1;
        }
        // the finish marker
        let mut marker: Vec<u8> = Vec::new();
        marker.push(108);
        marker.push(101);
        marker.push(103);
        marker.push(97);
        marker.push(99);
        marker.push(121);
        let fin_key = log_record_key_with_seq(&marker, s);
        let fin = LogRecord { key: fin_key, value: Vec::new(), rec_type: LogRecordType::TxnFinished };
        proof {
            assert(marker@ =~= txn_fin_key());
            lemma_key_parse(s, marker@);
            crate::varint::lemma_varint_len(s);
            assert(fin@ == fin_rec(s));
            assert(allrecs.skip(n as int).first() == fin_rec(s)) by {
                assert(allrecs[n as int] == fin_rec(s));
            }
            assert(allrecs.skip(n as int).drop_first() =~= allrecs.skip(n + 1));
            assert(allrecs.skip(n + 1) =~= Seq::<Rec>::empty());
        }
        let ghost mid = *self;
        match self.append_log_record(&fin) {
            Err(e) => {
                proof {
                    lemma_extend_trans(pre.files(), mid.files(), self.files());
                    assert(!mid.append_room(enc(fin@).len() as int));
                    assert(!rooms(
                        mid.files().last().data().len() as int,
                        mid.files().last().id(),
                        dfs,
                        allrecs.skip(n as int),
                    ));
                    assert(entries@.take(n as int) =~= entries@);
                    assert(cat_recs(self.files()) == cat0 + batch_recs(
                        #[trigger] entries@.take(n as int),
                        s,
                    ));
                }
                Err(e)
            },
            Ok(_) => {
                proof {
                    lemma_extend_trans(pre.files(), mid.files(), self.files());
                    assert(Self::appended_one(mid, *self, fin@));
                    assert(mid.append_room(enc(fin@).len() as int));
                    assert(rooms(
                        self.files().last().data().len() as int,
                        self.files().last().id(),
                        dfs,
                        allrecs.skip(n + 1),
                    ));
                    assert(entries@.take(n as int) =~= entries@);
                    assert(cat_recs(self.files()) =~= cat0 + batch_recs(entries@, s) + seq![
                        fin_rec(s),
                    ]);
                    assert forall|t: int| 0 <= t < n implies rec_at_pos(
                        self.files(),
                        (#[trigger] positions@[t]),
                        batch_rec(entries@[t], s),
                    ) by {
                        assert(rec_at_pos(mid.files(), positions@[t], batch_rec(entries@[t], s)));
                    }
                }
                Ok(positions)
            },
        }
    }

    /// Whether batches may be started: with the disk-backed index there
    /// must be a persisted sequence number unless the directory is fresh,
    /// else new batches could collide with historical ones.
    pub fn can_use_write_batch(&self) -> (r: bool)
        ensures
            r == !(self.opts().index_type == IndexType::BPlusTree && !self.seq_file_known()
                && !self.initial()),
    {
        !(self.options.index_type == IndexType::BPlusTree && !self.seq_file_exists
            && !self.is_initial)
    }

    /// Whether a persisted sequence number was found at open.
    pub closed spec fn seq_file_known(&self) -> bool {
        self.seq_file_exists
    }

    /// Whether this engine initialized its directory.
    pub closed spec fn initial(&self) -> bool {
        self.is_initial
    }

    /// Whether the store currently holds `key`.
    pub fn contains_key(&self, key: &Vec<u8>) -> (r: bool)
        requires
            self.wf(),
        ensures
            r == self.kv().contains_key(key@),
    {
        let p = self.index.get(key);
        p.is_some()
    }
}

impl Engine {
    /// A snapshot iterator over the index: the entries as they stand now,
    /// in the configured direction, with every entry pointing at a live
    /// record that carries the key's current value.
    pub(crate) fn snapshot_iter(&self, options: crate::options::IteratorOptions) -> (it:
        crate::btree::BTreeIterator)
        requires
            self.wf(),
        ensures
            it.inv(),
            it.pos() == 0,
            it.prefix() == options.prefix@,
            it.reversed() == options.reverse,
            forall|i: int|
                0 <= i < it.items().len() ==> self.kv().contains_key(
                    (#[trigger] it.items()[i]).0,
                ) && entry_ok(
                    self.files(),
                    it.items()[i].1,
                    it.items()[i].0,
                    self.kv()[it.items()[i].0],
                ),
            forall|k: Seq<u8>|
                #[trigger] self.kv().contains_key(k) ==> exists|i: int|
                    0 <= i < it.items().len() && (#[trigger] it.items()[i]).0 == k,
            if options.reverse {
                crate::btree::sorted_desc(it.items())
            } else {
                crate::index::sorted_entry_views(it.items())
            },
    {
        let it = match &self.index {
            IndexImpl::BTree(t) => t.iterator(options),
        };
        proof {
            assert forall|i: int| 0 <= i < it.items().len() implies self.kv().contains_key(
                (#[trigger] it.items()[i]).0,
            ) && entry_ok(
                self.files(),
                it.items()[i].1,
                it.items()[i].0,
                self.kv()[it.items()[i].0],
            ) by {
                assert(self.index.m().contains_key(it.items()[i].0) && self.index.m()[it.items()[
                    i].0] == it.items()[i].1);
            }
        }
        it
    }
}

impl Engine {
    /// Reads the value of the ordinary record for `k` known to sit at `p`.
    pub(crate) fn read_snapshot_value(&self, p: LogRecordPos, Ghost(k): Ghost<Seq<u8>>) -> (r:
        Vec<u8>)
        requires
            self.wf(),
            exists|sq: u64, v: Seq<u8>| #[trigger] rec_at_pos(self.files(), p, normal_rec(sq, k, v)),
        ensures
            forall|sq: u64, v: Seq<u8>|
                #[trigger] rec_at_pos(self.files(), p, normal_rec(sq, k, v)) ==> r@ == v,
    {
        let ghost (sqw, vw) = choose|sq: u64, v: Seq<u8>|
            #[trigger] rec_at_pos(self.files(), p, normal_rec(sq, k, v));
        proof {
            self.lemma_ids();
            assert(rec_at_pos(self.files(), p, normal_rec(sqw, k, vw)));
            assert(exists|rec: Rec| #[trigger] rec_at_pos(self.files(), p, rec)) by {
                assert(rec_at_pos(self.files(), p, normal_rec(sqw, k, vw)));
            }
        }
        let pos_arg: Option<LogRecordPos> = Some(p);
        proof {
            assert(pos_arg is Some && pos_arg->0 == p);
        }
        match self.get_value_by_position(pos_arg) {
            Ok(v) => {
                proof {
                    assert(v@ == vw);
                    assert forall|sq: u64, v2: Seq<u8>|
                        rec_at_pos(self.files(), p, #[trigger] normal_rec(sq, k, v2)) implies v@
                        == v2 by {
                        Self::lemma_rec_at_pos_unique(
                            self.files(),
                            p,
                            normal_rec(sq, k, v2),
                            normal_rec(sqw, k, vw),
                        );
                    }
                }
                v
            },
            Err(_) => {
                proof {
                    assert(false);
                }
                Vec::new()
            },
        }
    }
}

/// One rebuilt entry extends the rebuilt store by exactly its key.
proof fn lemma_merge_kv_step(
    prekv: Map<Seq<u8>, Seq<u8>>,
    newkv: Map<Seq<u8>, Seq<u8>>,
    selfkv: Map<Seq<u8>, Seq<u8>>,
    evs: Seq<(Seq<u8>, LogRecordPos)>,
    i: int,
    v: Seq<u8>,
)
    requires
        0 <= i < evs.len(),
        newkv == prekv.insert(evs[i].0, v),
        forall|k: Seq<u8>|
            prekv.contains_key(k) <==> exists|t: int| 0 <= t < i && (#[trigger] evs[t]).0 == k,
        forall|k: Seq<u8>| #[trigger] prekv.contains_key(k) ==> prekv[k] == selfkv[k],
        v == selfkv[evs[i].0],
    ensures
        forall|k: Seq<u8>|
            newkv.contains_key(k) <==> exists|t: int|
                0 <= t < i + 1 && (#[trigger] evs[t]).0 == k,
        forall|k: Seq<u8>| #[trigger] newkv.contains_key(k) ==> newkv[k] == selfkv[k],
{
    assert forall|k: Seq<u8>| newkv.contains_key(k) <==> exists|t: int|
        0 <= t < i + 1 && (#[trigger] evs[t]).0 == k by {
        if newkv.contains_key(k) {
            if k == evs[i].0 {
                assert(evs[i].0 == k);
            } else {
                let t0 = choose|t0: int| 0 <= t0 < i && (#[trigger] evs[t0]).0 == k;
                assert(evs[t0].0 == k);
            }
        }
        if exists|t: int| 0 <= t < i + 1 && (#[trigger] evs[t]).0 == k {
            let t0 = choose|t0: int| 0 <= t0 < i + 1 && (#[trigger] evs[t0]).0 == k;
            if t0 < i {
                assert(prekv.contains_key(k));
            }
        }
    }
}

/// The key of the single record in the merge-finished file.
pub open spec fn merge_fin_key() -> Seq<u8> {
    seq![109u8, 101u8, 114u8, 103u8, 101u8, 46u8, 102u8, 105u8, 110u8, 105u8, 115u8, 104u8, 101u8, 100u8]
}

impl Engine {
    /// Reads the current value of a live key through its index entry.
    #[verifier::spinoff_prover]
    #[verifier::rlimit(100)]
    fn merge_read(&self, p: LogRecordPos, Ghost(k): Ghost<Seq<u8>>) -> (value: Vec<u8>)
        requires
            self.wf(),
            self.kv().contains_key(k),
            entry_ok(self.files(), p, k, self.kv()[k]),
        ensures
            value@ == self.kv()[k],
    {
        proof {
            assert(exists|sq: u64, v: Seq<u8>|
                #[trigger] rec_at_pos(self.files(), p, normal_rec(sq, k, v)));
        }
        let value = self.read_snapshot_value(p, Ghost(k));
        proof {
            let sqw = choose|sq: u64|
                rec_at_pos(self.files(), p, #[trigger] normal_rec(sq, k, self.kv()[k]));
            assert(rec_at_pos(self.files(), p, normal_rec(sqw, k, self.kv()[k])));
            assert(value@ == self.kv()[k]);
        }
        value
    }

    /// Whether a merge is refused for want of reclaimable data: the
    /// share of reclaimable bytes is below the configured ratio (or the
    /// store is too large to take the ratio of).
    pub open spec fn merge_ratio_unreached(&self) -> bool {
        let total = total_data(self.files(), self.files().len() as int);
        ||| total > u128::MAX / 256
        ||| self.reclaimable() * 100 < clamp100(self.opts().data_file_merge_ratio as int) * total
    }

    /// The conditions under which a merge is owed success: enough to
    /// reclaim, an id left for the fresh active file, and a keyspace the
    /// rebuilt files can hold.
    pub open spec fn merge_viable(&self) -> bool {
        &&& !self.merge_ratio_unreached()
        &&& self.files().last().id() < u32::MAX
        &&& self.kv().dom().len() < u32::MAX
        &&& forall|k: Seq<u8>|
            #[trigger] self.kv().contains_key(k) ==> 1 <= k.len() && k.len() + self.kv()[k].len()
                + 64 <= u32::MAX
        &&& self.opts().data_file_size + 32 <= usize::MAX
    }

    /// The key map of a well-formed engine is finite.
    pub proof fn lemma_kv_dom_finite(self)
        requires
            self.wf(),
        ensures
            self.kv().dom().finite(),
            self.kv().dom().len() == self.index_map().dom().len(),
    {
        match self.index {
            IndexImpl::BTree(t) => {
                crate::btree::lemma_entries_card(t.es());
            },
        }
        assert(self.index_map().dom() =~= self.kv().dom());
    }

    /// Installs a rebuilt store: its files become the older files, a
    /// fresh file one id past the rebuilt active takes appends, its index
    /// replaces the live one, and the reclaimable count returns to zero.
    #[verifier::spinoff_prover]
    #[verifier::rlimit(100)]
    fn install_rebuilt(&mut self, merged: Engine) -> (boundary: u32)
        requires
            old(self).wf(),
            merged.wf(),
            merged.files().last().id() < u32::MAX,
            merged.rp().max_seq < old(self).seq(),
        ensures
            final(self).wf(),
            final(self).kv() == merged.kv(),
            final(self).index_map() == merged.index_map(),
            final(self).seq() == old(self).seq(),
            final(self).opts() == old(self).opts(),
            final(self).reclaimable() == 0,
            final(self).files().len() == merged.files().len() + 1,
            final(self).files().last().id() == merged.files().last().id() + 1,
            boundary == merged.files().last().id() + 1,
            files_extend(merged.files(), final(self).files()),
    {
        proof {
            assert(merged.files().last() == merged.active_file);
        }
        let boundary = merged.active_file.get_file_id() + 1;
        let ghost mfiles = merged.files();
        let ghost mkv = merged.kv();
        let ghost mrp = merged.rp();
        let mut older2 = merged.older_files;
        older2.push(merged.active_file);
        let new_active = DataFile::new(boundary);
        self.older_files = older2;
        self.active_file = new_active;
        self.index = merged.index;
        self.reclaim_size = 0;
        self.bytes_write = 0;
        proof {
            assert(self.files() =~= mfiles.push(new_active));
            assert(cat_recs(self.files()) == cat_recs(mfiles)) by {
                lemma_cat_recs_push(mfiles, new_active);
                assert(cat_recs(mfiles) + new_active.recs() =~= cat_recs(mfiles));
            }
            assert(self.rp() == mrp);
            assert(self.kv() == mkv);
            assert(files_extend(mfiles, self.files())) by {
                assert(forall|a: int|
                    0 <= a < mfiles.len() ==> (#[trigger] self.files()[a]).id() == mfiles[a].id()
                        && self.files()[a].data() == mfiles[a].data()
                        && self.files()[a].data().subrange(0, mfiles[a].data().len() as int)
                        =~= mfiles[a].data());
                lemma_extend_pointwise(mfiles, self.files());
            }
            assert(self.wf()) by {
                assert(self.wf_store()) by {
                    assert forall|a: int, b: int|
                        0 <= a < b < self.older_files@.len() implies (
                    #[trigger] self.older_files@[a]).id() < (#[trigger] self.older_files@[b]).id() by {
                        assert(self.older_files@[a] == mfiles[a]);
                        assert(self.older_files@[b] == mfiles[b]);
                        if b < mfiles.len() - 1 {
                            assert(mfiles[a] == merged.older_files@[a]);
                        }
                    }
                    assert forall|a: int|
                        0 <= a < self.older_files@.len() implies (
                    #[trigger] self.older_files@[a]).id() < self.active_file.id() by {
                        assert(self.older_files@[a] == mfiles[a]);
                    }
                    assert forall|a: int, b: int|
                        0 <= a < self.files().len() && 0 <= b < self.files()[a].recs().len()
                        implies key_parses((#[trigger] self.files()[a].recs()[b]).key) by {
                        if a < self.files().len() - 1 {
                            assert(self.files()[a] == mfiles[a]);
                            assert(key_parses(mfiles[a].recs()[b].key));
                        }
                    }
                }
                assert(self.wf_index()) by {
                    assert forall|k: Seq<u8>| #[trigger]
                        self.index.m().contains_key(k) implies entry_ok(
                        self.files(),
                        self.index.m()[k],
                        k,
                        self.rp().kv[k],
                    ) by {
                        assert(entry_ok(mfiles, self.index.m()[k], k, mrp.kv[k]));
                        lemma_entry_ok_extend(
                            mfiles,
                            self.files(),
                            self.index.m()[k],
                            k,
                            mrp.kv[k],
                        );
                    }
                }
                assert(self.rp().max_seq < self.seq_no);
            }
        }
        boundary
    }

    /// Rewrites the live data into a fresh file sequence, dropping every
    /// superseded or deleted record. The visible contents do not change;
    /// the reclaimable count returns to zero; the returned pair is the
    /// hint file (the live keys with their rebuilt positions, or empty if
    /// it could not be built) and the marker file recording where the
    /// un-merged files start.
    #[verifier::rlimit(100)]
    pub fn merge(&mut self) -> (r: Result<(Vec<u8>, Vec<u8>), Errors>)
        requires
            old(self).wf(),
        ensures
            final(self).wf(),
            final(self).opts() == old(self).opts(),
            final(self).seq() == old(self).seq(),
            final(self).kv() == old(self).kv(),
            match r {
                Ok(out) => {
                    &&& final(self).reclaimable() == 0
                    &&& final(self).files().len() <= old(self).kv().dom().len() + 2
                    &&& out.1@ == enc(
                        Rec {
                            key: merge_fin_key(),
                            value: crate::varint::decimal(
                                final(self).files().last().id() as u64,
                            ),
                            rec_type: LogRecordType::Normal,
                        },
                    )
                    &&& (out.0@ == Seq::<u8>::empty() || exists|hrecs: Seq<Rec>|
                        out.0@ == enc_list(hrecs) && #[trigger] hint_recs_ok(hrecs, *final(self)))
                },
                Err(e) => {
                    &&& (e == Errors::MergeRatioUnreached || e == Errors::FailedWriteToDataFile
                        || e == Errors::FailedOpenDataFile || e == Errors::DataDirectoryCorrupted)
                    &&& (e == Errors::MergeRatioUnreached <==> old(self).merge_ratio_unreached())
                    &&& *final(self) == *old(self)
                },
            },
            old(self).merge_viable() ==> r is Ok,
    {
        // is there enough to reclaim?
        let mut total: u128 = 0;
        let n_old = self.older_files.len();
        let ghost fs = self.files();
        let mut t: usize = 0;
        while t < n_old
            invariant
                t <= n_old == self.older_files@.len(),
                fs == self.files(),
                self.wf(),
                total == if total_data(fs, t as int) <= u128::MAX {
                    total_data(fs, t as int)
                } else {
                    u128::MAX as int
                },
            decreases n_old - t,
        {
            let sz = self.older_files[t].file_size() as u128;
            proof {
                assert(fs[t as int] == self.older_files@[t as int]);
            }
            total = if total > u128::MAX - sz {
                u128::MAX
            } else {
                total + sz
            };
            t = t + 1;
        }
        let sza = self.active_file.file_size() as u128;
        proof {
            assert(fs[n_old as int] == self.active_file);
        }
        total = if total > u128::MAX - sza {
            u128::MAX
        } else {
            total + sza
        };
        let ghost tdata = total_data(fs, fs.len() as int);
        if total > u128::MAX / 256 {
            proof {
                assert(tdata > u128::MAX / 256);
                assert(self.merge_ratio_unreached());
            }
            return Err(Errors::MergeRatioUnreached);
        }
        let ratio: u128 = if self.options.data_file_merge_ratio > 100 {
            100
        } else {
            self.options.data_file_merge_ratio as u128
        };
        proof {
            assert(ratio == clamp100(self.opts().data_file_merge_ratio as int));
            assert(ratio * total <= u128::MAX) by (nonlinear_arith)
                requires
                    ratio <= 100,
                    0 <= total <= u128::MAX / 256,
            {
            }
        }
        if (self.reclaim_size as u128) * 100 < ratio * total {
            proof {
                assert(self.merge_ratio_unreached());
            }
            return Err(Errors::MergeRatioUnreached);
        }
        proof {
            assert(!self.merge_ratio_unreached());
        }
        if self.active_file.get_file_id() == u32::MAX {
            proof {
                assert(self.files().last() == self.active_file);
                assert(!self.merge_viable());
            }
            return Err(Errors::FailedOpenDataFile);
        }
        // rebuild the live entries into a fresh store
        let es = self.index.entries();
        let merged_opts = Options {
            dir_path: self.options.dir_path.clone(),
            data_file_size: self.options.data_file_size,
            sync_writes: false,
            index_type: IndexType::BTree,
            bytes_per_sync: 0,
            mmap_at_startup: false,
            data_file_merge_ratio: self.options.data_file_merge_ratio,
        };
        let mut merged = Engine {
            options: merged_opts,
            active_file: DataFile::new(0),
            older_files: Vec::new(),
            index: new_indexer(IndexType::BTree),
            seq_no: 1,
            bytes_write: 0,
            reclaim_size: 0,
            seq_file_exists: false,
            is_initial: false,
        };
        proof {
            assert(merged.files() =~= seq![merged.active_file]);
            lemma_cat_recs_push(Seq::<DataFile>::empty(), merged.active_file);
            assert(cat_recs(Seq::<DataFile>::empty()) + merged.active_file.recs()
                =~= Seq::<Rec>::empty());
            assert(merged.rp() == init_state());
            assert(merged.wf()) by {
                assert forall|key: Seq<u8>| !(#[trigger] merged.index.m().contains_key(key)) by {
                    if merged.index.m().contains_key(key) {
                        assert(init_state().kv.contains_key(key));
                    }
                }
            }
            self.lemma_kv_dom_finite();
            assert(self.index_map().dom() =~= self.kv().dom());
        }
        let evs = Ghost(crate::index::entry_views(es@));
        let n = es.len();
        let mut i: usize = 0;
        while i < n
            invariant
                i <= n == es@.len(),
                *self == *old(self),
                self.wf(),
                !old(self).merge_ratio_unreached(),
                evs@ == crate::index::entry_views(es@),
                crate::index::sorted_entry_views(evs@),
                crate::index::seq_entries_match(evs@, self.index_map()),
                forall|k: Seq<u8>|
                    self.index_map().contains_key(k) <==> #[trigger] self.kv().contains_key(k),
                n == self.index_map().dom().len(),
                self.index_map().dom().len() == self.kv().dom().len(),
                merged.wf(),
                merged.seq() == 1,
                merged.opts().data_file_size == self.opts().data_file_size,
                merged.files().last().id() <= i,
                merged.files().len() <= i + 1,
                forall|k: Seq<u8>|
                    #[trigger] merged.kv().contains_key(k) <==> exists|t: int|
                        0 <= t < i && (#[trigger] evs@[t]).0 == k,
                forall|k: Seq<u8>|
                    #[trigger] merged.kv().contains_key(k) ==> merged.kv()[k] == self.kv()[k],
            decreases n - i,
        {
            let key = crate::log_record::copy_range(&es[i].0, 0, es[i].0.len());
            let ghost k = evs@[i as int].0;
            proof {
                assert(key@ == k);
                assert(self.index_map().contains_key(k) && self.index_map()[k] == evs@[i as int].1);
                assert(entry_ok(self.files(), es@[i as int].1, k, self.rp().kv[k]));
            }
            let value = self.merge_read(es[i].1, Ghost(k));
            if key.len() == 0 {
                proof {
                    assert(self.kv().contains_key(k));
                    assert(!self.merge_viable());
                }
                return Err(Errors::DataDirectoryCorrupted);
            }
            if (key.len() as u64) + (value.len() as u64) + 24 > u32::MAX as u64 {
                proof {
                    assert(self.kv().contains_key(k));
                    assert(!self.merge_viable());
                }
                return Err(Errors::FailedWriteToDataFile);
            }
            let ghost pre_merged = merged;
            match merged.put(key, value) {
                Ok(_) => {},
                Err(e) => {
                    proof {
                        assert(e != Errors::KeyIsEmpty);
                        assert(!old(self).merge_viable()) by {
                            if old(self).merge_viable() {
                                assert(self.kv().contains_key(k));
                                assert(k.len() + self.kv()[k].len() + 64 <= u32::MAX);
                                lemma_enc_len(normal_rec(0, k, value@));
                                crate::varint::lemma_varint_len(0);
                                lemma_key_parse(0, k);
                                assert(pre_merged.files().last().id() < u32::MAX);
                                assert(pre_merged.append_room(
                                    enc(normal_rec(0, k, value@)).len() as int,
                                ));
                            }
                        }
                    }
                    return Err(e);
                },
            }
            proof {
                assert(merged.kv() == pre_merged.kv().insert(k, self.kv()[k]));
                assert(Self::appended_one(pre_merged, merged, normal_rec(0, k, value@)));
                lemma_merge_kv_step(
                    pre_merged.kv(),
                    merged.kv(),
                    self.kv(),
                    evs@,
                    i as int,
                    self.kv()[k],
                );
            }
            i = i + 1;
        }
        // the compact index snapshot that shortcuts a later recovery:
        // every live key with its position in the rebuilt files. It is an
        // optimization: if it cannot be built whole, none of it is kept.
        let mut hint_file = DataFile::new_hint_file();
        let mut hint_ok = true;
        let hes = merged.index.entries();
        let ghost hevs = crate::index::entry_views(hes@);
        let hn = hes.len();
        let mut h: usize = 0;
        while h < hn
            invariant
                h <= hn == hes@.len(),
                *self == *old(self),
                self.wf(),
                !old(self).merge_ratio_unreached(),
                merged.wf(),
                hevs == crate::index::entry_views(hes@),
                crate::index::seq_entries_match(hevs, merged.index_map()),
                hint_file.wf(),
                hint_file.tracks(),
                hint_ok ==> hint_file.recs().len() == h && forall|t: int|
                    0 <= t < h ==> #[trigger] hint_file.recs()[t] == (Rec {
                        key: hevs[t].0,
                        value: crate::log_record::enc_pos(hevs[t].1),
                        rec_type: LogRecordType::Normal,
                    }),
                !hint_ok ==> hint_file.recs() == Seq::<Rec>::empty() && hint_file.data()
                    == Seq::<u8>::empty(),
            decreases hn - h,
        {
            if hint_ok {
                let key2 = crate::log_record::copy_range(&hes[h].0, 0, hes[h].0.len());
                proof {
                    assert(key2@ == hevs[h as int].0);
                }
                if key2.len() >= 1 && key2.len() <= (u32::MAX - 50) as usize {
                    match hint_file.write_hint_record(key2, hes[h].1) {
                        Ok(_) => {},
                        Err(_) => {
                            hint_file = DataFile::new_hint_file();
                            hint_ok = false;
                        },
                    }
                } else {
                    hint_file = DataFile::new_hint_file();
                    hint_ok = false;
                }
            }
            h = h + 1;
        }
        // install the rebuilt store under a fresh active file
        if merged.active_file.get_file_id() == u32::MAX {
            proof {
                assert(merged.files().last() == merged.active_file);
                assert(!old(self).merge_viable()) by {
                    if old(self).merge_viable() {
                        assert(merged.files().last().id() <= n);
                    }
                }
            }
            return Err(Errors::FailedOpenDataFile);
        }
        let ghost mfiles = merged.files();
        let ghost mkv = merged.kv();
        let ghost mrp = merged.rp();
        let ghost mindex = merged.index;
        proof {
            assert(merged.rp().max_seq < self.seq_no) by {
                assert(mrp.max_seq < merged.seq_no);
            }
        }
        let boundary = self.install_rebuilt(merged);
        proof {
            assert(self.kv() =~= old(self).kv()) by {
                assert forall|k: Seq<u8>| #[trigger]
                    old(self).kv().contains_key(k) implies mkv.contains_key(k) by {
                    assert(old(self).index_map().contains_key(k));
                    let t0 = choose|t0: int| 0 <= t0 < evs@.len() && (#[trigger] evs@[t0]).0 == k;
                    assert(evs@[t0].0 == k);
                }
            }
            assert(self.files().len() <= old(self).kv().dom().len() + 2);
            // the hint records name live keys of the installed store
            if hint_ok {
                assert(hint_recs_ok(hint_file.recs(), *self)) by {
                    assert forall|t: int| 0 <= t < hint_file.recs().len() implies (
                    #[trigger] hint_file.recs()[t]).rec_type == LogRecordType::Normal
                        && self.kv().contains_key(hint_file.recs()[t].key) && (exists|
                        p: LogRecordPos,
                    |
                        hint_file.recs()[t].value == crate::log_record::enc_pos(p) && #[trigger]
                        entry_ok(
                            self.files(),
                            p,
                            hint_file.recs()[t].key,
                            self.kv()[hint_file.recs()[t].key],
                        )) by {
                        let kk = hevs[t].0;
                        let pp = hevs[t].1;
                        assert(mindex.m().contains_key(kk) && mindex.m()[kk] == pp);
                        assert(mkv.contains_key(kk));
                        assert(entry_ok(mfiles, pp, kk, mrp.kv[kk]));
                        lemma_entry_ok_extend(mfiles, self.files(), pp, kk, mrp.kv[kk]);
                        assert(hint_file.recs()[t].value == crate::log_record::enc_pos(pp));
                    }
                    assert forall|k: Seq<u8>| #[trigger] self.kv().contains_key(k) implies exists|
                        t: int,
                    |
                        0 <= t < hint_file.recs().len() && (#[trigger] hint_file.recs()[t]).key
                            == k by {
                        assert(mindex.m().contains_key(k));
                        let t0 = choose|t0: int|
                            0 <= t0 < hevs.len() && (#[trigger] hevs[t0]).0 == k;
                        assert(hint_file.recs()[t0].key == k);
                    }
                }
            }
        }
        // the marker that records where the un-merged files start
        let mut mk: Vec<u8> = Vec::new();
        mk.push(109);
        mk.push(101);
        mk.push(114);
        mk.push(103);
        mk.push(101);
        mk.push(46);
        mk.push(102);
        mk.push(105);
        mk.push(110);
        mk.push(105);
        mk.push(115);
        mk.push(104);
        mk.push(101);
        mk.push(100);
        let fin_value = crate::varint::write_decimal(boundary as u64);
        proof {
            assert(mk@ =~= merge_fin_key());
            crate::varint::lemma_decimal_len_max(boundary as u64);
            assert(self.files().last().id() == boundary);
        }
        let marker_rec = LogRecord { key: mk, value: fin_value, rec_type: LogRecordType::Normal };
        let marker_bytes = marker_rec.encode();
        let hint_bytes = hint_file.into_bytes();
        proof {
            if hint_ok {
                assert(hint_bytes@ == enc_list(hint_file.recs()));
            } else {
                assert(hint_bytes@ == Seq::<u8>::empty());
            }
        }
        Ok((hint_bytes, marker_bytes))
    }
}

impl Engine {
    /// A value stored by a committed put is what a subsequent lookup on
    /// the same instance returns: the committed map holds exactly it.
    pub proof fn lemma_put_then_get(e1: Engine, e2: Engine, k: Seq<u8>, v: Seq<u8>)
        requires
            e2.kv() == e1.kv().insert(k, v),
        ensures
            e2.kv().contains_key(k),
            e2.kv()[k] == v,
    {
    }

    /// A committed delete removes the key: a subsequent lookup on the
    /// same instance finds nothing.
    pub proof fn lemma_delete_then_get(e1: Engine, e2: Engine, k: Seq<u8>)
        requires
            e2.kv() == e1.kv().remove(k),
        ensures
            !e2.kv().contains_key(k),
    {
    }

    /// After a clean close, the files of a well-formed engine replay to
    /// exactly its committed contents: reopening over the same bytes
    /// serves the keys last put and not since deleted.
    pub proof fn lemma_reopen(e: Engine)
        requires
            e.wf(),
        ensures
            forall|rss: Seq<Seq<Rec>>|
                #[trigger] files_match_all(e.files(), rss) ==> replay(
                    init_state(),
                    cat_all(rss),
                ).kv == e.kv() && replay(init_state(), cat_all(rss)).max_seq < e.seq(),
            exists|rss: Seq<Seq<Rec>>| #[trigger] files_match_all(e.files(), rss),
    {
        let fs = e.files();
        let own = Seq::new(fs.len(), |i: int| fs[i].recs());
        assert(files_match_all(fs, own)) by {
            assert forall|i: int| 0 <= i < fs.len() implies crate::data_file::file_matches(
                (#[trigger] fs[i]).data(),
                own[i],
            ) by {
                if i < fs.len() - 1 {
                    assert(fs[i] == e.older_files@[i]);
                } else {
                    assert(fs[i] == e.active_file);
                }
                assert(fs[i].tracks());
                assert(fs[i].data().subrange(0, enc_list(fs[i].recs()).len() as int) =~= fs[
                    i].data());
                assert forall|j: int| 0 <= j < own[i].len() implies rec_fits(
                    #[trigger] own[i][j],
                ) && key_parses(own[i][j].key) by {
                    assert(own[i][j] == fs[i].recs()[j]);
                    assert(key_parses(fs[i].recs()[j].key));
                }
            }
        }
        assert forall|rss: Seq<Seq<Rec>>| #[trigger] files_match_all(e.files(), rss) implies
            replay(init_state(), cat_all(rss)).kv == e.kv() && replay(
            init_state(),
            cat_all(rss),
        ).max_seq < e.seq() by {
            assert forall|i: int| 0 <= i < fs.len() implies #[trigger] rss[i]
                == fs[i].recs() by {
                crate::data_file::lemma_file_matches_unique(fs[i].data(), rss[i], own[i]);
            }
            lemma_cat_all_eq(rss, fs);
        }
    }

    /// The key count a stat reports is the length of the key listing:
    /// both are the number of keys the store holds.
    pub proof fn lemma_stat_counts_keys(e: Engine, st: Stat, keys: Seq<Vec<u8>>)
        requires
            st.key_num == e.kv().dom().len(),
            keys.len() == e.kv().dom().len(),
        ensures
            st.key_num == keys.len(),
    {
    }
}

/// An iterator's snapshot yields exactly the keys of the store that carry
/// the configured prefix, in the order the snapshot is sorted in: a key
/// appears among the matching entries if and only if the store holds it
/// and it starts with the prefix.
pub proof fn lemma_iterator_prefix_keys(
    items: Seq<(Seq<u8>, LogRecordPos)>,
    kv: Map<Seq<u8>, Seq<u8>>,
    prefix: Seq<u8>,
)
    requires
        forall|i: int| 0 <= i < items.len() ==> kv.contains_key((#[trigger] items[i]).0),
        forall|k: Seq<u8>|
            #[trigger] kv.contains_key(k) ==> exists|i: int|
                0 <= i < items.len() && (#[trigger] items[i]).0 == k,
    ensures
        forall|k: Seq<u8>|
            (exists|i: int|
                0 <= i < items.len() && (#[trigger] items[i]).0 == k && prefix.is_prefix_of(k))
                <==> (#[trigger] kv.contains_key(k) && prefix.is_prefix_of(k)),
{
    assert forall|k: Seq<u8>|
        (exists|i: int|
            0 <= i < items.len() && (#[trigger] items[i]).0 == k && prefix.is_prefix_of(k))
            <==> (#[trigger] kv.contains_key(k) && prefix.is_prefix_of(k)) by {
        if exists|i: int|
            0 <= i < items.len() && (#[trigger] items[i]).0 == k && prefix.is_prefix_of(k) {
            let i = choose|i: int|
                0 <= i < items.len() && (#[trigger] items[i]).0 == k && prefix.is_prefix_of(k);
            assert(kv.contains_key(items[i].0));
        }
        if kv.contains_key(k) && prefix.is_prefix_of(k) {
            let i = choose|i: int| 0 <= i < items.len() && (#[trigger] items[i]).0 == k;
            assert(items[i].0 == k && prefix.is_prefix_of(k));
        }
    }
}

impl Engine {
    /// Copies of every data file's id and bytes, oldest first: what a
    /// caller that mirrors the store to disk writes out.
    pub fn file_images(&self) -> (r: Vec<(u32, Vec<u8>)>)
        requires
            self.wf(),
        ensures
            r@.len() == self.files().len(),
            forall|i: int|
                0 <= i < r@.len() ==> (#[trigger] r@[i]).0 == self.files()[i].id() && r@[i].1@
                    == self.files()[i].data() && r@[i].1@.len() + 32 <= usize::MAX,
            forall|i: int, j: int|
                0 <= i < j < r@.len() ==> (#[trigger] r@[i]).0 < (#[trigger] r@[j]).0,
    {
        let mut out: Vec<(u32, Vec<u8>)> = Vec::new();
        let n = self.older_files.len();
        let mut i: usize = 0;
        while i < n
            invariant
                i <= n == self.older_files@.len(),
                out@.len() == i,
                forall|t: int|
                    0 <= t < i ==> (#[trigger] out@[t]).0 == self.older_files@[t].id() && out@[
                    t].1@ == self.older_files@[t].data(),
            decreases n - i,
        {
            let f = &self.older_files[i];
            let bytes = crate::log_record::copy_range(f.bytes(), 0, f.bytes().len());
            out.push((f.get_file_id(), bytes));
            i = i + 1;
        }
        let bytes = crate::log_record::copy_range(
            self.active_file.bytes(),
            0,
            self.active_file.bytes().len(),
        );
        out.push((self.active_file.get_file_id(), bytes));
        proof {
            assert forall|t: int| 0 <= t < out@.len() implies (#[trigger] out@[t]).0
                == self.files()[t].id() && out@[t].1@ == self.files()[t].data() && out@[t].1@.len()
                + 32 <= usize::MAX by {
                if t < out@.len() - 1 {
                    assert(self.files()[t] == self.older_files@[t]);
                    self.older_files@[t].lemma_wf_len();
                } else {
                    assert(self.files()[t] == self.active_file);
                    self.active_file.lemma_wf_len();
                }
            }
            assert forall|a: int, b: int| 0 <= a < b < out@.len() implies (#[trigger] out@[a]).0
                < (#[trigger] out@[b]).0 by {
                if a < out@.len() - 1 {
                    assert(self.files()[a] == self.older_files@[a]);
                }
                if b < out@.len() - 1 {
                    assert(self.files()[b] == self.older_files@[b]);
                } else {
                    assert(self.files()[b] == self.active_file);
                }
            }
        }
        out
    }
}

/// The reserved user key a finish marker carries.
pub open spec fn txn_fin_key() -> Seq<u8> {
    seq![108u8, 101u8, 103u8, 97u8, 99u8, 121u8]
}

/// The key of the single record in the sequence-number file.
pub open spec fn seq_no_file_key() -> Seq<u8> {
    seq![115u8, 101u8, 113u8, 46u8, 110u8, 111u8]
}

/// Adds without wrapping: the counters saturate at their top.
fn sat_add_usize(a: usize, b: usize) -> (r: usize)
    ensures
        r == if a + b <= usize::MAX {
            (a + b) as int
        } else {
            usize::MAX as int
        },
{
    if a > usize::MAX - b {
        usize::MAX
    } else {
        a + b
    }
}

/// Validates the configuration.
pub fn check_options(opts: &Options) -> (r: Result<(), Errors>)
    ensures
        match r {
            Ok(_) => opts.dir_path@.len() > 0 && opts.data_file_size > 0
                && opts.data_file_merge_ratio <= 100,
            Err(e) => {
                &&& (e == Errors::DirPathIsEmpty <==> opts.dir_path@.len() == 0)
                &&& (e == Errors::DataFileSizeTooSmall <==> (opts.dir_path@.len() > 0
                    && opts.data_file_size == 0))
                &&& (e == Errors::InvalidMergeRatio <==> (opts.dir_path@.len() > 0
                    && opts.data_file_size > 0 && opts.data_file_merge_ratio > 100))
            },
        },
        r is Ok <==> (opts.dir_path@.len() > 0 && opts.data_file_size > 0
            && opts.data_file_merge_ratio <= 100),
{
    if opts.dir_path.as_str().is_empty() {
        return Err(Errors::DirPathIsEmpty);
    }
    if opts.data_file_size == 0 {
        return Err(Errors::DataFileSizeTooSmall);
    }
    if opts.data_file_merge_ratio > 100 {
        return Err(Errors::InvalidMergeRatio);
    }
    Ok(())
}

} // verus!
