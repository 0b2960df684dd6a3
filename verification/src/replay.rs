//! The replay model: what a sequence of log records means.
//!
//! Every record's key carries a sequence-number prefix. Records with
//! sequence number zero take effect at once; records of a batch are staged
//! under their number and take effect when the batch's TxnFinished marker
//! is reached; staged records of a batch that never finished are dropped.
//! Recovery, the write path and the batch commit are all verified against
//! this one model.
use crate::error::Errors;
use crate::log_record::{LogRecordType, Rec};
use crate::varint::{lemma_varint_len, lemma_varint_prefix_free, read_varint, varint};
use vstd::prelude::*;

verus! {

/// A user key with its sequence-number prefix, as stored on disk.
pub open spec fn key_with_seq(seq_no: u64, user: Seq<u8>) -> Seq<u8> {
    varint(seq_no) + user
}

/// The stored key decomposes into a prefix and a user key.
pub open spec fn key_parses(k: Seq<u8>) -> bool {
    exists|sq: u64, user: Seq<u8>| k == #[trigger] key_with_seq(sq, user)
}

/// The sequence number a stored key carries.
pub open spec fn key_seq_no(k: Seq<u8>) -> u64 {
    (choose|sq: u64, user: Seq<u8>| k == #[trigger] key_with_seq(sq, user)).0
}

/// The user key behind the prefix.
pub open spec fn user_key(k: Seq<u8>) -> Seq<u8> {
    (choose|sq: u64, user: Seq<u8>| k == #[trigger] key_with_seq(sq, user)).1
}

/// The decomposition of a stored key is unique: the prefix is a prefix
/// code, so whoever built the key determines what it parses to.
pub proof fn lemma_key_parse(sq: u64, user: Seq<u8>)
    ensures
        key_parses(key_with_seq(sq, user)),
        key_seq_no(key_with_seq(sq, user)) == sq,
        user_key(key_with_seq(sq, user)) == user,
{
    let k = key_with_seq(sq, user);
    assert(key_parses(k));
    let (sq2, user2) = choose|sq2: u64, user2: Seq<u8>| k == #[trigger] key_with_seq(sq2, user2);
    lemma_varint_prefix_free(sq2, sq, user2, user);
}

/// A key that parses is the composition of what it parses to.
pub proof fn lemma_key_recompose(k: Seq<u8>)
    requires
        key_parses(k),
    ensures
        k == key_with_seq(key_seq_no(k), user_key(k)),
{
    let (sq, user) = choose|sq: u64, user: Seq<u8>| k == #[trigger] key_with_seq(sq, user);
    lemma_key_parse(sq, user);
}

/// Builds the stored form of a user key.
pub fn log_record_key_with_seq(key: &Vec<u8>, seq_no: u64) -> (r: Vec<u8>)
    ensures
        r@ == key_with_seq(seq_no, key@),
{
    let mut out: Vec<u8> = Vec::new();
    crate::varint::write_varint(&mut out, seq_no);
    crate::log_record::extend_bytes(&mut out, key);
    out
}

/// Splits a stored key into its user key and sequence number. Fails only
/// on bytes that no stored key produces.
pub fn parse_log_record_key(key: &Vec<u8>) -> (r: Result<(Vec<u8>, u64), Errors>)
    ensures
        match r {
            Ok(p) => key_parses(key@) && p.1 == key_seq_no(key@) && p.0@ == user_key(key@),
            Err(e) => e == Errors::DataDirectoryCorrupted && !key_parses(key@),
        },
{
    match read_varint(key.as_slice(), 0) {
        None => {
            proof {
                assert forall|sq: u64, user: Seq<u8>|
                    key@ != #[trigger] key_with_seq(sq, user) by {
                    if key@ == key_with_seq(sq, user) {
                        assert(crate::varint::matches_at(key@, 0, varint(sq))) by {
                            assert(forall|i: int|
                                0 <= i < varint(sq).len() ==> varint(sq)[i] == #[trigger] key@[i]);
                        }
                    }
                }
            }
            Err(Errors::DataDirectoryCorrupted)
        },
        Some((sq, l)) => {
            if l > key.len() {
                proof {
                    lemma_varint_len(sq);
                    assert forall|sq2: u64, user: Seq<u8>|
                        key@ != #[trigger] key_with_seq(sq2, user) by {
                        if key@ == key_with_seq(sq2, user) {
                            assert(crate::varint::matches_at(key@, 0, varint(sq2))) by {
                                assert(forall|i: int|
                                    0 <= i < varint(sq2).len() ==> varint(sq2)[i]
                                        == #[trigger] key@[i]);
                            }
                        }
                    }
                }
                return Err(Errors::DataDirectoryCorrupted);
            }
            let user = crate::log_record::copy_range(key, l, key.len() - l);
            proof {
                assert(key@ =~= key_with_seq(sq, user@)) by {
                    assert(forall|i: int|
                        0 <= i < varint(sq).len() ==> varint(sq)[i] == #[trigger] key@[i]);
                }
                lemma_key_parse(sq, user@);
            }
            Ok((user, sq))
        },
    }
}

/// One staged operation of a batch: its type, user key and value.
pub ghost struct StagedOp {
    pub rec_type: LogRecordType,
    pub key: Seq<u8>,
    pub value: Seq<u8>,
}

/// The state a replay of the log reaches: the visible key-value map, the
/// staged-but-unfinished batches, and the largest sequence number seen.
#[verifier::ext_equal]
pub ghost struct ReplayState {
    pub kv: Map<Seq<u8>, Seq<u8>>,
    pub pending: Map<u64, Seq<StagedOp>>,
    pub max_seq: u64,
}

pub open spec fn init_state() -> ReplayState {
    ReplayState { kv: Map::empty(), pending: Map::empty(), max_seq: 0 }
}

/// What one committed operation does to the visible map.
pub open spec fn apply_op(kv: Map<Seq<u8>, Seq<u8>>, op: StagedOp) -> Map<Seq<u8>, Seq<u8>> {
    match op.rec_type {
        LogRecordType::Normal => kv.insert(op.key, op.value),
        LogRecordType::Deleted => kv.remove(op.key),
        LogRecordType::TxnFinished => kv,
    }
}

/// A finished batch's staged operations, applied in order.
pub open spec fn apply_ops(kv: Map<Seq<u8>, Seq<u8>>, ops: Seq<StagedOp>) -> Map<Seq<u8>, Seq<u8>>
    decreases ops.len(),
{
    if ops.len() == 0 {
        kv
    } else {
        apply_op(apply_ops(kv, ops.drop_last()), ops.last())
    }
}

/// The staged operations a replay holds for `sq`.
pub open spec fn staged(st: ReplayState, sq: u64) -> Seq<StagedOp> {
    if st.pending.contains_key(sq) {
        st.pending[sq]
    } else {
        Seq::empty()
    }
}

/// What one record does to the replay state.
pub open spec fn step(st: ReplayState, r: Rec) -> ReplayState {
    if !key_parses(r.key) {
        st
    } else {
        let sq = key_seq_no(r.key);
        let uk = user_key(r.key);
        let max2 = if sq > st.max_seq {
            sq
        } else {
            st.max_seq
        };
        if sq == 0 {
            ReplayState {
                kv: apply_op(st.kv, StagedOp { rec_type: r.rec_type, key: uk, value: r.value }),
                pending: st.pending,
                max_seq: max2,
            }
        } else if r.rec_type == LogRecordType::TxnFinished {
            ReplayState {
                kv: apply_ops(st.kv, staged(st, sq)),
                pending: st.pending.remove(sq),
                max_seq: max2,
            }
        } else {
            ReplayState {
                kv: st.kv,
                pending: st.pending.insert(
                    sq,
                    staged(st, sq).push(
                        StagedOp { rec_type: r.rec_type, key: uk, value: r.value },
                    ),
                ),
                max_seq: max2,
            }
        }
    }
}

/// The state a record sequence reaches from `st0`.
pub open spec fn replay(st0: ReplayState, rs: Seq<Rec>) -> ReplayState
    decreases rs.len(),
{
    if rs.len() == 0 {
        st0
    } else {
        step(replay(st0, rs.drop_last()), rs.last())
    }
}

pub proof fn lemma_replay_push(st0: ReplayState, rs: Seq<Rec>, r: Rec)
    ensures
        replay(st0, rs.push(r)) == step(replay(st0, rs), r),
{
    assert(rs.push(r).drop_last() =~= rs);
    assert(rs.push(r).last() == r);
}

/// Every staged batch number is at most the largest number seen.
pub proof fn lemma_pending_bounded(st0: ReplayState, rs: Seq<Rec>)
    requires
        forall|sq: u64| st0.pending.contains_key(sq) ==> sq <= st0.max_seq,
    ensures
        forall|sq: u64| replay(st0, rs).pending.contains_key(sq) ==> sq <= replay(
            st0,
            rs,
        ).max_seq,
        st0.max_seq <= replay(st0, rs).max_seq,
    decreases rs.len(),
{
    if rs.len() > 0 {
        lemma_pending_bounded(st0, rs.drop_last());
    }
}

/// Replaying a concatenation is replaying one part after the other.
pub proof fn lemma_replay_app(st: ReplayState, a: Seq<Rec>, b: Seq<Rec>)
    ensures
        replay(st, a + b) == replay(replay(st, a), b),
    decreases b.len(),
{
    if b.len() == 0 {
        assert(a + b =~= a);
    } else {
        lemma_replay_app(st, a, b.drop_last());
        assert(a + b =~= (a + b.drop_last()).push(b.last()));
        lemma_replay_push(st, a + b.drop_last(), b.last());
    }
}

/// The staged operations a run of batch records stands for.
pub open spec fn recs_ops(recs: Seq<Rec>) -> Seq<StagedOp> {
    recs.map_values(
        |r: Rec| StagedOp { rec_type: r.rec_type, key: user_key(r.key), value: r.value },
    )
}

/// Replaying a run of records that all belong to batch `s` and carry no
/// finish marker stages them under `s` and leaves the visible map alone.
pub proof fn lemma_stage_run(st: ReplayState, recs: Seq<Rec>, s: u64)
    requires
        s >= 1,
        forall|i: int|
            0 <= i < recs.len() ==> key_parses((#[trigger] recs[i]).key) && key_seq_no(
                recs[i].key,
            ) == s && recs[i].rec_type != LogRecordType::TxnFinished,
    ensures
        replay(st, recs).kv == st.kv,
        replay(st, recs).max_seq == if recs.len() > 0 && s > st.max_seq {
            s
        } else {
            st.max_seq
        },
        replay(st, recs).pending == if recs.len() == 0 {
            st.pending
        } else {
            st.pending.insert(s, staged(st, s) + recs_ops(recs))
        },
    decreases recs.len(),
{
    if recs.len() > 0 {
        let dl = recs.drop_last();
        lemma_stage_run(st, dl, s);
        lemma_replay_push(st, dl, recs.last());
        let stm = replay(st, dl);
        let r = recs.last();
        let op = StagedOp { rec_type: r.rec_type, key: user_key(r.key), value: r.value };
        if dl.len() == 0 {
            assert(recs_ops(recs) =~= seq![op]);
            assert(staged(st, s) + recs_ops(recs) =~= staged(st, s).push(op));
            assert(staged(stm, s) == staged(st, s));
        } else {
            assert(staged(stm, s) == staged(st, s) + recs_ops(dl));
            assert(recs_ops(recs) =~= recs_ops(dl).push(op)) by {
                assert(forall|i: int|
                    0 <= i < dl.len() ==> #[trigger] recs_ops(recs)[i] == recs_ops(dl)[i]);
            }
            assert(staged(st, s) + recs_ops(recs) =~= (staged(st, s) + recs_ops(dl)).push(op));
            assert(replay(st, recs).pending =~= st.pending.insert(
                s,
                staged(st, s) + recs_ops(recs),
            ));
        }
    }
}

/// Records staged for batches that never finish do not change the visible
/// map: replaying a torn tail is replaying nothing.
pub proof fn lemma_torn_tail(st0: ReplayState, rs: Seq<Rec>, tail: Seq<Rec>)
    requires
        forall|i: int|
            0 <= i < tail.len() ==> key_parses((#[trigger] tail[i]).key) && key_seq_no(tail[i].key)
                != 0 && tail[i].rec_type != LogRecordType::TxnFinished,
    ensures
        replay(st0, rs + tail).kv == replay(st0, rs).kv,
    decreases tail.len(),
{
    if tail.len() == 0 {
        assert(rs + tail =~= rs);
    } else {
        lemma_torn_tail(st0, rs, tail.drop_last());
        assert(rs + tail =~= (rs + tail.drop_last()).push(tail.last()));
        lemma_replay_push(st0, rs + tail.drop_last(), tail.last());
    }
}

} // verus!
