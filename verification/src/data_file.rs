//! A data file: one numbered append-only segment, held as an in-memory
//! image of its bytes. The ghost record list says which records the bytes
//! encode; the engine keeps the two in step and a caller that loads bytes
//! from elsewhere gets a file whose record list the recovery scan rebuilds.
use crate::error::Errors;
use crate::log_record::{
    enc, enc_at, decode_log_record, lemma_enc_len, rec_fits, LogRecord, LogRecordPos,
    LogRecordType, Rec, ReadLogRecord,
};
use vstd::prelude::*;

verus! {

/// The concatenated encodings of a record sequence.
pub open spec fn enc_list(rs: Seq<Rec>) -> Seq<u8>
    decreases rs.len(),
{
    if rs.len() == 0 {
        Seq::empty()
    } else {
        enc_list(rs.drop_last()) + enc(rs.last())
    }
}

pub proof fn lemma_enc_list_push(rs: Seq<Rec>, r: Rec)
    ensures
        enc_list(rs.push(r)) == enc_list(rs) + enc(r),
{
    assert(rs.push(r).drop_last() =~= rs);
    assert(rs.push(r).last() == r);
}

pub proof fn lemma_enc_list_split(rs: Seq<Rec>, k: int)
    requires
        0 <= k <= rs.len(),
    ensures
        enc_list(rs) == enc_list(rs.take(k)) + enc_list(rs.skip(k)),
    decreases rs.len(),
{
    if k == rs.len() {
        assert(rs.take(k) =~= rs);
        assert(enc_list(rs.skip(k)) =~= Seq::<u8>::empty());
        assert(enc_list(rs) =~= enc_list(rs.take(k)) + enc_list(rs.skip(k)));
    } else {
        let dl = rs.drop_last();
        lemma_enc_list_split(dl, k);
        assert(rs.take(k) =~= dl.take(k));
        assert(rs.skip(k) =~= dl.skip(k).push(rs.last()));
        lemma_enc_list_push(dl.skip(k), rs.last());
        assert(enc_list(rs) == enc_list(dl) + enc(rs.last()));
        assert(enc_list(rs) =~= enc_list(rs.take(k)) + enc_list(rs.skip(k)));
    }
}

/// Where a byte string starts with the encodings of `rs`, the `k`-th
/// record's encoding sits right after the first `k` records' encodings.
pub proof fn lemma_enc_at_in_list(content: Seq<u8>, rs: Seq<Rec>, k: int)
    requires
        content.len() >= enc_list(rs).len(),
        content.subrange(0, enc_list(rs).len() as int) == enc_list(rs),
        forall|i: int| 0 <= i < rs.len() ==> rec_fits(#[trigger] rs[i]),
        0 <= k < rs.len(),
    ensures
        enc_at(content, enc_list(rs.take(k)).len() as int, rs[k]),
        enc_list(rs.take(k + 1)).len() == enc_list(rs.take(k)).len() + enc(rs[k]).len(),
        enc_list(rs.take(k + 1)).len() <= enc_list(rs).len(),
    decreases 0int,
{
    lemma_enc_list_split(rs, k);
    lemma_enc_list_split(rs, k + 1);
    assert(rs.take(k + 1) =~= rs.take(k).push(rs[k]));
    lemma_enc_list_push(rs.take(k), rs[k]);
    let a = enc_list(rs.take(k)).len() as int;
    let e = enc(rs[k]);
    assert(enc_list(rs.take(k + 1)) == enc_list(rs.take(k)) + e);
    assert(content.subrange(a, a + e.len()) =~= e) by {
        assert(forall|i: int|
            0 <= i < enc_list(rs).len() ==> #[trigger] content[i] == enc_list(rs)[i]) by {
            assert(forall|i: int|
                0 <= i < enc_list(rs).len() ==> #[trigger] content.subrange(
                    0,
                    enc_list(rs).len() as int,
                )[i] == content[i]);
        }
        assert(enc_list(rs) == enc_list(rs.take(k + 1)) + enc_list(rs.skip(k + 1)));
        assert forall|i: int| 0 <= i < e.len() implies content[a + i] == e[i] by {
            assert(enc_list(rs)[a + i] == enc_list(rs.take(k + 1))[a + i]);
            assert(enc_list(rs.take(k + 1))[a + i] == e[i]);
        }
    }
}

/// A record within the kept prefix survives a truncation.
pub proof fn lemma_enc_at_shrink(s: Seq<u8>, keep: int, off: int, rec: Rec)
    requires
        enc_at(s, off, rec),
        off + enc(rec).len() <= keep <= s.len(),
    ensures
        enc_at(s.subrange(0, keep), off, rec),
{
    assert(s.subrange(0, keep).subrange(off, off + enc(rec).len()) =~= s.subrange(
        off,
        off + enc(rec).len(),
    ));
}

/// The bytes of a file are the encodings of `rs`, possibly followed by a
/// zeroed tail, the shape a crash or preallocation leaves behind.
pub open spec fn file_matches(content: Seq<u8>, rs: Seq<Rec>) -> bool {
    &&& content.len() >= enc_list(rs).len()
    &&& content.subrange(0, enc_list(rs).len() as int) == enc_list(rs)
    &&& forall|i: int| enc_list(rs).len() <= i < content.len() ==> content[i] == 0
    &&& forall|i: int|
        0 <= i < rs.len() ==> rec_fits(#[trigger] rs[i]) && crate::replay::key_parses(rs[i].key)
}

/// A byte string determines the records it holds: two listings that both
/// match the same bytes are the same listing.
pub proof fn lemma_file_matches_unique(c: Seq<u8>, rs1: Seq<Rec>, rs2: Seq<Rec>)
    requires
        file_matches(c, rs1),
        file_matches(c, rs2),
    ensures
        rs1 == rs2,
    decreases rs1.len() + rs2.len(),
{
    if rs1.len() == 0 && rs2.len() == 0 {
        assert(rs1 =~= rs2);
    } else if rs1.len() == 0 || rs2.len() == 0 {
        let (re, rn) = if rs1.len() == 0 {
            (rs1, rs2)
        } else {
            (rs2, rs1)
        };
        // the non-empty listing's first record starts in an all-zero string
        lemma_enc_at_in_list(c, rn, 0);
        assert(rn.take(0) =~= Seq::<Rec>::empty());
        let r0 = rn[0];
        assert(enc_at(c, 0, r0));
        crate::log_record::lemma_enc_at_fields(c, 0, r0);
        crate::varint::lemma_varint_len(r0.key.len() as u64);
        assert(crate::varint::varint(r0.key.len() as u64)[0] != 0) by {
            if r0.key.len() < 128 {
                assert(crate::varint::varint(r0.key.len() as u64)[0] == r0.key.len() as u8);
            } else {
                assert(crate::varint::varint(r0.key.len() as u64)[0] == (r0.key.len() as u64 % 128
                    + 128) as u8);
            }
        }
        assert(crate::varint::byte_at(c, 1) == crate::varint::varint(r0.key.len() as u64)[0]);
        assert(enc_list(re).len() == 0);
        assert(c[1] == 0);
        assert(false);
    } else {
        lemma_enc_at_in_list(c, rs1, 0);
        lemma_enc_at_in_list(c, rs2, 0);
        assert(rs1.take(0) =~= Seq::<Rec>::empty());
        assert(rs2.take(0) =~= Seq::<Rec>::empty());
        assert(enc_at(c, 0, rs1[0]));
        assert(enc_at(c, 0, rs2[0]));
        crate::log_record::lemma_enc_at_unique(c, 0, rs1[0], rs2[0]);
        let l = enc(rs1[0]).len() as int;
        let c2 = c.skip(l);
        lemma_matches_skip(c, rs1);
        lemma_matches_skip(c, rs2);
        assert(rs2[0] == rs1[0]);
        assert(enc(rs2[0]).len() == l);
        lemma_file_matches_unique(c2, rs1.skip(1), rs2.skip(1));
        assert(rs1 =~= rs2) by {
            assert(forall|i: int|
                1 <= i < rs1.len() ==> #[trigger] rs1[i] == rs1.skip(1)[i - 1]);
            assert(forall|i: int|
                1 <= i < rs2.len() ==> #[trigger] rs2[i] == rs2.skip(1)[i - 1]);
        }
    }
}

/// Dropping the first record of a matching listing leaves a matching
/// listing of the rest of the bytes.
proof fn lemma_matches_skip(c: Seq<u8>, rs: Seq<Rec>)
    requires
        file_matches(c, rs),
        rs.len() > 0,
    ensures
        file_matches(c.skip(enc(rs[0]).len() as int), rs.skip(1)),
{
    let l = enc(rs[0]).len() as int;
    lemma_enc_at_in_list(c, rs, 0);
    assert(rs.take(0) =~= Seq::<Rec>::empty());
    assert(rs.take(1) =~= seq![rs[0]]);
    lemma_enc_list_split(rs, 1);
    assert(enc_list(rs.take(1)) =~= enc(rs[0])) by {
        assert(enc_list(seq![rs[0]]) =~= enc_list(Seq::<Rec>::empty()) + enc(rs[0]));
        assert(seq![rs[0]].drop_last() =~= Seq::<Rec>::empty());
    }
    let c2 = c.skip(l);
    let rs2 = rs.skip(1);
    assert(enc_list(rs) == enc(rs[0]) + enc_list(rs2));
    assert(c2.len() >= enc_list(rs2).len());
    assert(c2.subrange(0, enc_list(rs2).len() as int) =~= enc_list(rs2)) by {
        assert(forall|i: int|
            0 <= i < enc_list(rs).len() ==> #[trigger] c.subrange(
                0,
                enc_list(rs).len() as int,
            )[i] == c[i]);
        assert forall|i: int| 0 <= i < enc_list(rs2).len() implies c2.subrange(
            0,
            enc_list(rs2).len() as int,
        )[i] == enc_list(rs2)[i] by {
            assert(c2[i] == c[l + i]);
            assert(enc_list(rs)[l + i] == enc_list(rs2)[i]);
            assert(c[l + i] == enc_list(rs)[l + i]);
        }
    }
    assert(forall|i: int|
        enc_list(rs2).len() <= i < c2.len() ==> #[trigger] c2[i] == c[l + i] && c[l + i] == 0);
    assert(forall|i: int| 0 <= i < rs2.len() ==> #[trigger] rs2[i] == rs[i + 1]);
}

/// The name of a data file: its id as nine-or-more zero-padded decimal
/// digits, followed by the data suffix.
pub open spec fn spec_data_file_name(file_id: u32) -> Seq<u8> {
    let d = crate::varint::decimal(file_id as u64);
    let padded = if d.len() < 9 {
        Seq::new((9 - d.len()) as nat, |i: int| 48u8) + d
    } else {
        d
    };
    padded + seq![46u8, 100u8, 97u8, 116u8, 97u8]
}

/// Builds the file name a data file carries in a directory.
pub fn get_data_file_name(file_id: u32) -> (r: Vec<u8>)
    ensures
        r@ == spec_data_file_name(file_id),
{
    let d = crate::varint::write_decimal(file_id as u64);
    proof {
        crate::varint::lemma_decimal_len_max(file_id as u64);
    }
    let mut out: Vec<u8> = Vec::new();
    let mut pad: usize = 0;
    if d.len() < 9 {
        pad = 9 - d.len();
    }
    let mut i: usize = 0;
    while i < pad
        invariant
            i <= pad,
            pad == if d@.len() < 9 {
                9 - d@.len()
            } else {
                0int
            },
            out@ =~= Seq::new(i as nat, |t: int| 48u8),
        decreases pad - i,
    {
        out.push(48);
        proof {
            assert(out@ =~= Seq::new((i + 1) as nat, |t: int| 48u8));
        }
        i = i + 1;
    }
    crate::log_record::extend_bytes(&mut out, &d);
    out.push(46);
    out.push(100);
    out.push(97);
    out.push(116);
    out.push(97);
    proof {
        assert(out@ =~= spec_data_file_name(file_id));
    }
    out
}

/// The value a run of ASCII digits denotes, read left to right.
pub open spec fn dec_fold(s: Seq<u8>) -> int
    decreases s.len(),
{
    if s.len() == 0 {
        0
    } else {
        dec_fold(s.drop_last()) * 10 + (s.last() - 48)
    }
}

/// A value's zero-padded digits fold back to the value.
proof fn lemma_dec_fold_padded(z: nat, n: u64)
    ensures
        dec_fold(Seq::new(z, |i: int| 48u8) + crate::varint::decimal(n)) == n,
    decreases n,
{
    let zeros = Seq::new(z, |i: int| 48u8);
    if n < 10 {
        assert(crate::varint::decimal(n) =~= seq![(48 + n) as u8]);
        assert((zeros + crate::varint::decimal(n)).drop_last() =~= zeros);
        lemma_dec_fold_zeros(z);
    } else {
        lemma_dec_fold_padded(z, n / 10);
        assert((zeros + crate::varint::decimal(n)).drop_last() =~= zeros
            + crate::varint::decimal(n / 10));
        assert((zeros + crate::varint::decimal(n)).last() == (48 + n % 10) as u8);
    }
}

proof fn lemma_dec_fold_zeros(z: nat)
    ensures
        dec_fold(Seq::new(z, |i: int| 48u8)) == 0,
    decreases z,
{
    if z > 0 {
        lemma_dec_fold_zeros((z - 1) as nat);
        assert(Seq::new(z, |i: int| 48u8).drop_last() =~= Seq::new(
            (z - 1) as nat,
            |i: int| 48u8,
        ));
    }
}

/// Digit folds are never negative.
proof fn lemma_dec_fold_nonneg(s: Seq<u8>, i: int)
    requires
        0 <= i <= s.len(),
        forall|t: int| 0 <= t < s.len() ==> 48 <= #[trigger] s[t] <= 57,
    ensures
        0 <= dec_fold(s.subrange(0, i)),
    decreases i,
{
    if i > 0 {
        assert(s.subrange(0, i).drop_last() =~= s.subrange(0, i - 1));
        assert(s.subrange(0, i).last() == s[i - 1]);
        lemma_dec_fold_nonneg(s, i - 1);
    } else {
        assert(s.subrange(0, 0) =~= Seq::<u8>::empty());
    }
}

/// Digit folds only grow as digits are appended.
proof fn lemma_dec_fold_mono(s: Seq<u8>, i: int, j: int)
    requires
        0 <= i <= j <= s.len(),
        forall|t: int| 0 <= t < s.len() ==> 48 <= #[trigger] s[t] <= 57,
    ensures
        dec_fold(s.subrange(0, i)) <= dec_fold(s.subrange(0, j)),
    decreases j - i,
{
    if i < j {
        lemma_dec_fold_mono(s, i, j - 1);
        assert(s.subrange(0, j).drop_last() =~= s.subrange(0, j - 1));
        assert(s.subrange(0, j).last() == s[j - 1]);
        lemma_dec_fold_nonneg(s, j - 1);
    }
}

/// Reads a data file's id back from its name. Whenever the name is what
/// `get_data_file_name` builds for some id, that id comes back.
pub fn parse_data_file_name(name: &Vec<u8>) -> (r: Option<u32>)
    ensures
        forall|id: u32| name@ == spec_data_file_name(id) ==> r == Some(id),
{
    let ghost s = name@;
    let n = name.len();
    if n < 14 {
        proof {
            assert forall|id: u32| s != spec_data_file_name(id) by {
                if s == spec_data_file_name(id) {
                    crate::varint::lemma_decimal_len_max(id as u64);
                }
            }
        }
        return None;
    }
    if !(name[n - 5] == 46 && name[n - 4] == 100 && name[n - 3] == 97 && name[n - 2] == 116
        && name[n - 1] == 97) {
        proof {
            assert forall|id: u32| s != spec_data_file_name(id) by {
                if s == spec_data_file_name(id) {
                    lemma_name_parts(s, id);
                }
            }
        }
        return None;
    }
    let digits_len = n - 5;
    let ghost sdig = s.subrange(0, digits_len as int);
    let mut acc: u64 = 0;
    let mut i: usize = 0;
    while i < digits_len
        invariant
            i <= digits_len,
            s == name@,
            14 <= n == s.len(),
            digits_len == n - 5,
            sdig == s.subrange(0, digits_len as int),
            acc == dec_fold(sdig.subrange(0, i as int)),
            forall|t: int| 0 <= t < i ==> 48 <= #[trigger] sdig[t] <= 57,
        decreases digits_len - i,
    {
        let b = name[i];
        proof {
            assert(sdig[i as int] == s[i as int]);
        }
        if b < 48 || b > 57 {
            proof {
                assert forall|id: u32| s != spec_data_file_name(id) by {
                    if s == spec_data_file_name(id) {
                        lemma_name_parts(s, id);
                    }
                }
            }
            return None;
        }
        if acc > (u64::MAX - 9) / 10 {
            proof {
                assert forall|id: u32| s != spec_data_file_name(id) by {
                    if s == spec_data_file_name(id) {
                        lemma_name_parts(s, id);
                        assert(forall|t: int|
                            0 <= t < sdig.len() ==> 48 <= #[trigger] sdig[t] <= 57) by {
                            assert(forall|t: int|
                                0 <= t < sdig.len() ==> #[trigger] sdig[t] == s[t]);
                        }
                        lemma_dec_fold_mono(sdig, i as int, sdig.len() as int);
                        assert(sdig.subrange(0, sdig.len() as int) =~= sdig);
                        assert(acc <= id);
                    }
                }
            }
            return None;
        }
        proof {
            assert(sdig.subrange(0, i + 1).drop_last() =~= sdig.subrange(0, i as int));
            assert(sdig.subrange(0, i + 1).last() == sdig[i as int]);
        }
        acc = acc * 10 + ((b - 48) as u64);
        i = i + 1;
    }
    proof {
        assert(sdig.subrange(0, digits_len as int) =~= sdig);
    }
    if acc > u32::MAX as u64 {
        proof {
            assert forall|id: u32| s != spec_data_file_name(id) by {
                if s == spec_data_file_name(id) {
                    lemma_name_parts(s, id);
                }
            }
        }
        return None;
    }
    proof {
        assert forall|id: u32| s == spec_data_file_name(id) implies acc as u32 == id by {
            lemma_name_parts(s, id);
        }
    }
    Some(acc as u32)
}

/// Where a byte string is a data file's name, its digit prefix is the
/// id's zero-padded rendering, its tail the suffix, and the digits fold
/// back to the id.
proof fn lemma_name_parts(s: Seq<u8>, id: u32)
    requires
        s == spec_data_file_name(id),
    ensures
        s.len() >= 14,
        s[s.len() - 5] == 46 && s[s.len() - 4] == 100 && s[s.len() - 3] == 97 && s[s.len() - 2]
            == 116 && s[s.len() - 1] == 97,
        forall|t: int| 0 <= t < s.len() - 5 ==> 48 <= #[trigger] s[t] <= 57,
        dec_fold(s.subrange(0, s.len() - 5)) == id,
{
    let d = crate::varint::decimal(id as u64);
    crate::varint::lemma_decimal_len_max(id as u64);
    crate::varint::lemma_decimal_digits(id as u64);
    let padded = if d.len() < 9 {
        Seq::new((9 - d.len()) as nat, |i: int| 48u8) + d
    } else {
        d
    };
    assert(s == padded + seq![46u8, 100u8, 97u8, 116u8, 97u8]);
    assert(s.len() == padded.len() + 5);
    assert(s.subrange(0, s.len() - 5) =~= padded) by {
        assert(forall|t: int| 0 <= t < padded.len() ==> #[trigger] s[t] == padded[t]);
    }
    if d.len() < 9 {
        lemma_dec_fold_padded((9 - d.len()) as nat, id as u64);
    } else {
        lemma_dec_fold_padded(0, id as u64);
        assert(Seq::new(0, |i: int| 48u8) + d =~= d);
    }
    assert forall|t: int| 0 <= t < s.len() - 5 implies 48 <= #[trigger] s[t] <= 57 by {
        assert(s[t] == padded[t]);
        if d.len() < 9 {
            if t >= 9 - d.len() {
                assert(padded[t] == d[t - (9 - d.len())]);
            }
        } else {
            assert(padded[t] == d[t]);
        }
    }
}

/// One numbered log segment.
pub struct DataFile {
    /// which segment this is
    file_id: u32,
    /// the bytes of the file
    content: Vec<u8>,
    /// how many leading bytes are known durable
    flushed: usize,
    /// the records the bytes encode
    recs: Ghost<Seq<Rec>>,
}

impl DataFile {
    /// The bytes of the file.
    pub closed spec fn data(&self) -> Seq<u8> {
        self.content@
    }

    /// The records the file holds.
    pub closed spec fn recs(&self) -> Seq<Rec> {
        self.recs@
    }

    pub closed spec fn id(&self) -> u32 {
        self.file_id
    }

    pub closed spec fn flushed_to(&self) -> int {
        self.flushed as int
    }

    /// Structural well-formedness: the image fits the address space.
    pub closed spec fn wf(&self) -> bool {
        &&& self.content@.len() + 32 <= usize::MAX
        &&& self.flushed <= self.content@.len()
    }

    /// A well-formed image leaves headroom below the address-space top.
    pub proof fn lemma_wf_len(&self)
        requires
            self.wf(),
        ensures
            self.data().len() + 32 <= usize::MAX,
    {
    }

    /// The bytes are exactly the encodings of the ghost record list.
    pub open spec fn tracks(&self) -> bool {
        &&& self.data() == enc_list(self.recs())
        &&& forall|i: int| 0 <= i < self.recs().len() ==> rec_fits(#[trigger] self.recs()[i])
    }

    /// Creates the image of a fresh, empty data file.
    pub fn new(file_id: u32) -> (r: DataFile)
        ensures
            r.wf(),
            r.tracks(),
            r.id() == file_id,
            r.data() == Seq::<u8>::empty(),
            r.recs() == Seq::<Rec>::empty(),
            r.flushed_to() == 0,
    {
        DataFile { file_id, content: Vec::new(), flushed: 0, recs: Ghost(Seq::empty()) }
    }

    /// Takes over bytes loaded from an existing segment. What records they
    /// hold is not yet known; the recovery scan settles it.
    pub fn open_existing(file_id: u32, content: Vec<u8>) -> (r: Result<DataFile, Errors>)
        ensures
            match r {
                Ok(f) => f.wf() && f.id() == file_id && f.data() == content@ && f.flushed_to()
                    == content@.len(),
                Err(e) => e == Errors::FailedOpenDataFile && content@.len() + 32 > usize::MAX,
            },
    {
        let n = content.len();
        if n > usize::MAX - 32 {
            return Err(Errors::FailedOpenDataFile);
        }
        Ok(DataFile { file_id, content, flushed: n, recs: Ghost(arbitrary()) })
    }

    /// The image of the auxiliary file that holds the compact index a
    /// merge writes.
    pub fn new_hint_file() -> (r: DataFile)
        ensures
            r.wf(),
            r.tracks(),
            r.id() == 0,
            r.recs() == Seq::<Rec>::empty(),
    {
        DataFile::new(0)
    }

    /// The image of the marker file a finished merge leaves behind.
    pub fn new_merge_fin_file() -> (r: DataFile)
        ensures
            r.wf(),
            r.tracks(),
            r.id() == 0,
            r.recs() == Seq::<Rec>::empty(),
    {
        DataFile::new(0)
    }

    /// The image of the file that records the sequence number at close.
    pub fn new_seq_no_file() -> (r: DataFile)
        ensures
            r.wf(),
            r.tracks(),
            r.id() == 0,
            r.recs() == Seq::<Rec>::empty(),
    {
        DataFile::new(0)
    }

    pub fn file_size(&self) -> (r: u64)
        ensures
            r == self.data().len(),
    {
        self.content.len() as u64
    }

    pub fn get_write_off(&self) -> (r: u64)
        ensures
            r == self.data().len(),
    {
        self.content.len() as u64
    }

    pub fn get_file_id(&self) -> (r: u32)
        ensures
            r == self.id(),
    {
        self.file_id
    }

    /// Surrenders the raw bytes of the image.
    pub fn into_bytes(self) -> (r: Vec<u8>)
        ensures
            r@ == self.data(),
    {
        self.content
    }

    /// A borrow of the raw bytes, for a caller that mirrors the image.
    pub fn bytes(&self) -> (r: &Vec<u8>)
        ensures
            r@ == self.data(),
    {
        &self.content
    }

    /// Appends the encoding of one record. Fails only when the image
    /// cannot grow by that many bytes.
    pub fn write(&mut self, record: &LogRecord) -> (r: Result<usize, Errors>)
        requires
            old(self).wf(),
            rec_fits(record@),
        ensures
            final(self).wf(),
            final(self).id() == old(self).id(),
            final(self).flushed_to() == old(self).flushed_to(),
            match r {
                Ok(n) => {
                    &&& n == enc(record@).len()
                    &&& final(self).data() == old(self).data() + enc(record@)
                    &&& final(self).recs() == old(self).recs().push(record@)
                    &&& old(self).data().len() + enc(record@).len() + 32 <= usize::MAX
                },
                Err(e) => {
                    &&& e == Errors::FailedWriteToDataFile
                    &&& *final(self) == *old(self)
                    &&& old(self).data().len() + enc(record@).len() + 32 > usize::MAX
                },
            },
            old(self).tracks() ==> final(self).tracks(),
    {
        let e = record.encode();
        proof {
            lemma_enc_len(record@);
        }
        if e.len() > usize::MAX - 32 - self.content.len() {
            return Err(Errors::FailedWriteToDataFile);
        }
        let n = e.len();
        crate::log_record::extend_bytes(&mut self.content, &e);
        proof {
            self.recs@ = self.recs@.push(record@);
            lemma_enc_list_push(old(self).recs(), record@);
        }
        Ok(n)
    }

    /// Appends the hint record that maps a user key to a position.
    pub fn write_hint_record(&mut self, key: Vec<u8>, pos: LogRecordPos) -> (r: Result<
        (),
        Errors,
    >)
        requires
            old(self).wf(),
            1 <= key@.len(),
            key@.len() + 50 <= u32::MAX,
    ensures
            final(self).wf(),
            final(self).id() == old(self).id(),
            match r {
                Ok(_) => final(self).recs() == old(self).recs().push(
                    Rec {
                        key: key@,
                        value: crate::log_record::enc_pos(pos),
                        rec_type: LogRecordType::Normal,
                    },
                ),
                Err(e) => e == Errors::FailedWriteToDataFile,
            },
            old(self).tracks() ==> final(self).tracks(),
    {
        let value = pos.encode();
        proof {
            crate::varint::lemma_varint_len(pos.file_id as u64);
            crate::varint::lemma_varint_len(pos.offset);
            crate::varint::lemma_varint_len(pos.size as u64);
        }
        let record = LogRecord { key, value, rec_type: LogRecordType::Normal };
        match self.write(&record) {
            Ok(_) => Ok(()),
            Err(e) => Err(e),
        }
    }

    /// Marks everything written so far as durable. In this image that is
    /// the bookkeeping of an fsync; a caller that mirrors the image to
    /// disk flushes when the engine does.
    pub fn sync(&mut self) -> (r: Result<(), Errors>)
        requires
            old(self).wf(),
        ensures
            final(self).wf(),
            r == Ok::<(), Errors>(()),
            final(self).id() == old(self).id(),
            final(self).data() == old(self).data(),
            final(self).recs() == old(self).recs(),
            final(self).flushed_to() == old(self).data().len(),
            old(self).tracks() ==> final(self).tracks(),
    {
        self.flushed = self.content.len();
        Ok(())
    }

    /// Reads the record that starts at `offset`.
    pub fn read_log_record(&self, offset: u64) -> (r: Result<ReadLogRecord, Errors>)
        requires
            self.wf(),
        ensures
            match r {
                Ok(rr) => enc_at(self.data(), offset as int, rr.record@) && rr.size == enc(
                    rr.record@,
                ).len() && offset + rr.size <= self.data().len(),
                Err(e) => e == Errors::ReadDataFileEOF || e == Errors::InvalidLogRecordCrc,
            },
            forall|rec: Rec|
                enc_at(self.data(), offset as int, rec) ==> crate::log_record::decode_ok_matches(
                    r,
                    rec,
                ),
            r == Err::<ReadLogRecord, Errors>(Errors::ReadDataFileEOF) <==> (
            crate::varint::byte_at(self.data(), offset + 1) == 0 && crate::varint::byte_at(
                self.data(),
                offset + 2,
            ) == 0),
    {
        if offset >= self.content.len() as u64 {
            proof {
                assert forall|rec: Rec| !enc_at(self.data(), offset as int, rec) by {
                    if enc_at(self.data(), offset as int, rec) {
                        lemma_enc_len(rec);
                    }
                }
            }
            return Err(Errors::ReadDataFileEOF);
        }
        decode_log_record(&self.content, offset as usize)
    }

    /// Cuts the image back to `len` bytes: what a recovery scan does when
    /// it has found where the records end.
    pub fn truncate_to(&mut self, len: usize, Ghost(rs): Ghost<Seq<Rec>>)
        requires
            old(self).wf(),
            len <= old(self).data().len(),
            enc_list(rs).len() == len,
            old(self).data().subrange(0, len as int) == enc_list(rs),
            forall|i: int| 0 <= i < rs.len() ==> rec_fits(#[trigger] rs[i]),
        ensures
            final(self).wf(),
            final(self).id() == old(self).id(),
            final(self).data() == old(self).data().subrange(0, len as int),
            final(self).recs() == rs,
            final(self).tracks(),
    {
        self.content.truncate(len);
        if self.flushed > len {
            self.flushed = len;
        }
        proof {
            self.recs@ = rs;
        }
    }
}

} // verus!
