//! The on-disk record format.
//!
//! A record is laid out as
//! `[1-byte type][varint key length][varint value length][key][value][4-byte CRC]`,
//! where the CRC covers everything before it and is stored big-endian.
use crate::error::Errors;
use crate::varint::{
    byte_at, lemma_varint_len, lemma_varint_prefix_free, matches_at, read_varint, varint,
    varint_len, write_varint,
};
use vstd::prelude::*;
use vstd::slice::slice_subrange;

verus! {

#[derive(Debug, PartialEq, Eq, Structural, Clone, Copy)]
pub enum LogRecordType {
    /// an ordinary stored pair
    Normal,
    /// a tombstone for a deleted key
    Deleted,
    /// the marker that makes the records of one batch visible
    TxnFinished,
}

impl LogRecordType {
    pub fn from_u8(v: u8) -> (t: Self)
        requires
            v <= 2,
        ensures
            type_byte(t) == v,
    {
        match v {
            0u8 => LogRecordType::Normal,
            1u8 => LogRecordType::Deleted,
            _ => LogRecordType::TxnFinished,
        }
    }
}

/// The byte that stands for a record type on disk.
pub open spec fn type_byte(t: LogRecordType) -> u8 {
    match t {
        LogRecordType::Normal => 0,
        LogRecordType::Deleted => 1,
        LogRecordType::TxnFinished => 2,
    }
}

/// A record as it is handed to the codec. The key is already
/// sequence-number-prefixed where the record goes to a data file.
#[derive(Debug)]
pub struct LogRecord {
    pub key: Vec<u8>,
    pub value: Vec<u8>,
    pub rec_type: LogRecordType,
}

/// The mathematical shape of a record.
#[verifier::ext_equal]
pub ghost struct Rec {
    pub key: Seq<u8>,
    pub value: Seq<u8>,
    pub rec_type: LogRecordType,
}

impl View for LogRecord {
    type V = Rec;

    open spec fn view(&self) -> Rec {
        Rec { key: self.key@, value: self.value@, rec_type: self.rec_type }
    }
}

/// A record the codec can store: the lengths fit the format's 32-bit
/// fields, and the key is not empty, so that a record is never mistaken
/// for the end-of-file sentinel.
pub open spec fn rec_wf(r: Rec) -> bool {
    &&& 1 <= r.key.len() <= u32::MAX
    &&& r.value.len() <= u32::MAX
}

/// The IEEE CRC-32 of a byte string, as crc32fast computes it.
pub uninterp spec fn crc32_of(s: Seq<u8>) -> u32;

/// Relies on crc32fast::hash: the IEEE CRC-32 of the bytes, a function of
/// the bytes alone.
#[verifier::external_body]
fn crc32(data: &[u8]) -> (r: u32)
    ensures
        r == crc32_of(data@),
{
    crc32fast::hash(data)
}

/// A 32-bit value as four big-endian bytes.
pub open spec fn be32(n: u32) -> Seq<u8> {
    seq![
        (n / 0x1000000) as u8,
        ((n / 0x10000) % 256) as u8,
        ((n / 256) % 256) as u8,
        (n % 256) as u8,
    ]
}

/// Everything of the encoding that the checksum covers.
pub open spec fn rec_body(r: Rec) -> Seq<u8> {
    seq![type_byte(r.rec_type)] + varint(r.key.len() as u64) + varint(r.value.len() as u64)
        + r.key + r.value
}

/// The full encoding of a record.
pub open spec fn enc(r: Rec) -> Seq<u8> {
    rec_body(r) + be32(crc32_of(rec_body(r)))
}

/// A record fits the format: the lengths hold, and the whole encoding
/// fits the 32-bit size field of a position.
pub open spec fn rec_fits(r: Rec) -> bool {
    &&& rec_wf(r)
    &&& r.key.len() + r.value.len() + 20 <= u32::MAX
}

pub proof fn lemma_enc_len(r: Rec)
    requires
        rec_wf(r),
    ensures
        enc(r).len() == 1 + varint(r.key.len() as u64).len() + varint(r.value.len() as u64).len()
            + r.key.len() + r.value.len() + 4,
        7 <= enc(r).len(),
        enc(r).len() <= 15 + r.key.len() + r.value.len(),
{
    lemma_varint_len(r.key.len() as u64);
    lemma_varint_len(r.value.len() as u64);
    lemma_varint_32(r.key.len() as u64);
    lemma_varint_32(r.value.len() as u64);
}

/// Uniquely locates a record on disk.
#[derive(Debug, Clone, Copy, PartialEq, Eq, Structural)]
pub struct LogRecordPos {
    pub file_id: u32,
    pub offset: u64,
    pub size: u32,
}

/// The encoding of a position: three variable-length integers.
pub open spec fn enc_pos(p: LogRecordPos) -> Seq<u8> {
    varint(p.file_id as u64) + varint(p.offset) + varint(p.size as u64)
}

impl LogRecordPos {
    pub fn encode(&self) -> (r: Vec<u8>)
        ensures
            r@ == enc_pos(*self),
    {
        let mut buf: Vec<u8> = Vec::new();
        write_varint(&mut buf, self.file_id as u64);
        write_varint(&mut buf, self.offset);
        write_varint(&mut buf, self.size as u64);
        proof {
            assert(buf@ =~= enc_pos(*self));
        }
        buf
    }
}

/// Reads a position back from its encoding. Whenever the bytes are the
/// encoding of a position, that position comes back.
pub fn decode_log_record_pos(buf: &Vec<u8>) -> (r: Option<LogRecordPos>)
    ensures
        forall|p: LogRecordPos| buf@ == enc_pos(p) ==> r == Some(p),
{
    let (fid, l1) = match read_varint(buf.as_slice(), 0) {
        Some(x) => x,
        None => {
            proof {
                lemma_pos_parts(buf@);
            }
            return None;
        },
    };
    proof {
        lemma_varint_len(fid);
    }
    let (off, l2) = match read_varint(buf.as_slice(), l1) {
        Some(x) => x,
        None => {
            proof {
                lemma_pos_parts(buf@);
            }
            return None;
        },
    };
    proof {
        lemma_varint_len(off);
    }
    let (sz, _l3) = match read_varint(buf.as_slice(), l1 + l2) {
        Some(x) => x,
        None => {
            proof {
                lemma_pos_parts(buf@);
            }
            return None;
        },
    };
    if fid > u32::MAX as u64 || sz > u32::MAX as u64 {
        proof {
            lemma_pos_parts(buf@);
        }
        return None;
    }
    let p = LogRecordPos { file_id: fid as u32, offset: off, size: sz as u32 };
    proof {
        assert forall|q: LogRecordPos| buf@ == enc_pos(q) implies p == q by {
            lemma_pos_parts(buf@);
        }
    }
    Some(p)
}

/// If a byte string is the encoding of a position, its three fields occur
/// one after the other, each at the position the previous lengths dictate.
proof fn lemma_pos_parts(s: Seq<u8>)
    ensures
        forall|q: LogRecordPos| #[trigger]
            enc_pos(q) == s ==> matches_at(s, 0, varint(q.file_id as u64)) && matches_at(
                s,
                varint(q.file_id as u64).len() as int,
                varint(q.offset),
            ) && matches_at(
                s,
                varint(q.file_id as u64).len() + varint(q.offset).len() as int,
                varint(q.size as u64),
            ),
{
    assert forall|q: LogRecordPos| #[trigger] enc_pos(q) == s implies matches_at(
        s,
        0,
        varint(q.file_id as u64),
    ) && matches_at(s, varint(q.file_id as u64).len() as int, varint(q.offset)) && matches_at(
        s,
        varint(q.file_id as u64).len() + varint(q.offset).len() as int,
        varint(q.size as u64),
    ) by {
        let a = varint(q.file_id as u64);
        let b = varint(q.offset);
        let c = varint(q.size as u64);
        assert(s == a + b + c);
        assert(s.len() == a.len() + b.len() + c.len());
        assert forall|i: int| 0 <= i < a.len() implies a[i] == byte_at(s, 0 + i) by {
            assert(s[i] == a[i]);
        }
        assert forall|i: int| 0 <= i < b.len() implies b[i] == byte_at(s, a.len() + i) by {
            assert(s[a.len() + i] == b[i]);
        }
        assert forall|i: int| 0 <= i < c.len() implies c[i] == byte_at(
            s,
            a.len() + b.len() + i,
        ) by {
            assert(s[a.len() + b.len() + i] == c[i]);
        }
    }
}

/// A record read back from a file, together with its on-disk size.
#[derive(Debug)]
pub struct ReadLogRecord {
    pub record: LogRecord,
    pub size: u64,
}

/// A staged record of a batch that is not yet known to be committed.
pub struct TransactionRecord {
    pub record: LogRecord,
    pub pos: LogRecordPos,
}

/// Appends `src` to `dst`.
pub fn extend_bytes(dst: &mut Vec<u8>, src: &Vec<u8>)
    ensures
        final(dst)@ == old(dst)@ + src@,
{
    let mut i: usize = 0;
    while i < src.len()
        invariant
            i <= src@.len(),
            dst@ == old(dst)@ + src@.subrange(0, i as int),
        decreases src@.len() - i,
    {
        dst.push(src[i]);
        proof {
            assert(dst@ =~= old(dst)@ + src@.subrange(0, i + 1));
        }
        i = i + 1;
    }
    proof {
        assert(dst@ =~= old(dst)@ + src@);
    }
}

/// Copies `len` bytes of `buf` starting at `start`.
pub fn copy_range(buf: &Vec<u8>, start: usize, len: usize) -> (r: Vec<u8>)
    requires
        start + len <= buf@.len(),
    ensures
        r@ == buf@.subrange(start as int, start + len),
{
    let mut out: Vec<u8> = Vec::new();
    let mut i: usize = 0;
    let n = buf.len();
    while i < len
        invariant
            i <= len,
            start + len <= buf@.len(),
            n == buf@.len(),
            out@ == buf@.subrange(start as int, start + i),
        decreases len - i,
    {
        out.push(buf[start + i]);
        proof {
            assert(out@ =~= buf@.subrange(start as int, start + i + 1));
        }
        i = i + 1;
    }
    out
}

/// Appends the four big-endian checksum bytes.
fn push_be32(dst: &mut Vec<u8>, n: u32)
    ensures
        final(dst)@ == old(dst)@ + be32(n),
{
    dst.push((n / 0x1000000) as u8);
    dst.push(((n / 0x10000) % 256) as u8);
    dst.push(((n / 256) % 256) as u8);
    dst.push((n % 256) as u8);
    proof {
        assert(dst@ =~= old(dst)@ + be32(n));
    }
}

impl LogRecord {
    /// How many bytes the record occupies on disk.
    pub fn encoded_len(&self) -> (n: usize)
        requires
            rec_fits(self@),
        ensures
            n == enc(self@).len(),
            n <= u32::MAX,
    {
        proof {
            lemma_enc_len(self@);
            lemma_varint_32(self@.key.len() as u64);
            lemma_varint_32(self@.value.len() as u64);
        }
        let l1 = varint_len(self.key.len() as u64);
        let l2 = varint_len(self.value.len() as u64);
        1 + l1 + l2 + self.key.len() + self.value.len() + 4
    }

    /// Encodes the record and returns the bytes together with the checksum.
    pub fn encode_and_get_crc(&self) -> (r: (Vec<u8>, u32))
        requires
            rec_wf(self@),
        ensures
            r.0@ == enc(self@),
            r.1 == crc32_of(rec_body(self@)),
    {
        let mut buf: Vec<u8> = Vec::new();
        let t: u8 = match self.rec_type {
            LogRecordType::Normal => 0,
            LogRecordType::Deleted => 1,
            LogRecordType::TxnFinished => 2,
        };
        buf.push(t);
        write_varint(&mut buf, self.key.len() as u64);
        write_varint(&mut buf, self.value.len() as u64);
        extend_bytes(&mut buf, &self.key);
        extend_bytes(&mut buf, &self.value);
        proof {
            assert(buf@ =~= rec_body(self@));
        }
        let crc = crc32(buf.as_slice());
        push_be32(&mut buf, crc);
        proof {
            assert(buf@ =~= enc(self@));
        }
        (buf, crc)
    }

    /// Encodes the record for storage.
    pub fn encode(&self) -> (r: Vec<u8>)
        requires
            rec_wf(self@),
        ensures
            r@ == enc(self@),
    {
        let (b, _) = self.encode_and_get_crc();
        b
    }

    /// The checksum the encoded record carries.
    pub fn get_crc(&self) -> (r: u32)
        requires
            rec_wf(self@),
        ensures
            r == crc32_of(rec_body(self@)),
    {
        let (_, c) = self.encode_and_get_crc();
        c
    }
}

/// The most bytes a record header (type byte plus the two length fields)
/// can occupy.
pub open spec fn spec_max_header_size() -> int {
    11
}

pub fn max_log_record_header_size() -> (r: usize)
    ensures
        r == spec_max_header_size(),
{
    let l = varint_len(u32::MAX as u64);
    proof {
        lemma_varint_32(u32::MAX as u64);
    }
    1 + 2 * l
}

/// A 32-bit length needs at most five encoded bytes, and the largest
/// needs exactly five.
pub proof fn lemma_varint_32(n: u64)
    requires
        n <= u32::MAX,
    ensures
        varint(n).len() <= 5,
        n >= 0x10000000 ==> varint(n).len() == 5,
{
    assert(crate::varint::pow128(5) == 0x8_0000_0000) by {
        reveal_with_fuel(crate::varint::pow128, 6);
    }
    crate::varint::lemma_varint_len_rec(n, 5);
    if n >= 0x10000000 {
        lemma_varint_32_lower(n);
    }
}

proof fn lemma_varint_32_lower(n: u64)
    requires
        0x10000000 <= n <= u32::MAX,
    ensures
        varint(n).len() >= 5,
{
    assert(varint(n).len() == 1 + varint(n / 128).len());
    assert(varint(n / 128).len() == 1 + varint(n / 128 / 128).len());
    assert(varint(n / 128 / 128).len() == 1 + varint(n / 128 / 128 / 128).len());
    assert(varint(n / 128 / 128 / 128).len() == 1 + varint(n / 128 / 128 / 128 / 128).len());
    assert(varint(n / 128 / 128 / 128 / 128).len() >= 1);
}

/// How decoding at one offset relates to a given record shape.
pub open spec fn decode_ok_matches(r: Result<ReadLogRecord, Errors>, rec: Rec) -> bool {
    match r {
        Ok(rr) => rr.record@ == rec && rr.size == enc(rec).len(),
        Err(_) => false,
    }
}

/// The encoding of a well-formed record `rec` sits at `off` in `s`.
pub open spec fn enc_at(s: Seq<u8>, off: int, rec: Rec) -> bool {
    &&& rec_wf(rec)
    &&& 0 <= off
    &&& off + enc(rec).len() <= s.len()
    &&& s.subrange(off, off + enc(rec).len()) == enc(rec)
}

/// Decodes the record that starts at `offset` in `buf`.
///
/// Whenever a well-formed record's encoding sits at `offset`, decoding
/// returns exactly that record; the end-of-data sentinel (two zero length
/// fields) is reported as `ReadDataFileEOF`; anything else that does not
/// check out is reported as `InvalidLogRecordCrc`.
/// Everything a well-formed encoding at `off` pins down about the bytes.
pub proof fn lemma_enc_at_fields(s: Seq<u8>, off: int, rec: Rec)
    requires
        enc_at(s, off, rec),
    ensures
        byte_at(s, off) == type_byte(rec.rec_type),
        type_byte(rec.rec_type) <= 2,
        matches_at(s, off + 1, varint(rec.key.len() as u64)),
        matches_at(
            s,
            off + 1 + varint(rec.key.len() as u64).len(),
            varint(rec.value.len() as u64),
        ),
        1 <= varint(rec.key.len() as u64).len() <= 10,
        1 <= varint(rec.value.len() as u64).len() <= 10,
        enc(rec).len() == 1 + varint(rec.key.len() as u64).len() + varint(
            rec.value.len() as u64,
        ).len() + rec.key.len() + rec.value.len() + 4,
        rec.key == s.subrange(
            off + 1 + varint(rec.key.len() as u64).len() + varint(rec.value.len() as u64).len(),
            off + 1 + varint(rec.key.len() as u64).len() + varint(rec.value.len() as u64).len()
                + rec.key.len(),
        ),
        rec.value == s.subrange(
            off + 1 + varint(rec.key.len() as u64).len() + varint(rec.value.len() as u64).len()
                + rec.key.len(),
            off + 1 + varint(rec.key.len() as u64).len() + varint(rec.value.len() as u64).len()
                + rec.key.len() + rec.value.len(),
        ),
        s.subrange(off, off + rec_body(rec).len()) == rec_body(rec),
        rec_body(rec).len() == enc(rec).len() - 4,
        forall|j: int|
            0 <= j < 4 ==> s[off + rec_body(rec).len() + j] == be32(crc32_of(rec_body(rec)))[j],
{
    lemma_enc_parts(s, off, rec);
    lemma_enc_len(rec);
    lemma_parts_to_body(s, off, rec);
    let l1 = varint(rec.key.len() as u64).len() as int;
    let l2 = varint(rec.value.len() as u64).len() as int;
    assert(rec.key =~= s.subrange(off + 1 + l1 + l2, off + 1 + l1 + l2 + rec.key.len())) by {
        assert(forall|i: int|
            0 <= i < rec.key.len() ==> #[trigger] rec.key[i] == byte_at(s, off + 1 + l1 + l2 + i));
    }
    assert(rec.value =~= s.subrange(
        off + 1 + l1 + l2 + rec.key.len(),
        off + 1 + l1 + l2 + rec.key.len() + rec.value.len(),
    )) by {
        assert(forall|i: int|
            0 <= i < rec.value.len() ==> #[trigger] rec.value[i] == byte_at(
                s,
                off + 1 + l1 + l2 + rec.key.len() + i,
            ));
    }
    assert forall|j: int| 0 <= j < 4 implies s[off + rec_body(rec).len() + j] == be32(
        crc32_of(rec_body(rec)),
    )[j] by {
        assert(be32(crc32_of(rec_body(rec)))[j] == byte_at(
            s,
            off + 1 + l1 + l2 + rec.key.len() + rec.value.len() + j,
        ));
    }
}

#[verifier::spinoff_prover]
#[verifier::rlimit(100)]
pub fn decode_log_record(buf: &Vec<u8>, offset: usize) -> (r: Result<ReadLogRecord, Errors>)
    requires
        buf@.len() + 32 <= usize::MAX,
        offset <= buf@.len(),
    ensures
        match r {
            Ok(rr) => enc_at(buf@, offset as int, rr.record@) && rr.size == enc(
                rr.record@,
            ).len() && offset + rr.size <= buf@.len(),
            Err(e) => e == Errors::ReadDataFileEOF || e == Errors::InvalidLogRecordCrc,
        },
        r == Err::<ReadLogRecord, Errors>(Errors::ReadDataFileEOF) <==> (byte_at(
            buf@,
            offset + 1,
        ) == 0 && byte_at(buf@, offset + 2) == 0),
        forall|rec: Rec| enc_at(buf@, offset as int, rec) ==> decode_ok_matches(r, rec),
{
    let ghost s = buf@;
    let ghost g = offset as int;
    // the two length fields
    let kparse = read_varint(buf.as_slice(), offset + 1);
    let (ksz, l1) = match kparse {
        Some(x) => x,
        None => {
            proof {
                assert forall|rec: Rec| !enc_at(s, g, rec) by {
                    if enc_at(s, g, rec) {
                        lemma_enc_at_fields(s, g, rec);
                    }
                }
                assert(byte_at(s, g + 1) != 0) by {
                    if byte_at(s, g + 1) == 0 {
                        lemma_zero_byte_matches(s, g + 1);
                    }
                }
            }
            return Err(Errors::InvalidLogRecordCrc);
        },
    };
    proof {
        lemma_varint_len(ksz);
    }
    let vparse = read_varint(buf.as_slice(), offset + 1 + l1);
    let (vsz, l2) = match vparse {
        Some(x) => x,
        None => {
            proof {
                assert forall|rec: Rec| !enc_at(s, g, rec) by {
                    if enc_at(s, g, rec) {
                        lemma_enc_at_fields(s, g, rec);
                        assert(ksz == rec.key.len() && l1 == varint(rec.key.len() as u64).len());
                    }
                }
                assert(!(byte_at(s, g + 1) == 0 && byte_at(s, g + 2) == 0)) by {
                    if byte_at(s, g + 1) == 0 {
                        lemma_zero_byte_matches(s, g + 1);
                        assert(ksz == 0 && l1 == 1);
                        if byte_at(s, g + 2) == 0 {
                            lemma_zero_byte_matches(s, g + 2);
                        }
                    }
                }
            }
            return Err(Errors::InvalidLogRecordCrc);
        },
    };
    proof {
        lemma_varint_len(vsz);
    }
    if ksz == 0 && vsz == 0 {
        proof {
            assert(varint(0) =~= seq![0u8]);
            assert(matches_at(s, g + 1, varint(ksz)));
            assert(varint(0)[0] == byte_at(s, g + 1 + 0));
            assert(byte_at(s, g + 1) == 0);
            assert(l1 == 1);
            assert(matches_at(s, g + 1 + l1, varint(vsz)));
            assert(varint(0)[0] == byte_at(s, g + 2 + 0));
            assert(byte_at(s, g + 2) == 0);
            assert forall|rec: Rec| !enc_at(s, g, rec) by {
                if enc_at(s, g, rec) {
                    lemma_enc_at_fields(s, g, rec);
                    assert(rec.key.len() == ksz);
                }
            }
        }
        return Err(Errors::ReadDataFileEOF);
    }
    proof {
        assert(!(byte_at(s, g + 1) == 0 && byte_at(s, g + 2) == 0)) by {
            if byte_at(s, g + 1) == 0 && byte_at(s, g + 2) == 0 {
                lemma_zero_byte_matches(s, g + 1);
                assert(ksz == 0 && l1 == 1);
                lemma_zero_byte_matches(s, g + 2);
                assert(vsz == 0);
            }
        }
    }
    if ksz == 0 || ksz > u32::MAX as u64 || vsz > u32::MAX as u64 {
        proof {
            assert forall|rec: Rec| !enc_at(s, g, rec) by {
                if enc_at(s, g, rec) {
                    lemma_enc_at_fields(s, g, rec);
                    assert(ksz == rec.key.len() && l1 == varint(rec.key.len() as u64).len());
                    assert(vsz == rec.value.len());
                }
            }
        }
        return Err(Errors::InvalidLogRecordCrc);
    }
    // the type byte
    let b0: u8 = if offset < buf.len() {
        buf[offset]
    } else {
        0
    };
    if b0 > 2 {
        proof {
            assert forall|rec: Rec| !enc_at(s, g, rec) by {
                if enc_at(s, g, rec) {
                    lemma_enc_at_fields(s, g, rec);
                }
            }
        }
        return Err(Errors::InvalidLogRecordCrc);
    }
    let total: u64 = 1 + (l1 as u64) + (l2 as u64) + ksz + vsz + 4;
    if total > (buf.len() - offset) as u64 {
        proof {
            assert forall|rec: Rec| !enc_at(s, g, rec) by {
                if enc_at(s, g, rec) {
                    lemma_enc_at_fields(s, g, rec);
                    assert(ksz == rec.key.len() && l1 == varint(rec.key.len() as u64).len());
                    assert(vsz == rec.value.len() && l2 == varint(rec.value.len() as u64).len());
                    assert(enc(rec).len() == total);
                }
            }
        }
        return Err(Errors::InvalidLogRecordCrc);
    }
    let hdr: usize = 1 + l1 + l2;
    let ku: usize = ksz as usize;
    let vu: usize = vsz as usize;
    let key = copy_range(buf, offset + hdr, ku);
    let value = copy_range(buf, offset + hdr + ku, vu);
    let crc = crc32(slice_subrange(buf.as_slice(), offset, offset + hdr + ku + vu));
    let cpos: usize = offset + hdr + ku + vu;
    let c0 = buf[cpos];
    let c1 = buf[cpos + 1];
    let c2 = buf[cpos + 2];
    let c3 = buf[cpos + 3];
    if !(c0 == (crc / 0x1000000) as u8 && c1 == ((crc / 0x10000) % 256) as u8 && c2 == ((crc / 256)
        % 256) as u8 && c3 == (crc % 256) as u8) {
        proof {
            assert forall|rec: Rec| !enc_at(s, g, rec) by {
                if enc_at(s, g, rec) {
                    lemma_enc_at_fields(s, g, rec);
                    assert(ksz == rec.key.len() && l1 == varint(rec.key.len() as u64).len());
                    assert(vsz == rec.value.len() && l2 == varint(rec.value.len() as u64).len());
                    assert(crc == crc32_of(rec_body(rec)));
                    let base = g + 1 + l1 + l2 + ksz + vsz;
                    assert(c0 == s[base + 0] == be32(crc)[0]);
                    assert(c1 == s[base + 1] == be32(crc)[1]);
                    assert(c2 == s[base + 2] == be32(crc)[2]);
                    assert(c3 == s[base + 3] == be32(crc)[3]);
                }
            }
        }
        return Err(Errors::InvalidLogRecordCrc);
    }
    let record = LogRecord { key, value, rec_type: LogRecordType::from_u8(b0) };
    let rr = ReadLogRecord { record, size: total };
    proof {
        let rec = rr.record@;
        lemma_decode_assemble(s, g, rec, l1 as int, l2 as int, crc);
        lemma_enc_len(rec);
        assert(enc_at(s, g, rec));
        assert forall|other: Rec| enc_at(s, g, other) implies decode_ok_matches(
            Ok::<ReadLogRecord, Errors>(rr),
            other,
        ) by {
            lemma_enc_at_unique(s, g, rec, other);
        }
    }
    Ok(rr)
}

/// A zero byte is where the encoding of zero sits.
proof fn lemma_zero_byte_matches(s: Seq<u8>, off: int)
    requires
        byte_at(s, off) == 0,
    ensures
        matches_at(s, off, varint(0)),
        varint(0).len() == 1,
{
    assert(varint(0) =~= seq![0u8]);
    assert forall|i: int| 0 <= i < varint(0).len() implies varint(0)[i] == byte_at(s, off + i) by {
        assert(varint(0)[0] == 0);
    }
}

/// Where each piece of a record's encoded body sits at its place in `s`,
/// the body as a whole is the corresponding range of `s`.
proof fn lemma_parts_to_body(s: Seq<u8>, off: int, rec: Rec)
    requires
        0 <= off,
        off + 1 + varint(rec.key.len() as u64).len() + varint(rec.value.len() as u64).len()
            + rec.key.len() + rec.value.len() <= s.len(),
        byte_at(s, off) == type_byte(rec.rec_type),
        matches_at(s, off + 1, varint(rec.key.len() as u64)),
        matches_at(
            s,
            off + 1 + varint(rec.key.len() as u64).len(),
            varint(rec.value.len() as u64),
        ),
        matches_at(
            s,
            off + 1 + varint(rec.key.len() as u64).len() + varint(rec.value.len() as u64).len(),
            rec.key,
        ),
        matches_at(
            s,
            off + 1 + varint(rec.key.len() as u64).len() + varint(rec.value.len() as u64).len()
                + rec.key.len(),
            rec.value,
        ),
    ensures
        s.subrange(off, off + rec_body(rec).len()) == rec_body(rec),
{
    let a = varint(rec.key.len() as u64);
    let b = varint(rec.value.len() as u64);
    let body = rec_body(rec);
    let blen = 1 + a.len() + b.len() + rec.key.len() + rec.value.len();
    assert(body.len() == blen);
    assert(s.subrange(off, off + body.len()) =~= body) by {
        assert forall|i: int| 0 <= i < blen implies s[off + i] == body[i] by {
            if i == 0 {
            } else if i < 1 + a.len() {
                assert(a[i - 1] == byte_at(s, off + 1 + (i - 1)));
                assert(body[i] == a[i - 1]);
            } else if i < 1 + a.len() + b.len() {
                assert(b[i - 1 - a.len()] == byte_at(s, off + 1 + a.len() + (i - 1 - a.len())));
                assert(body[i] == b[i - 1 - a.len()]);
            } else if i < 1 + a.len() + b.len() + rec.key.len() {
                let j = i - 1 - a.len() - b.len();
                assert(rec.key[j] == byte_at(s, off + 1 + a.len() + b.len() + j));
                assert(body[i] == rec.key[j]);
            } else {
                let j = i - 1 - a.len() - b.len() - rec.key.len();
                assert(rec.value[j] == byte_at(s, off + 1 + a.len() + b.len() + rec.key.len() + j));
                assert(body[i] == rec.value[j]);
            }
        }
    }
}

/// Where the encoding of `rec` sits at `off` in `s`, each part of the
/// encoding sits at the position the preceding lengths dictate.
proof fn lemma_enc_parts(s: Seq<u8>, off: int, rec: Rec)
    requires
        off + enc(rec).len() <= s.len(),
        0 <= off,
        s.subrange(off, off + enc(rec).len()) == enc(rec),
    ensures
        byte_at(s, off) == type_byte(rec.rec_type),
        matches_at(s, off + 1, varint(rec.key.len() as u64)),
        matches_at(
            s,
            off + 1 + varint(rec.key.len() as u64).len(),
            varint(rec.value.len() as u64),
        ),
        matches_at(
            s,
            off + 1 + varint(rec.key.len() as u64).len() + varint(rec.value.len() as u64).len(),
            rec.key,
        ),
        matches_at(
            s,
            off + 1 + varint(rec.key.len() as u64).len() + varint(rec.value.len() as u64).len()
                + rec.key.len(),
            rec.value,
        ),
        matches_at(
            s,
            off + 1 + varint(rec.key.len() as u64).len() + varint(rec.value.len() as u64).len()
                + rec.key.len() + rec.value.len(),
            be32(crc32_of(rec_body(rec))),
        ),
{
    let e = enc(rec);
    let a = varint(rec.key.len() as u64);
    let b = varint(rec.value.len() as u64);
    let c = be32(crc32_of(rec_body(rec)));
    assert(e.len() == 1 + a.len() + b.len() + rec.key.len() + rec.value.len() + c.len());
    assert(forall|i: int| 0 <= i < e.len() ==> e[i] == #[trigger] s[off + i]) by {
        assert(forall|i: int|
            0 <= i < e.len() ==> #[trigger] s.subrange(off, off + e.len())[i] == s[off + i]);
    }
    assert(e[0] == type_byte(rec.rec_type));
    assert forall|i: int| 0 <= i < a.len() implies a[i] == byte_at(s, off + 1 + i) by {
        assert(e[1 + i] == a[i]);
    }
    assert forall|i: int| 0 <= i < b.len() implies b[i] == byte_at(s, off + 1 + a.len() + i) by {
        assert(e[1 + a.len() + i] == b[i]);
    }
    assert forall|i: int| 0 <= i < rec.key.len() implies rec.key[i] == byte_at(
        s,
        off + 1 + a.len() + b.len() + i,
    ) by {
        assert(e[1 + a.len() + b.len() + i] == rec.key[i]);
    }
    assert forall|i: int| 0 <= i < rec.value.len() implies rec.value[i] == byte_at(
        s,
        off + 1 + a.len() + b.len() + rec.key.len() + i,
    ) by {
        assert(e[1 + a.len() + b.len() + rec.key.len() + i] == rec.value[i]);
    }
    assert forall|i: int| 0 <= i < c.len() implies c[i] == byte_at(
        s,
        off + 1 + a.len() + b.len() + rec.key.len() + rec.value.len() + i,
    ) by {
        assert(e[1 + a.len() + b.len() + rec.key.len() + rec.value.len() + i] == c[i]);
    }
}

/// The pieces the decoder extracted assemble to the encoding of the record
/// it returns.
proof fn lemma_decode_assemble(s: Seq<u8>, off: int, rec: Rec, l1: int, l2: int, crc: u32)
    requires
        rec_wf(rec),
        0 <= off,
        l1 == varint(rec.key.len() as u64).len(),
        l2 == varint(rec.value.len() as u64).len(),
        off + 1 + l1 + l2 + rec.key.len() + rec.value.len() + 4 <= s.len(),
        byte_at(s, off) == type_byte(rec.rec_type),
        matches_at(s, off + 1, varint(rec.key.len() as u64)),
        matches_at(s, off + 1 + l1, varint(rec.value.len() as u64)),
        rec.key == s.subrange(off + 1 + l1 + l2, off + 1 + l1 + l2 + rec.key.len()),
        rec.value == s.subrange(
            off + 1 + l1 + l2 + rec.key.len(),
            off + 1 + l1 + l2 + rec.key.len() + rec.value.len(),
        ),
        crc == crc32_of(s.subrange(off, off + 1 + l1 + l2 + rec.key.len() + rec.value.len())),
        s[off + 1 + l1 + l2 + rec.key.len() + rec.value.len()] == be32(crc)[0],
        s[off + 1 + l1 + l2 + rec.key.len() + rec.value.len() + 1] == be32(crc)[1],
        s[off + 1 + l1 + l2 + rec.key.len() + rec.value.len() + 2] == be32(crc)[2],
        s[off + 1 + l1 + l2 + rec.key.len() + rec.value.len() + 3] == be32(crc)[3],
    ensures
        s.subrange(off, off + enc(rec).len()) == enc(rec),
        enc(rec).len() == 1 + l1 + l2 + rec.key.len() + rec.value.len() + 4,
{
    let a = varint(rec.key.len() as u64);
    let b = varint(rec.value.len() as u64);
    let body = rec_body(rec);
    let blen = 1 + l1 + l2 + rec.key.len() + rec.value.len();
    assert(body.len() == blen);
    assert(s.subrange(off, off + blen) =~= body) by {
        assert forall|i: int| 0 <= i < blen implies s[off + i] == body[i] by {
            if i == 0 {
            } else if i < 1 + l1 {
                assert(a[i - 1] == byte_at(s, off + 1 + (i - 1)));
                assert(body[i] == a[i - 1]);
            } else if i < 1 + l1 + l2 {
                assert(b[i - 1 - l1] == byte_at(s, off + 1 + l1 + (i - 1 - l1)));
                assert(body[i] == b[i - 1 - l1]);
            } else if i < 1 + l1 + l2 + rec.key.len() {
                assert(rec.key[i - 1 - l1 - l2] == s.subrange(
                    off + 1 + l1 + l2,
                    off + 1 + l1 + l2 + rec.key.len(),
                )[i - 1 - l1 - l2]);
                assert(body[i] == rec.key[i - 1 - l1 - l2]);
            } else {
                let j = i - 1 - l1 - l2 - rec.key.len();
                assert(rec.value[j] == s.subrange(
                    off + 1 + l1 + l2 + rec.key.len(),
                    off + 1 + l1 + l2 + rec.key.len() + rec.value.len(),
                )[j]);
                assert(body[i] == rec.value[j]);
            }
        }
    }
    assert(crc == crc32_of(body));
    let e = enc(rec);
    assert(e.len() == blen + 4);
    assert(s.subrange(off, off + e.len()) =~= e) by {
        assert forall|i: int| 0 <= i < e.len() implies s[off + i] == e[i] by {
            if i < blen {
                assert(s.subrange(off, off + blen)[i] == s[off + i]);
                assert(e[i] == body[i]);
            } else {
                assert(e[i] == be32(crc32_of(body))[i - blen]);
            }
        }
    }
}

/// Two well-formed records whose encodings both sit at one offset are the
/// same record: the encoding is injective at a position.
pub proof fn lemma_enc_at_unique(s: Seq<u8>, off: int, r1: Rec, r2: Rec)
    requires
        rec_wf(r1),
        rec_wf(r2),
        0 <= off,
        off + enc(r1).len() <= s.len(),
        off + enc(r2).len() <= s.len(),
        s.subrange(off, off + enc(r1).len()) == enc(r1),
        s.subrange(off, off + enc(r2).len()) == enc(r2),
    ensures
        r1 == r2,
{
    lemma_enc_parts(s, off, r1);
    lemma_enc_parts(s, off, r2);
    let k1 = r1.key.len() as u64;
    let k2 = r2.key.len() as u64;
    lemma_varint_match_unique(s, off + 1, k1, k2);
    lemma_varint_match_unique(s, off + 1 + varint(k1).len() as int, r1.value.len() as u64, r2.value.len() as u64);
    assert(r1.key =~= r2.key) by {
        let base = off + 1 + varint(k1).len() + varint(r1.value.len() as u64).len();
        assert forall|i: int| 0 <= i < r1.key.len() implies r1.key[i] == r2.key[i] by {
            assert(r1.key[i] == byte_at(s, base + i));
            assert(r2.key[i] == byte_at(s, base + i));
        }
    }
    assert(r1.value =~= r2.value) by {
        let base = off + 1 + varint(k1).len() + varint(r1.value.len() as u64).len() + r1.key.len();
        assert forall|i: int| 0 <= i < r1.value.len() implies r1.value[i] == r2.value[i] by {
            assert(r1.value[i] == byte_at(s, base + i));
            assert(r2.value[i] == byte_at(s, base + i));
        }
    }
    assert(type_byte(r1.rec_type) == type_byte(r2.rec_type));
    assert(r1.rec_type == r2.rec_type);
    assert(r1 =~= r2);
}

/// Two encodings matching at the same position encode the same value.
proof fn lemma_varint_match_unique(s: Seq<u8>, off: int, a: u64, b: u64)
    requires
        matches_at(s, off, varint(a)),
        matches_at(s, off, varint(b)),
    ensures
        a == b,
{
    let la = varint(a).len() as int;
    let lb = varint(b).len() as int;
    if la <= lb {
        let w = Seq::new((lb - la) as nat, |i: int| byte_at(s, off + la + i));
        assert(varint(a) + w =~= varint(b)) by {
            assert forall|i: int| 0 <= i < lb implies (varint(a) + w)[i] == varint(b)[i] by {
                if i < la {
                    assert(varint(a)[i] == byte_at(s, off + i));
                } else {
                    assert(w[i - la] == byte_at(s, off + i));
                }
                assert(varint(b)[i] == byte_at(s, off + i));
            }
        }
        lemma_varint_prefix_free(a, b, w, Seq::empty());
    } else {
        let w = Seq::new((la - lb) as nat, |i: int| byte_at(s, off + lb + i));
        assert(varint(b) + w =~= varint(a)) by {
            assert forall|i: int| 0 <= i < la implies (varint(b) + w)[i] == varint(a)[i] by {
                if i < lb {
                    assert(varint(b)[i] == byte_at(s, off + i));
                } else {
                    assert(w[i - lb] == byte_at(s, off + i));
                }
                assert(varint(a)[i] == byte_at(s, off + i));
            }
        }
        lemma_varint_prefix_free(b, a, w, Seq::empty());
    }
}

} // verus!
