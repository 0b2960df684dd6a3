//! Variable-length integer and decimal codecs used by the record format.
//!
//! Integers are stored in the LEB128 style: seven payload bits per byte,
//! least-significant group first, with the high bit of a byte marking a
//! continuation. Only the canonical (shortest) encoding of each value is
//! produced or accepted.
use vstd::prelude::*;

verus! {

/// The canonical variable-length encoding of `n`.
pub open spec fn varint(n: u64) -> Seq<u8>
    decreases n,
{
    if n < 128 {
        seq![n as u8]
    } else {
        seq![(n % 128 + 128) as u8] + varint(n / 128)
    }
}

/// The byte of `s` at index `i`, where positions past the end read as zero.
/// Record parsing treats a data file as if it were padded with zeroes, the
/// way a positional read into a zeroed buffer behaves at the end of a file.
pub open spec fn byte_at(s: Seq<u8>, i: int) -> u8 {
    if 0 <= i < s.len() {
        s[i]
    } else {
        0
    }
}

/// `w` occurs at position `off` of the zero-padded stream `s`.
pub open spec fn matches_at(s: Seq<u8>, off: int, w: Seq<u8>) -> bool {
    forall|i: int| 0 <= i < w.len() ==> w[i] == byte_at(s, off + i)
}

pub open spec fn pow128(k: nat) -> int
    decreases k,
{
    if k == 0 {
        1
    } else {
        128 * pow128((k - 1) as nat)
    }
}

pub proof fn lemma_varint_len_rec(n: u64, depth: nat)
    requires
        depth >= 1,
        n < pow128(depth),
    ensures
        varint(n).len() <= depth,
    decreases depth,
{
    if n >= 128 {
        assert(pow128(depth) == 128 * pow128((depth - 1) as nat));
        assert(pow128((depth - 1) as nat) >= 1) by {
            lemma_pow128_pos((depth - 1) as nat);
        }
        assert(n / 128 < pow128((depth - 1) as nat)) by (nonlinear_arith)
            requires
                n < 128 * pow128((depth - 1) as nat),
                pow128((depth - 1) as nat) >= 1,
        {
        }
        lemma_varint_len_rec(n / 128, (depth - 1) as nat);
    }
}

proof fn lemma_pow128_pos(k: nat)
    ensures
        pow128(k) >= 1,
    decreases k,
{
    if k > 0 {
        lemma_pow128_pos((k - 1) as nat);
    }
}

pub proof fn lemma_varint_len(n: u64)
    ensures
        1 <= varint(n).len() <= 10,
        n < 128 <==> varint(n).len() == 1,
{
    assert(pow128(10) > 0xffff_ffff_ffff_ffff) by {
        reveal_with_fuel(pow128, 11);
    }
    lemma_varint_len_rec(n, 10);
    if n >= 128 {
        assert(varint(n).len() == 1 + varint(n / 128).len());
    }
}

/// Two equal byte strings that each start with one byte followed by a tail
/// have equal heads and equal tails.
proof fn lemma_cons_eq(h1: u8, t1: Seq<u8>, h2: u8, t2: Seq<u8>)
    requires
        seq![h1] + t1 == seq![h2] + t2,
    ensures
        h1 == h2,
        t1 == t2,
{
    assert((seq![h1] + t1)[0] == h1);
    assert((seq![h2] + t2)[0] == h2);
    assert((seq![h1] + t1).len() == 1 + t1.len());
    assert((seq![h2] + t2).len() == 1 + t2.len());
    assert(t1 =~= t2) by {
        assert forall|i: int| 0 <= i < t1.len() implies t1[i] == t2[i] by {
            assert((seq![h1] + t1)[1 + i] == t1[i]);
            assert((seq![h2] + t2)[1 + i] == t2[i]);
        }
    }
}

/// The first byte of the encoding, and the tail that follows it when the
/// value needs more than one byte.
proof fn lemma_varint_shape(a: u64, x: Seq<u8>)
    ensures
        a < 128 ==> varint(a) + x == seq![a as u8] + x,
        a >= 128 ==> varint(a) + x == seq![(a % 128 + 128) as u8] + (varint(a / 128) + x),
{
    if a < 128 {
        assert(varint(a) + x =~= seq![a as u8] + x);
    } else {
        assert(varint(a) + x =~= seq![(a % 128 + 128) as u8] + (varint(a / 128) + x));
    }
}

/// The encoding is a prefix code: no encoding is a proper prefix of another,
/// so a decomposition `varint(a) + rest` of a byte string is unique.
pub proof fn lemma_varint_prefix_free(a: u64, b: u64, x: Seq<u8>, y: Seq<u8>)
    requires
        varint(a) + x == varint(b) + y,
    ensures
        a == b,
        x == y,
    decreases a,
{
    lemma_varint_shape(a, x);
    lemma_varint_shape(b, y);
    if a < 128 && b < 128 {
        lemma_cons_eq(a as u8, x, b as u8, y);
    } else if a >= 128 && b >= 128 {
        lemma_cons_eq(
            (a % 128 + 128) as u8,
            varint(a / 128) + x,
            (b % 128 + 128) as u8,
            varint(b / 128) + y,
        );
        lemma_varint_prefix_free(a / 128, b / 128, x, y);
        assert(a == 128 * (a / 128) + a % 128);
        assert(b == 128 * (b / 128) + b % 128);
    } else if a < 128 {
        lemma_cons_eq(a as u8, x, (b % 128 + 128) as u8, varint(b / 128) + y);
    } else {
        lemma_cons_eq((a % 128 + 128) as u8, varint(a / 128) + x, b as u8, y);
    }
}

/// Appends the canonical encoding of `n` to `out`.
pub fn write_varint(out: &mut Vec<u8>, n: u64)
    ensures
        final(out)@ == old(out)@ + varint(n),
    decreases n,
{
    if n < 128 {
        out.push(n as u8);
        assert(final(out)@ =~= old(out)@ + varint(n));
    } else {
        out.push((n % 128 + 128) as u8);
        write_varint(out, n / 128);
        assert(final(out)@ =~= old(out)@ + varint(n));
    }
}

/// The length in bytes of the canonical encoding of `n`.
pub fn varint_len(n: u64) -> (l: usize)
    ensures
        l == varint(n).len(),
    decreases n,
{
    proof {
        lemma_varint_len(n);
    }
    if n < 128 {
        1
    } else {
        let rest = varint_len(n / 128);
        proof {
            lemma_varint_len(n / 128);
        }
        1 + rest
    }
}

/// Reads a canonically encoded integer from position `off` of `buf`, treating
/// positions past the end as zero. Returns the value and the number of bytes
/// consumed, or `None` if the bytes at `off` are not a canonical encoding of
/// any 64-bit value.
pub fn read_varint(buf: &[u8], off: usize) -> (r: Option<(u64, usize)>)
    ensures
        match r {
            Some((n, l)) => l == varint(n).len() && matches_at(buf@, off as int, varint(n)),
            None => true,
        },
        forall|n: u64| matches_at(buf@, off as int, varint(n)) ==> r == Some(
            (n, varint(n).len() as usize),
        ),
    decreases buf@.len() - off,
{
    let b: u8 = if off < buf.len() {
        buf[off]
    } else {
        0
    };
    if b < 128 {
        proof {
            assert forall|n: u64| matches_at(buf@, off as int, varint(n)) implies (b as u64, 1usize)
                == (n, varint(n).len() as usize) by {
                lemma_varint_len(n);
                if n >= 128 {
                    assert(varint(n)[0] == (n % 128 + 128) as u8);
                    assert(byte_at(buf@, off as int) == b);
                } else {
                    assert(varint(n)[0] == n as u8);
                }
            }
            assert(varint(b as u64) =~= seq![b]);
        }
        Some((b as u64, 1))
    } else {
        // the continuation bit is set, so this byte is inside the buffer
        assert(off < buf.len());
        match read_varint(buf, off + 1) {
            None => {
                proof {
                    assert forall|n: u64| !matches_at(buf@, off as int, varint(n)) by {
                        if matches_at(buf@, off as int, varint(n)) {
                            lemma_varint_match_step(buf@, off as int, n, b);
                        }
                    }
                }
                None
            },
            Some((rest, rest_len)) => {
                if rest == 0 {
                    // a continuation byte followed by an encoding of zero is
                    // not canonical
                    proof {
                        assert forall|n: u64| !matches_at(buf@, off as int, varint(n)) by {
                            if matches_at(buf@, off as int, varint(n)) {
                                lemma_varint_match_step(buf@, off as int, n, b);
                            }
                        }
                    }
                    None
                } else {
                    let low: u64 = (b - 128) as u64;
                    if rest > (u64::MAX - low) / 128 {
                        proof {
                            assert forall|n: u64| !matches_at(buf@, off as int, varint(n)) by {
                                if matches_at(buf@, off as int, varint(n)) {
                                    lemma_varint_match_step(buf@, off as int, n, b);
                                    assert(n / 128 == rest);
                                    assert(n == 128 * (n / 128) + n % 128);
                                    assert(128 * rest <= u64::MAX - low);
                                    assert(rest <= (u64::MAX - low) / 128) by (nonlinear_arith)
                                        requires
                                            128 * rest <= u64::MAX - low,
                                    {
                                    }
                                }
                            }
                        }
                        None
                    } else {
                        proof {
                            assert(128 * rest <= u64::MAX - low) by (nonlinear_arith)
                                requires
                                    rest <= (u64::MAX - low) / 128,
                            {
                            }
                        }
                        let n: u64 = low + 128 * rest;
                        proof {
                            assert(n % 128 == low && n / 128 == rest) by (nonlinear_arith)
                                requires
                                    n == low + 128 * rest,
                                    low < 128,
                                    rest >= 1,
                            {
                            }
                            assert(varint(n) =~= seq![b] + varint(rest));
                            assert(matches_at(buf@, off as int, varint(n))) by {
                                assert(varint(n)[0] == b == byte_at(buf@, off as int));
                                assert(forall|i: int|
                                    0 <= i < varint(rest).len() ==> #[trigger] varint(n)[1 + i]
                                        == varint(
                                        rest,
                                    )[i] && varint(rest)[i] == byte_at(buf@, off + 1 + i));
                            }
                            lemma_varint_len(n);
                            assert forall|m: u64| matches_at(buf@, off as int, varint(m)) implies m
                                == n by {
                                lemma_varint_match_step(buf@, off as int, m, b);
                                assert(m / 128 == rest && m % 128 == low);
                                assert(m == 128 * (m / 128) + m % 128);
                            }
                        }
                        Some((n, 1 + rest_len))
                    }
                }
            },
        }
    }
}

/// If a canonical encoding of `n` occurs at `off` and the first byte `b` has
/// its continuation bit set, then `n` is at least 128, its low bits agree
/// with `b`, and the rest of its encoding follows at `off + 1`.
proof fn lemma_varint_match_step(s: Seq<u8>, off: int, n: u64, b: u8)
    requires
        matches_at(s, off, varint(n)),
        byte_at(s, off) == b,
        b >= 128,
    ensures
        n >= 128,
        n % 128 == b - 128,
        matches_at(s, off + 1, varint(n / 128)),
        n / 128 >= 1,
{
    lemma_varint_len(n);
    if n < 128 {
        assert(varint(n)[0] == n as u8);
        assert(byte_at(s, off) == n as u8);
    } else {
        assert(varint(n)[0] == (n % 128 + 128) as u8);
        assert(varint(n) =~= seq![(n % 128 + 128) as u8] + varint(n / 128));
        assert(forall|i: int|
            0 <= i < varint(n / 128).len() ==> #[trigger] varint(n / 128)[i] == varint(n)[1 + i]);
    }
}

/// The decimal digits of `n` in ASCII, most significant first, with no
/// leading zeroes.
pub open spec fn decimal(n: u64) -> Seq<u8>
    decreases n,
{
    if n < 10 {
        seq![(48 + n) as u8]
    } else {
        decimal(n / 10) + seq![(48 + n % 10) as u8]
    }
}

/// Writes `n` in decimal ASCII.
pub fn write_decimal(n: u64) -> (r: Vec<u8>)
    ensures
        r@ == decimal(n),
    decreases n,
{
    if n < 10 {
        let mut v: Vec<u8> = Vec::new();
        v.push(48 + (n as u8));
        assert(v@ =~= decimal(n));
        v
    } else {
        let mut v = write_decimal(n / 10);
        v.push(48 + ((n % 10) as u8));
        assert(v@ =~= decimal(n));
        v
    }
}

pub open spec fn pow10(k: nat) -> int
    decreases k,
{
    if k == 0 {
        1
    } else {
        10 * pow10((k - 1) as nat)
    }
}

proof fn lemma_decimal_len_rec(n: u64, depth: nat)
    requires
        depth >= 1,
        n < pow10(depth),
    ensures
        decimal(n).len() <= depth,
    decreases depth,
{
    if n >= 10 {
        assert(pow10(depth) == 10 * pow10((depth - 1) as nat));
        assert(pow10((depth - 1) as nat) >= 1) by {
            lemma_pow10_pos((depth - 1) as nat);
        }
        assert(n / 10 < pow10((depth - 1) as nat)) by (nonlinear_arith)
            requires
                n < 10 * pow10((depth - 1) as nat),
                pow10((depth - 1) as nat) >= 1,
        {
        }
        lemma_decimal_len_rec(n / 10, (depth - 1) as nat);
    }
}

proof fn lemma_pow10_pos(k: nat)
    ensures
        pow10(k) >= 1,
    decreases k,
{
    if k > 0 {
        lemma_pow10_pos((k - 1) as nat);
    }
}

/// No 64-bit value needs more than twenty decimal digits.
pub proof fn lemma_decimal_len_max(n: u64)
    ensures
        1 <= decimal(n).len() <= 20,
{
    assert(pow10(20) > 0xffff_ffff_ffff_ffff) by {
        reveal_with_fuel(pow10, 21);
    }
    lemma_decimal_len_rec(n, 20);
}

proof fn lemma_decimal_len(n: u64)
    ensures
        decimal(n).len() >= 1,
        n < 10 <==> decimal(n).len() == 1,
    decreases n,
{
    if n >= 10 {
        lemma_decimal_len(n / 10);
    }
}

/// Parses the first `len` bytes of `s` as decimal ASCII. Accepts exactly what
/// `decimal` produces: whenever that prefix is `decimal(n)`, the result is
/// `Some(n)`.
pub fn parse_decimal_prefix(s: &Vec<u8>, len: usize) -> (r: Option<u64>)
    requires
        1 <= len <= s@.len(),
    ensures
        forall|n: u64| s@.subrange(0, len as int) == decimal(n) ==> r == Some(n),
    decreases len,
{
    let last = s[len - 1];
    if last < 48 || last > 57 {
        proof {
            assert forall|n: u64| s@.subrange(0, len as int) != decimal(n) by {
                if s@.subrange(0, len as int) == decimal(n) {
                    lemma_decimal_last(n);
                    assert(decimal(n)[decimal(n).len() - 1] == s@.subrange(0, len as int)[len - 1]);
                }
            }
        }
        return None;
    }
    let d: u64 = (last - 48) as u64;
    if len == 1 {
        proof {
            assert forall|n: u64| s@.subrange(0, 1int) == decimal(n) implies d == n by {
                lemma_decimal_len(n);
                assert(decimal(n)[0] == (48 + n) as u8);
                assert(s@.subrange(0, 1int)[0] == last);
            }
        }
        return Some(d);
    }
    match parse_decimal_prefix(s, len - 1) {
        None => {
            proof {
                assert forall|n: u64| s@.subrange(0, len as int) != decimal(n) by {
                    if s@.subrange(0, len as int) == decimal(n) {
                        lemma_decimal_len(n);
                        assert(n >= 10);
                        lemma_decimal_prefix(s@, len as int, n);
                    }
                }
            }
            None
        },
        Some(hi) => {
            if hi > (u64::MAX - d) / 10 {
                proof {
                    assert forall|n: u64| s@.subrange(0, len as int) != decimal(n) by {
                        if s@.subrange(0, len as int) == decimal(n) {
                            lemma_decimal_len(n);
                            assert(n >= 10);
                            lemma_decimal_prefix(s@, len as int, n);
                            assert(hi == n / 10 && d == n % 10);
                            assert(n == 10 * (n / 10) + n % 10);
                            assert(10 * hi <= u64::MAX - d);
                            assert(hi <= (u64::MAX - d) / 10) by (nonlinear_arith)
                                requires
                                    10 * hi <= u64::MAX - d,
                            {
                            }
                        }
                    }
                }
                None
            } else {
                proof {
                    assert(10 * hi <= u64::MAX - d) by (nonlinear_arith)
                        requires
                            hi <= (u64::MAX - d) / 10,
                    {
                    }
                }
                let n: u64 = 10 * hi + d;
                proof {
                    assert forall|m: u64| s@.subrange(0, len as int) == decimal(m) implies m
                        == n by {
                        lemma_decimal_len(m);
                        assert(m >= 10);
                        lemma_decimal_prefix(s@, len as int, m);
                        assert(hi == m / 10 && d == m % 10);
                        assert(m == 10 * (m / 10) + m % 10);
                    }
                }
                Some(n)
            }
        },
    }
}

/// Every byte of a decimal rendering is an ASCII digit.
pub proof fn lemma_decimal_digits(n: u64)
    ensures
        forall|i: int| 0 <= i < decimal(n).len() ==> 48 <= #[trigger] decimal(n)[i] <= 57,
    decreases n,
{
    if n >= 10 {
        lemma_decimal_digits(n / 10);
        assert forall|i: int| 0 <= i < decimal(n).len() implies 48 <= #[trigger] decimal(n)[i]
            <= 57 by {
            if i < decimal(n / 10).len() {
                assert(decimal(n)[i] == decimal(n / 10)[i]);
            }
        }
    }
}

proof fn lemma_decimal_last(n: u64)
    ensures
        48 <= decimal(n)[decimal(n).len() - 1] <= 57,
    decreases n,
{
    lemma_decimal_len(n);
}

/// For `n >= 10`, the digits of `n` are the digits of `n / 10` followed by
/// the last digit, so a decimal prefix decomposes deterministically.
proof fn lemma_decimal_prefix(s: Seq<u8>, len: int, n: u64)
    requires
        n >= 10,
        0 < len <= s.len(),
        s.subrange(0, len) == decimal(n),
    ensures
        decimal(n).len() == len,
        s.subrange(0, len - 1) == decimal(n / 10),
        s[len - 1] == (48 + n % 10) as u8,
{
    lemma_decimal_len(n);
    assert(decimal(n) == decimal(n / 10) + seq![(48 + n % 10) as u8]);
    assert(s.subrange(0, len - 1) =~= decimal(n / 10)) by {
        assert(forall|i: int|
            0 <= i < len - 1 ==> s.subrange(0, len)[i] == #[trigger] s.subrange(0, len - 1)[i]);
        assert(forall|i: int|
            0 <= i < decimal(n / 10).len() ==> decimal(n)[i] == #[trigger] decimal(n / 10)[i]);
    }
    assert(s.subrange(0, len)[len - 1] == s[len - 1]);
}

} // verus!
