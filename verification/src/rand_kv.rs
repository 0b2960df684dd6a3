//! Deterministic keys and values for exercising the store.
use crate::varint::write_decimal;
use vstd::prelude::*;

verus! {

/// Appends `n` as nine-or-more decimal digits, zero-padded.
fn push_padded(out: &mut Vec<u8>, n: u64)
    ensures
        final(out)@.len() > old(out)@.len(),
{
    let d = write_decimal(n);
    proof {
        crate::varint::lemma_decimal_len_max(n);
    }
    let mut pad: usize = 0;
    if d.len() < 9 {
        pad = 9 - d.len();
    }
    let mut i: usize = 0;
    while i < pad
        invariant
            out@.len() >= old(out)@.len(),
        decreases pad - i,
    {
        out.push(48);
        i = i + 1;
    }
    crate::log_record::extend_bytes(out, &d);
    proof {
        assert(d@.len() >= 1);
    }
}

/// A numbered test key.
pub fn get_test_key(i: usize) -> (r: Vec<u8>)
    ensures
        r@.len() > 0,
{
    let mut v: Vec<u8> = Vec::new();
    v.push(98);
    v.push(105);
    v.push(116);
    v.push(99);
    v.push(97);
    v.push(115);
    v.push(107);
    v.push(45);
    v.push(114);
    v.push(115);
    v.push(45);
    v.push(107);
    v.push(101);
    v.push(121);
    v.push(45);
    push_padded(&mut v, i as u64);
    v
}

/// A numbered test value, long enough to give the store some bulk.
pub fn get_test_value(i: usize) -> (r: Vec<u8>)
    ensures
        r@.len() > 0,
{
    let mut v: Vec<u8> = Vec::new();
    v.push(98);
    v.push(105);
    v.push(116);
    v.push(99);
    v.push(97);
    v.push(115);
    v.push(107);
    v.push(45);
    v.push(114);
    v.push(115);
    v.push(45);
    let mut t: usize = 0;
    while t < 6
        invariant
            v@.len() >= 11,
        decreases 6 - t,
    {
        v.push(118);
        v.push(97);
        v.push(108);
        v.push(117);
        v.push(101);
        v.push(45);
        t = t + 1;
    }
    push_padded(&mut v, i as u64);
    v
}

} // verus!
