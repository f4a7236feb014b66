//! Comparison of bytes with the PNG signature.
use vstd::prelude::*;
use super::chunk::{png_sig, signature_byte};

verus! {

/// What comparing `sig` with the signature gives: -1 when nothing can be
/// compared, else the difference at the first mismatching byte in the
/// compared window, else 0.
pub open spec fn signature_comparison(sig: Seq<u8>, start: usize, num_to_check: usize) -> int {
    let count0 = if num_to_check < 8 { num_to_check as int } else { 8 };
    if count0 < 1 || start > 7 {
        -1
    } else {
        let count = if start + count0 > 8 { 8 - start } else { count0 };
        if sig.len() < start + count {
            -1
        } else {
            signature_difference(sig, start as int, start + count)
        }
    }
}

/// The difference at the first byte in `[i, end)` where `sig` and the PNG
/// signature differ, or 0.
pub open spec fn signature_difference(sig: Seq<u8>, i: int, end: int) -> int
    decreases end - i,
{
    if i >= end {
        0
    } else if sig[i] != png_sig()[i] {
        sig[i] - png_sig()[i]
    } else {
        signature_difference(sig, i + 1, end)
    }
}

fn compare_signature(sig: &[u8], start: usize, num_to_check: usize) -> (r: i32)
    ensures
        r == signature_comparison(sig@, start, num_to_check),
{
    let mut count = if num_to_check < 8 { num_to_check } else { 8 };
    if count < 1 || start > 7 {
        return -1;
    }
    if start + count > 8 {
        count = 8 - start;
    }
    if sig.len() < start + count {
        return -1;
    }
    let end = start + count;
    assert(signature_comparison(sig@, start, num_to_check) == signature_difference(sig@, start as int, end as int));
    let mut offset = start;
    while offset < end
        invariant
            start <= offset <= end <= 8,
            end <= sig@.len(),
            signature_comparison(sig@, start, num_to_check) == signature_difference(sig@, start as int, end as int),
            signature_difference(sig@, start as int, end as int) == signature_difference(sig@, offset as int, end as int),
        decreases end - offset,
    {
        let actual = sig[offset];
        let expected = signature_byte(offset);
        if actual != expected {
            assert(signature_difference(sig@, offset as int, end as int) == actual - expected);
            return actual as i32 - expected as i32;
        }
        offset = offset + 1;
    }
    0
}

/// Compares part of `sig` with the PNG signature, as libpng's function of
/// the same name does.
pub fn png_sig_cmp(sig: &[u8], start: usize, num_to_check: usize) -> (r: i32)
    ensures
        r == signature_comparison(sig@, start, num_to_check),
{
    compare_signature(sig, start, num_to_check)
}

} // verus!
