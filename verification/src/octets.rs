//! Small byte-level helpers shared by the parsers.
use vstd::prelude::*;

verus! {

/// `b` is an ASCII uppercase letter.
pub open spec fn is_upper(b: u8) -> bool {
    65 <= b <= 90
}

/// `b` is an ASCII lowercase letter.
pub open spec fn is_lower(b: u8) -> bool {
    97 <= b <= 122
}

/// `b` is an ASCII letter.
pub open spec fn is_letter(b: u8) -> bool {
    is_upper(b) || is_lower(b)
}

/// `b` is an ASCII decimal digit.
pub open spec fn is_digit(b: u8) -> bool {
    48 <= b <= 57
}

/// `b` is ASCII whitespace as `u8::is_ascii_whitespace` defines it
/// (space, tab, line feed, form feed, carriage return).
pub open spec fn is_ascii_space(b: u8) -> bool {
    b == 32 || b == 9 || b == 10 || b == 12 || b == 13
}

pub fn ascii_upper(b: u8) -> (r: bool)
    ensures
        r == is_upper(b),
{
    65 <= b && b <= 90
}

pub fn ascii_lower(b: u8) -> (r: bool)
    ensures
        r == is_lower(b),
{
    97 <= b && b <= 122
}

pub fn ascii_space(b: u8) -> (r: bool)
    ensures
        r == is_ascii_space(b),
{
    b == 32 || b == 9 || b == 10 || b == 12 || b == 13
}

/// Big-endian value of the four bytes of `s` starting at `i`.
pub open spec fn be_u32_at(s: Seq<u8>, i: int) -> int {
    s[i] * 16777216 + s[i + 1] * 65536 + s[i + 2] * 256 + s[i + 3]
}

/// Big-endian value of the two bytes of `s` starting at `i`.
pub open spec fn be_u16_at(s: Seq<u8>, i: int) -> int {
    s[i] * 256 + s[i + 1]
}

/// The four big-endian bytes of `v`.
pub open spec fn be_bytes_u32(v: u32) -> Seq<u8> {
    seq![(v / 16777216) as u8, ((v / 65536) % 256) as u8, ((v / 256) % 256) as u8, (v % 256) as u8]
}

/// Reads the big-endian `u32` at `i`.
pub fn read_be_u32(s: &[u8], i: usize) -> (r: u32)
    requires
        i + 4 <= s@.len(),
    ensures
        r == be_u32_at(s@, i as int),
{
    let r = (s[i] as u32) * 16777216 + (s[i + 1] as u32) * 65536 + (s[i + 2] as u32) * 256 + (s[i + 3] as u32);
    r
}

/// Writes the big-endian bytes of `v` after `out`.
pub fn push_be_u32(out: &mut Vec<u8>, v: u32)
    ensures
        final(out)@ == old(out)@ + be_bytes_u32(v),
{
    out.push((v / 16777216) as u8);
    out.push(((v / 65536) % 256) as u8);
    out.push(((v / 256) % 256) as u8);
    out.push((v % 256) as u8);
    assert(final(out)@ =~= old(out)@ + be_bytes_u32(v));
}

/// Decoding the encoding of a `u32` gives it back.
pub proof fn lemma_be_u32_roundtrip(v: u32)
    ensures
        be_u32_at(be_bytes_u32(v), 0) == v,
{
    let s = be_bytes_u32(v);
    assert(s[0] == v / 16777216);
    assert(s[1] == (v / 65536) % 256);
    assert(s[2] == (v / 256) % 256);
    assert(s[3] == v % 256);
    assert((v / 16777216) * 16777216 + ((v / 65536) % 256) * 65536 + ((v / 256) % 256) * 256 + v % 256 == v) by (nonlinear_arith);
}

/// Appends every byte of `s` to `out`.
pub fn extend_bytes(out: &mut Vec<u8>, s: &[u8])
    ensures
        final(out)@ == old(out)@ + s@,
{
    let mut i: usize = 0;
    while i < s.len()
        invariant
            i <= s@.len(),
            out@ == old(out)@ + s@.subrange(0, i as int),
        decreases s@.len() - i,
    {
        out.push(s[i]);
        i = i + 1;
        assert(out@ =~= old(out)@ + s@.subrange(0, i as int));
    }
    assert(s@.subrange(0, s@.len() as int) =~= s@);
}

} // verus!

verus! {

/// `(a + b) mod 256`, the wrapping sum of two bytes.
pub fn add_mod256(a: u8, b: u8) -> (r: u8)
    ensures
        r == (a + b) % 256,
{
    let s: u16 = a as u16 + b as u16;
    (s % 256) as u8
}

/// `(a - b) mod 256`, the wrapping difference of two bytes.
pub fn sub_mod256(a: u8, b: u8) -> (r: u8)
    ensures
        r == (a - b + 256) % 256,
{
    let s: u16 = a as u16 + 256 - b as u16;
    (s % 256) as u8
}

/// Adding back what was subtracted gives the byte.
pub proof fn lemma_add_sub_mod256(a: u8, b: u8)
    ensures
        (((a - b + 256) % 256) + b) % 256 == a,
{
}

/// The absolute value of an integer.
pub open spec fn abs(x: int) -> int {
    if x < 0 { -x } else { x }
}

/// The Paeth predictor of the PNG specification.
pub open spec fn paeth(left: u8, up: u8, up_left: u8) -> u8 {
    let p = left + up - up_left;
    let pa = abs(p - left);
    let pb = abs(p - up);
    let pc = abs(p - up_left);
    if pa <= pb && pa <= pc {
        left
    } else if pb <= pc {
        up
    } else {
        up_left
    }
}

/// How far the byte `x` lies from the estimate `e`.
pub open spec fn distance_to(e: int, x: u8) -> int {
    if e >= x { e - x } else { x - e }
}

/// The Paeth predictor picks, among left, upper and upper-left, a byte
/// nearest to the estimate `left + up - up_left`; on a tie the left byte
/// wins over the upper one, and the upper one over the upper-left one.
pub proof fn law_paeth_nearest(left: u8, up: u8, up_left: u8)
    ensures
        ({
            let e = left + up - up_left;
            let r = paeth(left, up, up_left);
            &&& r == left || r == up || r == up_left
            &&& distance_to(e, r) <= distance_to(e, left)
            &&& distance_to(e, r) <= distance_to(e, up)
            &&& distance_to(e, r) <= distance_to(e, up_left)
            &&& (distance_to(e, left) <= distance_to(e, up) && distance_to(e, left) <= distance_to(e, up_left)) ==> r == left
            &&& (distance_to(e, up) < distance_to(e, left) && distance_to(e, up) <= distance_to(e, up_left)) ==> r == up
            &&& (distance_to(e, up_left) < distance_to(e, left) && distance_to(e, up_left) < distance_to(e, up)) ==> r == up_left
        }),
{
}

/// Chooses among the left, upper and upper-left bytes as the Paeth filter does.
pub fn paeth_predictor(left: u8, up: u8, up_left: u8) -> (r: u8)
    ensures
        r == paeth(left, up, up_left),
{
    let l = left as i32;
    let u = up as i32;
    let ul = up_left as i32;
    let p = l + u - ul;
    let pa = if p >= l { p - l } else { l - p };
    let pb = if p >= u { p - u } else { u - p };
    let pc = if p >= ul { p - ul } else { ul - p };
    if pa <= pb && pa <= pc {
        left
    } else if pb <= pc {
        up
    } else {
        up_left
    }
}

} // verus!
