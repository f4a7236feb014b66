//! HTTP/1.1 requests: the request line, header fields and a body framed by
//! `Content-Length` or chunked transfer coding. `compat` reads a head into
//! views of the text it was given and splits a chunked body into its
//! chunks; `native` collects a whole request, given in pieces, into owned
//! strings.
use vstd::prelude::*;
use vstd::utf8::{valid_utf8, decode_utf8, is_char_boundary, is_continuation_byte};
use vstd::string::StringSliceAdditionalSpecFns;

pub mod compat;
pub mod native;

verus! {

/// The whitespace bytes of ASCII: space, tab, line feed, form feed and
/// carriage return.
pub open spec fn is_space_byte(x: u8) -> bool {
    x == 32 || x == 9 || x == 10 || x == 12 || x == 13
}

/// What a byte scan stops at.
pub enum ByteStop {
    /// The given byte.
    Is(u8),
    /// An ASCII whitespace byte.
    Space,
    /// Anything but an ASCII whitespace byte.
    NotSpace,
}

/// Whether a scan for `k` stops at `x`.
pub open spec fn byte_stops_at(x: u8, k: ByteStop) -> bool {
    match k {
        ByteStop::Is(y) => x == y,
        ByteStop::Space => is_space_byte(x),
        ByteStop::NotSpace => !is_space_byte(x),
    }
}

/// The first position in `from..to` where a scan for `k` stops, or `to`.
pub open spec fn first_byte(b: Seq<u8>, from: int, to: int, k: ByteStop) -> int
    decreases to - from,
{
    if from >= to {
        to
    } else if byte_stops_at(b[from], k) {
        from
    } else {
        first_byte(b, from + 1, to, k)
    }
}

/// Whether `\r\n` starts at `i` and ends before `to`.
pub open spec fn crlf_at(b: Seq<u8>, i: int, to: int) -> bool {
    0 <= i && i + 1 < to && b[i] == 13 && b[i + 1] == 10
}

/// The first position in `from..to` where `\r\n` starts and ends before
/// `to`, or `to`.
pub open spec fn next_crlf(b: Seq<u8>, from: int, to: int) -> int
    decreases to - from,
{
    if from >= to {
        to
    } else if crlf_at(b, from, to) {
        from
    } else {
        next_crlf(b, from + 1, to)
    }
}

/// Whether the blank line `\r\n\r\n` starts at `i`.
pub open spec fn blank_line_at(b: Seq<u8>, i: int) -> bool {
    crlf_at(b, i, b.len() as int) && crlf_at(b, i + 2, b.len() as int)
}

/// The first position at or after `from` where `\r\n\r\n` starts, or the
/// length: the end of a request head.
pub open spec fn head_end_from(b: Seq<u8>, from: int) -> int
    decreases b.len() - from,
{
    if from >= b.len() {
        b.len() as int
    } else if blank_line_at(b, from) {
        from
    } else {
        head_end_from(b, from + 1)
    }
}

/// Where a search for the end of a head finds it, the blank line is there.
pub(crate) proof fn lemma_head_end_found(b: Seq<u8>, from: int)
    requires
        0 <= from,
    ensures
        head_end_from(b, from) < b.len() ==> blank_line_at(b, head_end_from(b, from)) && from <= head_end_from(b, from),
    decreases b.len() - from,
{
    if from < b.len() && !blank_line_at(b, from) {
        lemma_head_end_found(b, from + 1);
    }
}

/// The value of a digit in the given radix (at most 36), if it is one.
pub open spec fn digit_value(x: u8, radix: int) -> Option<int> {
    let v: int = if 48 <= x <= 57 {
        x - 48
    } else if 97 <= x <= 122 {
        x - 87
    } else if 65 <= x <= 90 {
        x - 55
    } else {
        radix
    };
    if v < radix { Some(v) } else { None }
}

/// Whether every byte of `s` is a digit in the radix.
pub open spec fn all_digits(s: Seq<u8>, radix: int) -> bool {
    forall|i: int| 0 <= i < s.len() ==> (#[trigger] digit_value(s[i], radix)) is Some
}

/// The number that the digits `s` write in the radix.
pub open spec fn digits_value(s: Seq<u8>, radix: int) -> int
    decreases s.len(),
{
    if s.len() == 0 {
        0
    } else {
        digits_value(s.drop_last(), radix) * radix + digit_value(s.last(), radix)->0
    }
}

/// The `usize` that `s` writes in the radix, as `usize::from_str_radix`
/// reads it: an optional `+`, then one or more digits, with a value that
/// fits.
pub open spec fn parse_radix(s: Seq<u8>, radix: int) -> Option<int> {
    let digits = if s.len() > 0 && s[0] == 43 { s.drop_first() } else { s };
    if digits.len() == 0 || !all_digits(digits, radix) || digits_value(digits, radix) > usize::MAX {
        None
    } else {
        Some(digits_value(digits, radix))
    }
}

/// Whether `i` is the start of a character, or the end, in valid UTF-8
/// text: the text's bounds, or next to an ASCII byte.
pub open spec fn ascii_edge(b: Seq<u8>, i: int) -> bool {
    ||| i == 0
    ||| i == b.len()
    ||| (0 <= i < b.len() && b[i] < 0x80)
    ||| (0 < i <= b.len() && b[i - 1] < 0x80)
}

/// A position next to an ASCII byte is a character boundary.
pub proof fn lemma_ascii_edge(b: Seq<u8>, i: int)
    requires
        valid_utf8(b),
        0 <= i <= b.len(),
        ascii_edge(b, i),
    ensures
        is_char_boundary(b, i),
{
    vstd::utf8::is_char_boundary_start_end_of_seq(b);
    if i == 0 || i == b.len() {
    } else if b[i] < 0x80 {
        vstd::utf8::is_char_boundary_iff_not_is_continuation_byte(b, i);
    } else {
        let k = i - 1;
        vstd::utf8::is_char_boundary_iff_not_is_continuation_byte(b, k);
        vstd::utf8::valid_utf8_split(b, k);
        let rest = b.subrange(k, b.len() as int);
        assert(rest[0] == b[k]);
        assert(valid_utf8(rest));
        assert(vstd::utf8::pop_first_scalar(rest) =~= b.subrange(i, b.len() as int));
        let tail = b.subrange(i, b.len() as int);
        assert(valid_utf8(tail));
        assert(tail[0] == b[i]);
        assert(!is_continuation_byte(b[i]));
        vstd::utf8::is_char_boundary_iff_not_is_continuation_byte(b, i);
    }
}

/// The text of `s` between two byte positions, as `&s[a..b]` gives it.
pub(crate) fn str_slice(s: &str, a: usize, b: usize) -> (r: &str)
    requires
        a <= b <= s.spec_bytes().len(),
        is_char_boundary(s.spec_bytes(), a as int),
        is_char_boundary(s.spec_bytes(), b as int),
    ensures
        r.spec_bytes() == s.spec_bytes().subrange(a as int, b as int),
        r@ == decode_utf8(s.spec_bytes().subrange(a as int, b as int)),
{
    broadcast use vstd::utf8::encode_utf8_valid_utf8, vstd::utf8::encode_utf8_decode_utf8;
    let ghost whole = s.spec_bytes();
    let (_, tail) = s.split_at(a);
    let ghost rest = tail.spec_bytes();
    assert(rest =~= whole.subrange(a as int, whole.len() as int));
    proof {
        vstd::utf8::is_char_boundary_start_end_of_seq(rest);
        if b < whole.len() {
            vstd::utf8::is_char_boundary_iff_not_is_continuation_byte(whole, b as int);
            assert(rest[b - a] == whole[b as int]);
            vstd::utf8::is_char_boundary_iff_not_is_continuation_byte(rest, b - a);
        }
    }
    let (mid, _) = tail.split_at(b - a);
    assert(mid.spec_bytes() =~= whole.subrange(a as int, b as int));
    mid
}

/// The first position in `b[from..to]` where a scan for `k` stops, or `to`.
pub(crate) fn scan_bytes(b: &[u8], from: usize, to: usize, k: &ByteStop) -> (j: usize)
    requires
        from <= to <= b@.len(),
    ensures
        j as int == first_byte(b@, from as int, to as int, *k),
        from <= j <= to,
        forall|i: int| from <= i < j ==> !byte_stops_at(#[trigger] b@[i], *k),
        j < to ==> byte_stops_at(b@[j as int], *k),
{
    let mut j = from;
    while j < to && !byte_stops(b[j], k)
        invariant
            from <= j <= to <= b@.len(),
            forall|i: int| from <= i < j ==> !byte_stops_at(#[trigger] b@[i], *k),
        decreases to - j,
    {
        j += 1;
    }
    proof {
        lemma_first_byte(b@, from as int, to as int, *k, j as int);
    }
    j
}

/// Whether a scan for `k` stops at `x`.
fn byte_stops(x: u8, k: &ByteStop) -> (r: bool)
    ensures
        r == byte_stops_at(x, *k),
{
    match k {
        ByteStop::Is(y) => x == *y,
        ByteStop::Space => x == 32 || x == 9 || x == 10 || x == 12 || x == 13,
        ByteStop::NotSpace => !(x == 32 || x == 9 || x == 10 || x == 12 || x == 13),
    }
}

/// A position found by scanning is the first match.
pub proof fn lemma_first_byte(b: Seq<u8>, from: int, to: int, k: ByteStop, j: int)
    requires
        from <= j <= to,
        forall|i: int| from <= i < j ==> !byte_stops_at(#[trigger] b[i], k),
        j == to || byte_stops_at(b[j], k),
    ensures
        first_byte(b, from, to, k) == j,
    decreases j - from,
{
    if from < j {
        lemma_first_byte(b, from + 1, to, k, j);
    }
}

/// What a byte scan finds lies in `from..=to`.
pub proof fn lemma_first_byte_bounds(b: Seq<u8>, from: int, to: int, k: ByteStop)
    requires
        from <= to,
    ensures
        from <= first_byte(b, from, to, k) <= to,
    decreases to - from,
{
    if from < to && !byte_stops_at(b[from], k) {
        lemma_first_byte_bounds(b, from + 1, to, k);
    }
}

/// What a search for `\r\n` finds lies in `from..=to`, and where it is
/// found, it is there.
pub proof fn lemma_next_crlf_bounds(b: Seq<u8>, from: int, to: int)
    requires
        0 <= from <= to,
    ensures
        from <= next_crlf(b, from, to) <= to,
        next_crlf(b, from, to) < to ==> crlf_at(b, next_crlf(b, from, to), to),
    decreases to - from,
{
    if from < to && !crlf_at(b, from, to) {
        lemma_next_crlf_bounds(b, from + 1, to);
    }
}

/// The first position in `b[from..to]` where `\r\n` starts and ends before
/// `to`, or `to`.
pub(crate) fn find_crlf(b: &[u8], from: usize, to: usize) -> (j: usize)
    requires
        from <= to <= b@.len(),
    ensures
        j as int == next_crlf(b@, from as int, to as int),
        from <= j <= to,
        j < to ==> crlf_at(b@, j as int, to as int),
{
    let mut j = from;
    while j < to && !(j + 1 < to && b[j] == 13 && b[j + 1] == 10)
        invariant
            from <= j <= to <= b@.len(),
            next_crlf(b@, j as int, to as int) == next_crlf(b@, from as int, to as int),
        decreases to - j,
    {
        j += 1;
    }
    j
}

/// The first position where `\r\n\r\n` starts, or the length.
pub(crate) fn find_head_end(b: &[u8]) -> (j: usize)
    ensures
        j as int == head_end_from(b@, 0),
        j < b@.len() ==> blank_line_at(b@, j as int),
        j <= b@.len(),
{
    let mut j: usize = 0;
    while j < b.len() && !(b.len() - j > 3 && b[j] == 13 && b[j + 1] == 10 && b[j + 2] == 13 && b[j + 3] == 10)
        invariant
            j <= b@.len(),
            head_end_from(b@, j as int) == head_end_from(b@, 0),
        decreases b.len() - j,
    {
        j += 1;
    }
    j
}

/// The value of a digit in the radix, if it is one.
fn digit(x: u8, radix: usize) -> (r: Option<usize>)
    requires
        radix <= 36,
    ensures
        r matches Some(v) ==> digit_value(x, radix as int) == Some(v as int),
        r is None ==> digit_value(x, radix as int) is None,
{
    let v: usize = if 48 <= x && x <= 57 {
        (x - 48) as usize
    } else if 97 <= x && x <= 122 {
        (x - 87) as usize
    } else if 65 <= x && x <= 90 {
        (x - 55) as usize
    } else {
        radix
    };
    if v < radix { Some(v) } else { None }
}

/// Dropping digits from the end never makes the number larger.
proof fn lemma_digits_value_prefix(s: Seq<u8>, radix: int, k: int)
    requires
        1 <= radix,
        0 <= k <= s.len(),
        all_digits(s, radix),
    ensures
        0 <= digits_value(s.take(k), radix) <= digits_value(s, radix),
    decreases s.len() - k,
{
    lemma_digits_value_nonneg(s.take(k), radix);
    if k < s.len() {
        lemma_digits_value_prefix(s, radix, k + 1);
        let t = s.take(k + 1);
        assert(t.drop_last() =~= s.take(k));
        assert(digit_value(t.last(), radix) is Some);
        assert(digits_value(s.take(k), radix) * radix >= digits_value(s.take(k), radix)) by (nonlinear_arith)
            requires
                1 <= radix,
                0 <= digits_value(s.take(k), radix),
        ;
    } else {
        assert(s.take(k) =~= s);
    }
}

/// A number written with digits is not negative.
proof fn lemma_digits_value_nonneg(s: Seq<u8>, radix: int)
    requires
        1 <= radix,
        all_digits(s, radix),
    ensures
        0 <= digits_value(s, radix),
    decreases s.len(),
{
    if s.len() > 0 {
        assert(all_digits(s.drop_last(), radix)) by {
            assert forall|i: int| 0 <= i < s.drop_last().len() implies (#[trigger] digit_value(s.drop_last()[i], radix)) is Some by {
                assert(s.drop_last()[i] == s[i]);
            }
        }
        lemma_digits_value_nonneg(s.drop_last(), radix);
        assert(digit_value(s[s.len() - 1], radix) is Some);
        assert(digits_value(s.drop_last(), radix) * radix >= 0) by (nonlinear_arith)
            requires
                1 <= radix,
                0 <= digits_value(s.drop_last(), radix),
        ;
    }
}

/// A number read in a radix is not negative.
pub proof fn lemma_parse_radix_nonneg(s: Seq<u8>, radix: int)
    requires
        1 <= radix,
    ensures
        parse_radix(s, radix) matches Some(v) ==> v >= 0,
{
    let digits = if s.len() > 0 && s[0] == 43 { s.drop_first() } else { s };
    if all_digits(digits, radix) {
        lemma_digits_value_nonneg(digits, radix);
    }
}

/// Reads an unsigned number the way `usize::from_str_radix` does: an
/// optional `+`, then one or more digits of the radix, with a value that
/// fits in `usize`.
pub(crate) fn parse_radix_bytes(whole: &[u8], from: usize, to: usize, radix: usize) -> (r: Option<usize>)
    requires
        2 <= radix <= 36,
        from <= to <= whole@.len(),
    ensures
        match parse_radix(whole@.subrange(from as int, to as int), radix as int) {
            Some(v) => (r matches Some(x) && x as int == v),
            None => r is None,
        },
{
    let ghost s = whole@.subrange(from as int, to as int);
    let start: usize = if from < to && whole[from] == 43 { from + 1 } else { from };
    let ghost digits = if s.len() > 0 && s[0] == 43 { s.drop_first() } else { s };
    assert(digits =~= whole@.subrange(start as int, to as int));
    if start == to {
        return None;
    }
    let mut value: usize = 0;
    let mut i = start;
    while i < to
        invariant
            from <= start <= i <= to <= whole@.len(),
            s == whole@.subrange(from as int, to as int),
            digits =~= whole@.subrange(start as int, to as int),
            digits == (if s.len() > 0 && s[0] == 43 { s.drop_first() } else { s }),
            2 <= radix <= 36,
            all_digits(digits.take(i - start), radix as int),
            value as int == digits_value(digits.take(i - start), radix as int),
        decreases to - i,
    {
        let ghost k = i - start;
        assert(digits.take(k + 1).drop_last() =~= digits.take(k));
        assert(digits[k] == whole@[i as int]);
        let d = match digit(whole[i], radix) {
            Some(d) => d,
            None => {
                assert(!all_digits(digits, radix as int)) by {
                    assert(digit_value(digits[k], radix as int) is None);
                }
                return None;
            },
        };
        assert(all_digits(digits.take(k + 1), radix as int)) by {
            assert forall|j: int| 0 <= j < digits.take(k + 1).len() implies (#[trigger] digit_value(digits.take(k + 1)[j], radix as int)) is Some by {
                if j < k {
                    assert(digits.take(k + 1)[j] == digits.take(k)[j]);
                }
            }
        }
        let next = match value.checked_mul(radix) {
            Some(m) => m.checked_add(d),
            None => None,
        };
        match next {
            Some(n) => {
                value = n;
            },
            None => {
                proof {
                    if all_digits(digits, radix as int) {
                        lemma_digits_value_prefix(digits, radix as int, k + 1);
                    }
                }
                return None;
            },
        }
        i += 1;
    }
    assert(digits.take(i - start) =~= digits);
    Some(value)
}

} // verus!
