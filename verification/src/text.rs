//! Scanning sequences of characters: finding the first character of a
//! kind, telling whitespace apart, and trimming it.
use vstd::prelude::*;
use vstd::string::StringSliceAdditionalSpecFns;

verus! {

/// What a scan stops at.
pub enum Stop {
    /// The given character.
    Char(char),
    /// An ASCII whitespace character.
    AsciiSpace,
    /// Anything but an ASCII whitespace character.
    NotAsciiSpace,
    /// The given character or an ASCII whitespace character.
    CharOrAsciiSpace(char),
    /// A character with the Unicode `White_Space` property.
    WhiteSpace,
    /// A character without the Unicode `White_Space` property.
    NotWhiteSpace,
}

/// Whether a scan for `k` stops at `c`.
pub open spec fn stops_at(c: char, k: Stop) -> bool {
    match k {
        Stop::Char(x) => c == x,
        Stop::AsciiSpace => is_ascii_space(c),
        Stop::NotAsciiSpace => !is_ascii_space(c),
        Stop::CharOrAsciiSpace(x) => c == x || is_ascii_space(c),
        Stop::WhiteSpace => unicode_white_space(c),
        Stop::NotWhiteSpace => !unicode_white_space(c),
    }
}

/// The first position in `from..to` where a scan for `k` stops, or `to`
/// where it stops nowhere.
pub open spec fn first_match(s: Seq<char>, from: int, to: int, k: Stop) -> int
    decreases to - from,
{
    if from >= to {
        to
    } else if stops_at(s[from], k) {
        from
    } else {
        first_match(s, from + 1, to, k)
    }
}

/// A position found by scanning is the first match.
pub proof fn lemma_first_match(s: Seq<char>, from: int, to: int, k: Stop, j: int)
    requires
        from <= j <= to,
        forall|i: int| from <= i < j ==> !stops_at(#[trigger] s[i], k),
        j == to || stops_at(s[j], k),
    ensures
        first_match(s, from, to, k) == j,
    decreases j - from,
{
    if from < j {
        lemma_first_match(s, from + 1, to, k, j);
    }
}

/// What scanning finds lies in `from..=to`.
pub proof fn lemma_first_match_bounds(s: Seq<char>, from: int, to: int, k: Stop)
    requires
        from <= to,
    ensures
        from <= first_match(s, from, to, k) <= to,
    decreases to - from,
{
    if from < to && !stops_at(s[from], k) {
        lemma_first_match_bounds(s, from + 1, to, k);
    }
}

/// Whether a character has the Unicode `White_Space` property, as
/// `char::is_whitespace` reports it: U+0009 to U+000D, U+0020, U+0085,
/// U+00A0, U+1680, U+2000 to U+200A, U+2028, U+2029, U+202F, U+205F and
/// U+3000.
pub open spec fn unicode_white_space(c: char) -> bool {
    let v = c as u32;
    ||| 0x09 <= v <= 0x0d
    ||| v == 0x20
    ||| v == 0x85
    ||| v == 0xa0
    ||| v == 0x1680
    ||| 0x2000 <= v <= 0x200a
    ||| v == 0x2028
    ||| v == 0x2029
    ||| v == 0x202f
    ||| v == 0x205f
    ||| v == 0x3000
}

/// Whether `c` has the Unicode `White_Space` property.
pub(crate) fn white_space(c: char) -> (b: bool)
    ensures
        b == unicode_white_space(c),
{
    let v = c as u32;
    (0x09 <= v && v <= 0x0d) || v == 0x20 || v == 0x85 || v == 0xa0 || v == 0x1680 || (0x2000 <= v && v <= 0x200a) || v == 0x2028
        || v == 0x2029 || v == 0x202f || v == 0x205f || v == 0x3000
}

/// Whether a scan for `k` stops at `c`.
pub(crate) fn stops(c: char, k: &Stop) -> (b: bool)
    ensures
        b == stops_at(c, *k),
{
    match k {
        Stop::Char(x) => c == *x,
        Stop::AsciiSpace => ascii_space(c),
        Stop::NotAsciiSpace => !ascii_space(c),
        Stop::CharOrAsciiSpace(x) => c == *x || ascii_space(c),
        Stop::WhiteSpace => white_space(c),
        Stop::NotWhiteSpace => !white_space(c),
    }
}

/// Scans `s[from..to]` for the first character at which a scan for `k`
/// stops, and returns its position, or `to`.
pub(crate) fn scan(s: &Vec<char>, from: usize, to: usize, k: &Stop) -> (j: usize)
    requires
        from <= to <= s.len(),
    ensures
        j as int == first_match(s@, from as int, to as int, *k),
        from <= j <= to,
        forall|i: int| from <= i < j ==> !stops_at(#[trigger] s@[i], *k),
        j < to ==> stops_at(s@[j as int], *k),
{
    let mut j = from;
    while j < to && !stops(s[j], k)
        invariant
            from <= j <= to <= s.len(),
            forall|i: int| from <= i < j ==> !stops_at(#[trigger] s@[i], *k),
        decreases to - j,
    {
        j += 1;
    }
    proof {
        lemma_first_match(s@, from as int, to as int, *k, j as int);
    }
    j
}

/// The whitespace bytes of ASCII, as characters: space, tab, line feed, form
/// feed and carriage return.
pub open spec fn is_ascii_space(c: char) -> bool {
    c == ' ' || c == '\t' || c == '\n' || c == '\x0C' || c == '\r'
}

/// Whether `c` is one of the ASCII whitespace characters.
pub(crate) fn ascii_space(c: char) -> (b: bool)
    ensures
        b == is_ascii_space(c),
{
    c == ' ' || c == '\t' || c == '\n' || c == '\x0C' || c == '\r'
}

/// The characters `s[a..b]` as a string.
pub(crate) fn text_of(s: &Vec<char>, a: usize, b: usize) -> (r: String)
    requires
        a <= b <= s@.len(),
    ensures
        r@ == s@.subrange(a as int, b as int),
{
    let mut out = String::new();
    let mut k = a;
    while k < b
        invariant
            a <= k <= b <= s@.len(),
            out@ == s@.subrange(a as int, k as int),
        decreases b - k,
    {
        push_char(&mut out, s[k]);
        k = k + 1;
        assert(out@ =~= s@.subrange(a as int, k as int));
    }
    out
}

/// Whether two strings are the same text.
pub(crate) fn same_text(a: &str, b: &str) -> (r: bool)
    ensures
        r == (a@ == b@),
{
    broadcast use vstd::utf8::encode_utf8_decode_utf8;
    let x = a.as_bytes();
    let y = b.as_bytes();
    if x.len() != y.len() {
        return false;
    }
    let mut i: usize = 0;
    while i < x.len()
        invariant
            x@ == a.spec_bytes(),
            y@ == b.spec_bytes(),
            x@.len() == y@.len(),
            i <= x@.len(),
            forall|k: int| 0 <= k < i ==> x@[k] == y@[k],
        decreases x@.len() - i,
    {
        if x[i] != y[i] {
            proof {
                if a@ == b@ {
                    assert(x@ == y@);
                    assert(x@[i as int] == y@[i as int]);
                }
            }
            return false;
        }
        i += 1;
    }
    assert(x@ =~= y@);
    assert(vstd::utf8::decode_utf8(vstd::utf8::encode_utf8(a@)) == a@);
    true
}

/// The characters of a string, in order.
pub(crate) fn chars_of(s: &str) -> (v: Vec<char>)
    ensures
        v@ == s@,
{
    let mut v: Vec<char> = Vec::new();
    for c in it: s.chars()
        invariant
            it.seq() == s@,
            v@ == s@.take(it.index() as int),
    {
        v.push(c);
    }
    v
}

/// Appends a character to a string with `String::push`, which the
/// documentation describes as appending the given `char` to the end of the
/// string.
#[verifier::external_body]
pub(crate) fn push_char(s: &mut String, c: char)
    ensures
        final(s)@ == old(s)@.push(c),
{
    s.push(c);
}

/// The end of `s[lo..hi]` once trailing whitespace is dropped.
pub open spec fn trim_end_at(s: Seq<char>, lo: int, hi: int) -> int
    decreases hi - lo,
{
    if hi <= lo {
        lo
    } else if unicode_white_space(s[hi - 1]) {
        trim_end_at(s, lo, hi - 1)
    } else {
        hi
    }
}

/// `s` without leading and trailing Unicode whitespace.
pub open spec fn trimmed(s: Seq<char>) -> Seq<char> {
    let start = first_match(s, 0, s.len() as int, Stop::NotWhiteSpace);
    s.subrange(start, trim_end_at(s, start, s.len() as int))
}

/// What trimming keeps lies within the string.
pub proof fn lemma_trim_end_at_bounds(s: Seq<char>, lo: int, hi: int)
    requires
        lo <= hi,
    ensures
        lo <= trim_end_at(s, lo, hi) <= hi,
    decreases hi - lo,
{
    if lo < hi && unicode_white_space(s[hi - 1]) {
        lemma_trim_end_at_bounds(s, lo, hi - 1);
    }
}

/// `s` without leading and trailing Unicode whitespace, as `str::trim`
/// gives it.
pub fn trim_str(s: &str) -> (r: &str)
    ensures
        r@ == trimmed(s@),
{
    let chars = chars_of(s);
    let start = scan(&chars, 0, chars.len(), &Stop::NotWhiteSpace);
    let mut end = chars.len();
    while end > start && white_space(chars[end - 1])
        invariant
            start <= end <= chars.len(),
            chars@ == s@,
            trim_end_at(s@, start as int, end as int) == trim_end_at(s@, start as int, s@.len() as int),
        decreases end,
    {
        end -= 1;
    }
    s.substring_char(start, end)
}

} // verus!
