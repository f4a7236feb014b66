//! Minifying JSON text: whitespace between tokens and `//` and `/* */`
//! comments are dropped; strings are copied as they are.
use vstd::prelude::*;
use vstd::utf8::{encode_utf8, encode_scalar};
use vstd::string::StringSliceAdditionalSpecFns;
use crate::text::{chars_of, push_char};

verus! {

/// Why text cannot be minified; `pos` is the byte offset of the opening
/// quote or comment.
#[derive(Debug, PartialEq, Eq)]
pub enum MinifyError {
    UnterminatedString { pos: usize },
    UnterminatedBlockComment { pos: usize },
}

/// The byte offset of character `i` of `s` in its UTF-8 encoding.
pub open spec fn byte_pos(s: Seq<char>, i: int) -> int {
    encode_utf8(s.subrange(0, i)).len() as int
}

/// Where a string whose content starts at `k` ends (just after its closing
/// quote); a backslash escapes the character after it.
pub open spec fn string_end(s: Seq<char>, k: int) -> Option<int>
    decreases s.len() - k,
{
    if k < 0 || k >= s.len() {
        None
    } else if s[k] == '"' {
        Some(k + 1)
    } else if s[k] == '\\' {
        if k + 1 >= s.len() {
            None
        } else {
            string_end(s, k + 2)
        }
    } else {
        string_end(s, k + 1)
    }
}

/// Where a line comment whose text starts at `k` ends: just after the first
/// line break, or at the end.
pub open spec fn line_comment_end(s: Seq<char>, k: int) -> int
    decreases s.len() - k,
{
    if k < 0 || k >= s.len() {
        s.len() as int
    } else if s[k] == '\n' || s[k] == '\r' {
        k + 1
    } else {
        line_comment_end(s, k + 1)
    }
}

/// Where a block comment whose text starts at `k` ends: just after the
/// first `*/`.
pub open spec fn block_comment_end(s: Seq<char>, k: int) -> Option<int>
    decreases s.len() - k,
{
    if k < 0 || k >= s.len() {
        None
    } else if s[k] == '*' && k + 1 < s.len() && s[k + 1] == '/' {
        Some(k + 2)
    } else {
        block_comment_end(s, k + 1)
    }
}

/// Text kept before a position, put in front of what minifying from that
/// position gives.
pub open spec fn keep_then(kept: Seq<char>, r: Result<Seq<char>, MinifyError>) -> Result<Seq<char>, MinifyError> {
    match r {
        Ok(rest) => Ok(kept + rest),
        Err(e) => Err(e),
    }
}

/// Whether `c` is whitespace between JSON tokens.
pub open spec fn is_json_space(c: char) -> bool {
    c == ' ' || c == '\n' || c == '\r' || c == '\t'
}

/// Minifying `s` from position `i` on.
pub open spec fn minify_from(s: Seq<char>, i: int) -> Result<Seq<char>, MinifyError>
    decreases s.len() - i,
{
    if i < 0 || i >= s.len() {
        Ok(Seq::empty())
    } else if is_json_space(s[i]) {
        minify_from(s, i + 1)
    } else if s[i] == '"' {
        match string_end(s, i + 1) {
            None => Err(MinifyError::UnterminatedString { pos: byte_pos(s, i) as usize }),
            Some(j) => {
                proof {
                    lemma_string_end_bounds(s, i + 1);
                }
                keep_then(s.subrange(i, j), minify_from(s, j))
            },
        }
    } else if s[i] == '/' && i + 1 < s.len() && s[i + 1] == '/' {
        proof {
            lemma_line_comment_end_bounds(s, i + 2);
        }
        minify_from(s, line_comment_end(s, i + 2))
    } else if s[i] == '/' && i + 1 < s.len() && s[i + 1] == '*' {
        match block_comment_end(s, i + 2) {
            None => Err(MinifyError::UnterminatedBlockComment { pos: byte_pos(s, i) as usize }),
            Some(j) => {
                proof {
                    lemma_block_comment_end_bounds(s, i + 2);
                }
                minify_from(s, j)
            },
        }
    } else {
        keep_then(seq![s[i]], minify_from(s, i + 1))
    }
}

/// A string ends after it starts and within the text.
pub proof fn lemma_string_end_bounds(s: Seq<char>, k: int)
    ensures
        string_end(s, k) matches Some(j) ==> k < j <= s.len(),
    decreases s.len() - k,
{
    if 0 <= k < s.len() && s[k] != '"' {
        if s[k] == '\\' {
            if k + 1 < s.len() {
                lemma_string_end_bounds(s, k + 2);
            }
        } else {
            lemma_string_end_bounds(s, k + 1);
        }
    }
}

/// A line comment ends after it starts and within the text.
pub proof fn lemma_line_comment_end_bounds(s: Seq<char>, k: int)
    requires
        0 <= k,
    ensures
        k <= line_comment_end(s, k) <= s.len() || (k > s.len() && line_comment_end(s, k) == s.len()),
    decreases s.len() - k,
{
    if 0 <= k < s.len() && !(s[k] == '\n' || s[k] == '\r') {
        lemma_line_comment_end_bounds(s, k + 1);
    }
}

/// A block comment ends after it starts and within the text.
pub proof fn lemma_block_comment_end_bounds(s: Seq<char>, k: int)
    ensures
        block_comment_end(s, k) matches Some(j) ==> k < j <= s.len(),
    decreases s.len() - k,
{
    if 0 <= k < s.len() && !(s[k] == '*' && k + 1 < s.len() && s[k + 1] == '/') {
        lemma_block_comment_end_bounds(s, k + 1);
    }
}

/// Encoding two texts one after the other is encoding each in turn.
pub proof fn lemma_encode_utf8_concat(a: Seq<char>, b: Seq<char>)
    ensures
        encode_utf8(a + b) == encode_utf8(a) + encode_utf8(b),
    decreases a.len(),
{
    if a.len() == 0 {
        assert(a + b =~= b);
    } else {
        assert((a + b).drop_first() =~= a.drop_first() + b);
        lemma_encode_utf8_concat(a.drop_first(), b);
        assert(encode_scalar(a[0] as u32) + (encode_utf8(a.drop_first()) + encode_utf8(b))
            =~= (encode_scalar(a[0] as u32) + encode_utf8(a.drop_first())) + encode_utf8(b));
    }
}

/// The byte offset of a character lies within the encoding.
pub proof fn lemma_byte_pos_bound(s: Seq<char>, i: int)
    requires
        0 <= i <= s.len(),
    ensures
        byte_pos(s, i) <= encode_utf8(s).len(),
{
    lemma_encode_utf8_concat(s.subrange(0, i), s.subrange(i, s.len() as int));
    assert(s.subrange(0, i) + s.subrange(i, s.len() as int) =~= s);
}

/// Whether text from `i` on holds no whitespace outside its strings: each
/// quote there opens a string that closes, and no other character outside
/// a string is a space, tab, line feed or carriage return.
pub open spec fn spaceless_outside_strings(t: Seq<char>, i: int) -> bool
    decreases t.len() - i,
{
    if i < 0 || i >= t.len() {
        true
    } else if t[i] == '"' {
        proof {
            lemma_string_end_bounds(t, i + 1);
        }
        match string_end(t, i + 1) {
            Some(j) => spaceless_outside_strings(t, j),
            None => false,
        }
    } else {
        t[i] != ' ' && t[i] != '\t' && t[i] != '\n' && t[i] != '\r' && spaceless_outside_strings(t, i + 1)
    }
}

/// Where a string ends depends only on what follows where it starts.
proof fn lemma_string_end_shift(p: Seq<char>, r: Seq<char>, m: int)
    requires
        0 <= m,
    ensures
        string_end(p + r, p.len() + m) == match string_end(r, m) {
            Some(j) => Some(j + p.len()),
            None => None::<int>,
        },
    decreases r.len() - m,
{
    let t = p + r;
    if m < r.len() {
        assert(t[p.len() + m] == r[m]);
        if r[m] != '"' {
            if r[m] == '\\' {
                if m + 1 < r.len() {
                    lemma_string_end_shift(p, r, m + 2);
                }
            } else {
                lemma_string_end_shift(p, r, m + 1);
            }
        }
    }
}

/// A string reads the same wherever its characters are copied.
proof fn lemma_string_end_copy(s: Seq<char>, k: int, j: int, t: Seq<char>, d: int)
    requires
        0 <= k,
        0 <= k + d,
        string_end(s, k) == Some(j),
        j + d <= t.len(),
        forall|m: int| k <= m < j ==> #[trigger] t[m + d] == s[m],
    ensures
        string_end(t, k + d) == Some(j + d),
    decreases s.len() - k,
{
    lemma_string_end_bounds(s, k);
    assert(t[k + d] == s[k]);
    if s[k] != '"' {
        if s[k] == '\\' {
            lemma_string_end_bounds(s, k + 2);
            lemma_string_end_copy(s, k + 2, j, t, d);
            assert(k + d + 2 == (k + 2) + d);
        } else {
            lemma_string_end_copy(s, k + 1, j, t, d);
            assert(k + d + 1 == (k + 1) + d);
        }
    }
}

/// Text put in front changes nothing about what follows it.
proof fn lemma_spaceless_shift(p: Seq<char>, r: Seq<char>, m: int)
    requires
        0 <= m,
    ensures
        spaceless_outside_strings(p + r, p.len() + m) == spaceless_outside_strings(r, m),
    decreases r.len() - m,
{
    let t = p + r;
    if m < r.len() {
        assert(t[p.len() + m] == r[m]);
        if r[m] == '"' {
            lemma_string_end_shift(p, r, m + 1);
            lemma_string_end_bounds(r, m + 1);
            match string_end(r, m + 1) {
                Some(j) => {
                    lemma_spaceless_shift(p, r, j);
                },
                None => {},
            }
        } else {
            lemma_spaceless_shift(p, r, m + 1);
        }
    }
}

/// Minified text holds no whitespace outside its strings: spaces, tabs,
/// carriage returns and line feeds between tokens are all dropped.
pub proof fn law_minified_spaceless(s: Seq<char>, i: int)
    ensures
        minify_from(s, i) matches Ok(t) ==> spaceless_outside_strings(t, 0),
    decreases s.len() - i,
{
    if 0 <= i < s.len() {
        if is_json_space(s[i]) {
            law_minified_spaceless(s, i + 1);
        } else if s[i] == '"' {
            lemma_string_end_bounds(s, i + 1);
            match string_end(s, i + 1) {
                Some(j) => {
                    law_minified_spaceless(s, j);
                    match minify_from(s, j) {
                        Ok(rest) => {
                            let seg = s.subrange(i, j);
                            let t = seg + rest;
                            assert(t[0] == '"');
                            assert forall|m: int| i + 1 <= m < j implies #[trigger] t[m + (-i)] == s[m] by {
                                assert(t[m - i] == seg[m - i]);
                            }
                            lemma_string_end_copy(s, i + 1, j, t, -i);
                            assert(string_end(t, 1) == Some(j - i));
                            lemma_spaceless_shift(seg, rest, 0);
                            assert(seg.len() + 0 == j - i);
                        },
                        Err(_) => {},
                    }
                },
                None => {},
            }
        } else if s[i] == '/' && i + 1 < s.len() && s[i + 1] == '/' {
            lemma_line_comment_end_bounds(s, i + 2);
            law_minified_spaceless(s, line_comment_end(s, i + 2));
        } else if s[i] == '/' && i + 1 < s.len() && s[i + 1] == '*' {
            lemma_block_comment_end_bounds(s, i + 2);
            match block_comment_end(s, i + 2) {
                Some(j) => law_minified_spaceless(s, j),
                None => {},
            }
        } else {
            law_minified_spaceless(s, i + 1);
            match minify_from(s, i + 1) {
                Ok(rest) => {
                    let t = seq![s[i]] + rest;
                    assert(t[0] == s[i]);
                    lemma_spaceless_shift(seq![s[i]], rest, 0);
                },
                Err(_) => {},
            }
        }
    }
}

/// The number of bytes in the UTF-8 encoding of `c`.
fn utf8_len(c: char) -> (n: usize)
    ensures
        n == encode_scalar(c as u32).len(),
{
    broadcast use vstd::utf8::char_is_scalar;
    let u = c as u32;
    if u <= 0x7F {
        1
    } else if u <= 0x7FF {
        2
    } else if u <= 0xFFFF {
        3
    } else {
        4
    }
}

/// The byte offset of character `i` of `s`.
pub(crate) fn byte_offset(s: &Vec<char>, i: usize, total: usize) -> (r: usize)
    requires
        i <= s.len(),
        encode_utf8(s@).len() == total,
    ensures
        r as int == byte_pos(s@, i as int),
{
    let mut k: usize = 0;
    let mut pos: usize = 0;
    while k < i
        invariant
            k <= i <= s.len(),
            encode_utf8(s@).len() == total,
            pos as int == byte_pos(s@, k as int),
        decreases i - k,
    {
        proof {
            lemma_encode_utf8_concat(s@.subrange(0, k as int), seq![s@[k as int]]);
            assert(s@.subrange(0, k as int) + seq![s@[k as int]] =~= s@.subrange(0, k + 1));
            assert(seq![s@[k as int]].drop_first() =~= Seq::<char>::empty());
            assert(encode_utf8(Seq::<char>::empty()) =~= Seq::<u8>::empty());
            assert(encode_utf8(seq![s@[k as int]]) =~= encode_scalar(s@[k as int] as u32));
            lemma_encode_utf8_concat(s@.subrange(0, k + 1), s@.subrange(k + 1, s@.len() as int));
            assert(s@.subrange(0, k + 1) + s@.subrange(k + 1, s@.len() as int) =~= s@);
        }
        pos = pos + utf8_len(s[k]);
        k += 1;
    }
    pos
}

/// Minifies JSON text: whitespace between tokens and `//` and `/* */`
/// comments are dropped, strings (with their escapes) are copied as they
/// are, every other character is kept. An unterminated string or block
/// comment is refused with the byte offset where it starts.
pub fn minify_json(input: &str) -> (r: Result<String, MinifyError>)
    ensures
        match minify_from(input@, 0) {
            Ok(text) => (r matches Ok(out) && out@ == text),
            Err(e) => r == Err::<String, MinifyError>(e),
        },
{
    let s = chars_of(input);
    let total = input.as_bytes().len();
    let mut out = String::new();
    let mut i: usize = 0;
    while i < s.len()
        invariant
            s@ == input@,
            total == encode_utf8(s@).len(),
            i <= s.len(),
            minify_from(s@, 0) == keep_then(out@, minify_from(s@, i as int)),
        decreases s.len() - i,
    {
        let c = s[i];
        let ghost kept = out@;
        if c == ' ' || c == '\n' || c == '\r' || c == '\t' {
            i += 1;
        } else if c == '"' {
            let start = i;
            push_char(&mut out, c);
            i += 1;
            loop
                invariant_except_break
                    string_end(s@, start + 1) == string_end(s@, i as int),
                invariant
                    s@ == input@,
                    total == encode_utf8(s@).len(),
                    start < i <= s.len(),
                    s@[start as int] == '"',
                    minify_from(s@, 0) == keep_then(kept, minify_from(s@, start as int)),
                    out@ == kept + s@.subrange(start as int, i as int),
                ensures
                    string_end(s@, start + 1) == Some(i as int),
                decreases s.len() - i,
            {
                if i >= s.len() {
                    let pos = byte_offset(&s, start, total);
                    return Err(MinifyError::UnterminatedString { pos });
                }
                let ghost at = i as int;
                let ch = s[i];
                push_char(&mut out, ch);
                i += 1;
                assert(out@ =~= kept + s@.subrange(start as int, i as int));
                if ch == '"' {
                    break;
                }
                if ch == '\\' {
                    if i >= s.len() {
                        let pos = byte_offset(&s, start, total);
                        return Err(MinifyError::UnterminatedString { pos });
                    }
                    let escaped = s[i];
                    push_char(&mut out, escaped);
                    i += 1;
                    assert(out@ =~= kept + s@.subrange(start as int, i as int));
                }
            }
            proof {
                let j = i as int;
                match minify_from(s@, j) {
                    Ok(rest) => {
                        assert(kept + (s@.subrange(start as int, j) + rest) =~= (kept + s@.subrange(start as int, j)) + rest);
                    },
                    Err(_) => {},
                }
            }
        } else if c == '/' && i + 1 < s.len() && s[i + 1] == '/' {
            let ghost start = i as int;
            i += 2;
            while i < s.len() && s[i] != '\n' && s[i] != '\r'
                invariant
                    start + 2 <= i <= s.len(),
                    line_comment_end(s@, start + 2) == line_comment_end(s@, i as int),
                decreases s.len() - i,
            {
                i += 1;
            }
            if i < s.len() {
                i += 1;
            }
            assert(minify_from(s@, start) == minify_from(s@, i as int));
        } else if c == '/' && i + 1 < s.len() && s[i + 1] == '*' {
            let start = i;
            i += 2;
            let mut closed = false;
            while i < s.len() && !closed
                invariant
                    start + 2 <= i <= s.len(),
                    !closed ==> block_comment_end(s@, start + 2) == block_comment_end(s@, i as int),
                    closed ==> block_comment_end(s@, start + 2) == Some(i as int),
                decreases s.len() - i + (if closed { 0int } else { 1int }),
            {
                if s[i] == '*' && i + 1 < s.len() && s[i + 1] == '/' {
                    i += 2;
                    closed = true;
                } else {
                    i += 1;
                }
            }
            if !closed {
                let pos = byte_offset(&s, start, total);
                return Err(MinifyError::UnterminatedBlockComment { pos });
            }
            assert(minify_from(s@, start as int) == minify_from(s@, i as int));
        } else {
            push_char(&mut out, c);
            i += 1;
            proof {
                match minify_from(s@, i as int) {
                    Ok(rest) => {
                        assert(kept + (seq![c] + rest) =~= (kept + seq![c]) + rest);
                    },
                    Err(_) => {},
                }
                assert(out@ =~= kept + seq![c]);
            }
        }
    }
    proof {
        assert(out@ + Seq::<char>::empty() =~= out@);
    }
    Ok(out)
}

} // verus!
