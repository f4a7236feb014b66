//! Parsing JSON text into values: literals, numbers (kept as their text),
//! strings with their escapes, arrays and objects nested at most 128 deep.
//! Errors carry the byte offset where they were found.
use vstd::prelude::*;
use vstd::utf8::encode_utf8;
use vstd::string::StringSliceAdditionalSpecFns;
use crate::text::{chars_of, push_char, text_of};
use super::minify::{byte_offset, byte_pos, is_json_space};
use super::value::{lemma_array_model, lemma_object_model, members_model, node_model, nodes_model, JsonModel, JsonNode};

verus! {

/// Why JSON text cannot be parsed; `pos` is a byte offset.
#[derive(Debug, PartialEq)]
pub enum ParseError {
    UnexpectedEof,
    UnexpectedChar { ch: char, pos: usize },
    InvalidLiteral { pos: usize },
    InvalidNumber { pos: usize },
    InvalidString { pos: usize },
    InvalidEscape { pos: usize },
    InvalidUnicodeEscape { pos: usize },
    TrailingCharacters { pos: usize },
    Unsupported { feature: &'static str, pos: usize },
    RecursionLimit { pos: usize },
}

/// The byte offset of character `i` of `s`.
pub open spec fn offset(s: Seq<char>, i: int) -> usize {
    byte_pos(s, i) as usize
}

/// The first position at or after `i` that is not JSON whitespace.
pub open spec fn skip_ws(s: Seq<char>, i: int) -> int
    decreases s.len() - i,
{
    if 0 <= i < s.len() && is_json_space(s[i]) {
        skip_ws(s, i + 1)
    } else {
        i
    }
}

/// Whether `c` is an ASCII digit.
pub open spec fn is_digit(c: char) -> bool {
    '0' <= c <= '9'
}

/// The first position at or after `i` that is not a digit.
pub open spec fn digits_end(s: Seq<char>, i: int) -> int
    decreases s.len() - i,
{
    if 0 <= i < s.len() && is_digit(s[i]) {
        digits_end(s, i + 1)
    } else {
        i
    }
}

/// Where the number that starts at `i` ends: an optional minus, `0` or a
/// digit run not starting with `0`, an optional fraction and an optional
/// exponent, each with at least one digit.
pub open spec fn number_end(s: Seq<char>, i: int) -> Result<int, ParseError> {
    let a = if i < s.len() && s[i] == '-' { i + 1 } else { i };
    let whole: Result<int, ParseError> = if a < s.len() && s[a] == '0' {
        if a + 1 < s.len() && is_digit(s[a + 1]) {
            Err(ParseError::InvalidNumber { pos: offset(s, a + 1) })
        } else {
            Ok(a + 1)
        }
    } else if a < s.len() && '1' <= s[a] <= '9' {
        Ok(digits_end(s, a))
    } else {
        Err(ParseError::InvalidNumber { pos: offset(s, i) })
    };
    match whole {
        Err(e) => Err(e),
        Ok(b) => {
            let frac: Result<int, ParseError> = if b < s.len() && s[b] == '.' {
                if b + 1 < s.len() && is_digit(s[b + 1]) {
                    Ok(digits_end(s, b + 1))
                } else {
                    Err(ParseError::InvalidNumber { pos: offset(s, b + 1) })
                }
            } else {
                Ok(b)
            };
            match frac {
                Err(e) => Err(e),
                Ok(c) => if c < s.len() && (s[c] == 'e' || s[c] == 'E') {
                    let d = if c + 1 < s.len() && (s[c + 1] == '+' || s[c + 1] == '-') { c + 2 } else { c + 1 };
                    if d < s.len() && is_digit(s[d]) {
                        Ok(digits_end(s, d))
                    } else {
                        Err(ParseError::InvalidNumber { pos: offset(s, d) })
                    }
                } else {
                    Ok(c)
                },
            }
        },
    }
}

/// The value of a hexadecimal digit.
pub open spec fn hex_value(c: char) -> Option<int> {
    if '0' <= c <= '9' {
        Some(c as int - '0' as int)
    } else if 'a' <= c <= 'f' {
        Some(c as int - 'a' as int + 10)
    } else if 'A' <= c <= 'F' {
        Some(c as int - 'A' as int + 10)
    } else {
        None
    }
}

/// The value of the four hexadecimal digits at `k`, if they are there.
pub open spec fn hex4_at(s: Seq<char>, k: int) -> Option<int> {
    if 0 <= k && k + 4 <= s.len() && hex_value(s[k]) is Some && hex_value(s[k + 1]) is Some
        && hex_value(s[k + 2]) is Some && hex_value(s[k + 3]) is Some {
        Some(
            hex_value(s[k])->0 * 4096 + hex_value(s[k + 1])->0 * 256 + hex_value(s[k + 2])->0 * 16
                + hex_value(s[k + 3])->0,
        )
    } else {
        None
    }
}

/// Whether `u` is a Unicode scalar value.
pub open spec fn is_scalar(u: int) -> bool {
    0 <= u <= 0xD7FF || 0xE000 <= u <= 0x10FFFF
}

/// The character of a `\u` escape whose digits start at `k`, with a second
/// escape for a surrogate pair, and where it ends; `ep` is where the escape
/// is reported.
pub open spec fn unicode_escape(s: Seq<char>, k: int, ep: usize) -> Result<(char, int), ParseError> {
    match hex4_at(s, k) {
        None => Err(ParseError::InvalidUnicodeEscape { pos: ep }),
        Some(first) => if 0xD800 <= first <= 0xDBFF {
            if !(k + 5 < s.len() && s[k + 4] == '\\' && s[k + 5] == 'u') {
                Err(ParseError::InvalidUnicodeEscape { pos: ep })
            } else {
                match hex4_at(s, k + 6) {
                    None => Err(ParseError::InvalidUnicodeEscape { pos: ep }),
                    Some(second) => if !(0xDC00 <= second <= 0xDFFF) {
                        Err(ParseError::InvalidUnicodeEscape { pos: ep })
                    } else {
                        let cp = 0x10000 + (first - 0xD800) * 1024 + (second - 0xDC00);
                        if is_scalar(cp) {
                            Ok((cp as char, k + 10))
                        } else {
                            Err(ParseError::InvalidUnicodeEscape { pos: ep })
                        }
                    },
                }
            }
        } else if 0xDC00 <= first <= 0xDFFF {
            Err(ParseError::InvalidUnicodeEscape { pos: ep })
        } else if is_scalar(first) {
            Ok((first as char, k + 4))
        } else {
            Err(ParseError::InvalidUnicodeEscape { pos: ep })
        },
    }
}

/// The hexadecimal digits `0`-`9`, `a`-`f`, by value.
pub open spec fn lower_hex_digits() -> Seq<char> {
    seq!['0', '1', '2', '3', '4', '5', '6', '7', '8', '9', 'a', 'b', 'c', 'd', 'e', 'f']
}

/// The hexadecimal digits `0`-`9`, `A`-`F`, by value.
pub open spec fn upper_hex_digits() -> Seq<char> {
    seq!['0', '1', '2', '3', '4', '5', '6', '7', '8', '9', 'A', 'B', 'C', 'D', 'E', 'F']
}

/// Each of the sixteen digits, in either case, reads as its value.
pub proof fn law_hex_digit_value(v: int)
    requires
        0 <= v < 16,
    ensures
        hex_value(lower_hex_digits()[v]) == Some(v),
        hex_value(upper_hex_digits()[v]) == Some(v),
{
}

/// Nothing but a hexadecimal digit has a value, and the value is the digit's.
pub proof fn law_hex_digits_only(c: char)
    ensures
        hex_value(c) matches Some(v) ==> 0 <= v < 16 && (c == lower_hex_digits()[v] || c == upper_hex_digits()[v]),
{
}

/// A `\u` escape of four hexadecimal digits, in either case, that write a
/// code point outside the surrogates decodes to that code point and ends
/// after the fourth digit.
pub proof fn law_unicode_escape_digits(s: Seq<char>, k: int, ep: usize, d: Seq<int>, upper: Seq<bool>)
    requires
        0 <= k,
        k + 4 <= s.len(),
        d.len() == 4,
        upper.len() == 4,
        forall|t: int| 0 <= t < 4 ==> 0 <= #[trigger] d[t] < 16,
        forall|t: int|
            0 <= t < 4 ==> s[k + t] == if #[trigger] upper[t] { upper_hex_digits()[d[t]] } else { lower_hex_digits()[d[t]] },
        !(0xD800 <= d[0] * 4096 + d[1] * 256 + d[2] * 16 + d[3] <= 0xDFFF),
    ensures
        unicode_escape(s, k, ep) == Ok::<(char, int), ParseError>(((d[0] * 4096 + d[1] * 256 + d[2] * 16 + d[3]) as char, k + 4)),
{
    assert forall|t: int| 0 <= t < 4 implies hex_value(#[trigger] s[k + t]) == Some(d[t]) by {
        let c = s[k + t];
        assert(0 <= d[t] < 16);
        law_hex_digit_value(d[t]);
        if upper[t] {
            assert(c == upper_hex_digits()[d[t]]);
        } else {
            assert(c == lower_hex_digits()[d[t]]);
        }
    }
    assert(hex_value(s[k + 0]) == Some(d[0]));
    assert(hex_value(s[k + 1]) == Some(d[1]));
    assert(hex_value(s[k + 2]) == Some(d[2]));
    assert(hex_value(s[k + 3]) == Some(d[3]));
    assert(s[k + 0] == s[k]);
}

/// The character an escape after a backslash stands for, and where the
/// escape ends; `ep` (the offset after the backslash) is where it is
/// reported.
pub open spec fn escape_at(s: Seq<char>, k: int, ep: usize) -> Result<(char, int), ParseError> {
    if k < 0 || k >= s.len() {
        Err(ParseError::UnexpectedEof)
    } else {
        let c = s[k];
        if c == '"' {
            Ok(('"', k + 1))
        } else if c == '\\' {
            Ok(('\\', k + 1))
        } else if c == '/' {
            Ok(('/', k + 1))
        } else if c == 'b' {
            Ok(('\u{8}', k + 1))
        } else if c == 'f' {
            Ok(('\u{c}', k + 1))
        } else if c == 'n' {
            Ok(('\n', k + 1))
        } else if c == 'r' {
            Ok(('\r', k + 1))
        } else if c == 't' {
            Ok(('\t', k + 1))
        } else if c == 'u' {
            unicode_escape(s, k + 1, ep)
        } else {
            Err(ParseError::InvalidEscape { pos: ep })
        }
    }
}

/// An escape ends after it starts.
pub proof fn lemma_escape_advances(s: Seq<char>, k: int, ep: usize)
    ensures
        escape_at(s, k, ep) matches Ok((_, j)) ==> k < j <= s.len(),
{
}

/// A character put in front of a string result.
pub open spec fn char_then(c: char, r: Result<(Seq<char>, int), ParseError>) -> Result<(Seq<char>, int), ParseError> {
    match r {
        Ok((t, j)) => Ok((seq![c] + t, j)),
        Err(e) => Err(e),
    }
}

/// The string whose content starts at `i` (after its opening quote), with
/// escapes replaced, and where it ends (after its closing quote). Control
/// characters are refused.
pub open spec fn string_from(s: Seq<char>, i: int) -> Result<(Seq<char>, int), ParseError>
    decreases s.len() - i,
{
    if i < 0 || i >= s.len() {
        Err(ParseError::UnexpectedEof)
    } else if s[i] == '"' {
        Ok((Seq::empty(), i + 1))
    } else if s[i] == '\\' {
        match escape_at(s, i + 1, offset(s, i + 1)) {
            Err(e) => Err(e),
            Ok((c, j)) => {
                proof {
                    lemma_escape_advances(s, i + 1, offset(s, i + 1));
                }
                char_then(c, string_from(s, j))
            },
        }
    } else if (s[i] as u32) <= 0x1f {
        Err(ParseError::InvalidString { pos: offset(s, i + 1) })
    } else {
        char_then(s[i], string_from(s, i + 1))
    }
}

/// A string ends after it starts.
pub proof fn lemma_string_advances(s: Seq<char>, i: int)
    ensures
        string_from(s, i) matches Ok((_, j)) ==> i < j <= s.len(),
    decreases s.len() - i,
{
    if 0 <= i < s.len() && s[i] != '"' {
        if s[i] == '\\' {
            lemma_escape_advances(s, i + 1, offset(s, i + 1));
            match escape_at(s, i + 1, offset(s, i + 1)) {
                Ok((_, j)) => lemma_string_advances(s, j),
                Err(_) => {},
            }
        } else if (s[i] as u32) > 0x1f {
            lemma_string_advances(s, i + 1);
        }
    }
}

/// Skipping whitespace does not go back, nor past the end.
pub proof fn lemma_skip_ws(s: Seq<char>, i: int)
    ensures
        i <= skip_ws(s, i),
        0 <= i <= s.len() ==> skip_ws(s, i) <= s.len(),
    decreases s.len() - i,
{
    if 0 <= i < s.len() && is_json_space(s[i]) {
        lemma_skip_ws(s, i + 1);
    }
}

/// A digit run does not go back, nor past the end.
pub proof fn lemma_digits_end(s: Seq<char>, i: int)
    ensures
        i <= digits_end(s, i),
        0 <= i <= s.len() ==> digits_end(s, i) <= s.len(),
    decreases s.len() - i,
{
    if 0 <= i < s.len() && is_digit(s[i]) {
        lemma_digits_end(s, i + 1);
    }
}

/// A number ends after it starts.
pub proof fn lemma_number_advances(s: Seq<char>, i: int)
    requires
        0 <= i < s.len(),
    ensures
        number_end(s, i) matches Ok(e) ==> i < e <= s.len(),
{
    let a = if s[i] == '-' { i + 1 } else { i };
    lemma_digits_end(s, a);
    if a + 1 <= s.len() {
        lemma_digits_end(s, a + 1);
    }
    let b = if a < s.len() && s[a] == '0' { a + 1 } else { digits_end(s, a) };
    if b + 1 <= s.len() {
        lemma_digits_end(s, b + 1);
    }
    let c = if b < s.len() && s[b] == '.' { digits_end(s, b + 1) } else { b };
    let d = if c + 1 < s.len() && (s[c + 1] == '+' || s[c + 1] == '-') { c + 2 } else { c + 1 };
    if d <= s.len() {
        lemma_digits_end(s, d);
    }
}

/// The value of a literal word at `i`, if the text spells it there.
pub open spec fn literal_at(s: Seq<char>, i: int, word: Seq<char>, v: JsonModel) -> Result<(JsonModel, int), ParseError> {
    if i + word.len() <= s.len() && s.subrange(i, i + word.len()) == word {
        Ok((v, i + word.len()))
    } else {
        Err(ParseError::InvalidLiteral { pos: offset(s, i) })
    }
}

/// An item put in front of the items of an array result.
pub open spec fn item_then(v: JsonModel, r: Result<(Seq<JsonModel>, int), ParseError>) -> Result<(Seq<JsonModel>, int), ParseError> {
    match r {
        Ok((t, j)) => Ok((seq![v] + t, j)),
        Err(e) => Err(e),
    }
}

/// A member put in front of the members of an object result.
pub open spec fn member_then(
    m: (Seq<char>, JsonModel),
    r: Result<(Seq<(Seq<char>, JsonModel)>, int), ParseError>,
) -> Result<(Seq<(Seq<char>, JsonModel)>, int), ParseError> {
    match r {
        Ok((t, j)) => Ok((seq![m] + t, j)),
        Err(e) => Err(e),
    }
}

/// The value at `i`, nested `depth` deep, and where it ends.
pub open spec fn value_at(s: Seq<char>, i: int, depth: int) -> Result<(JsonModel, int), ParseError>
    decreases s.len() - i, 0int,
{
    if depth > 128 {
        Err(ParseError::RecursionLimit { pos: offset(s, i) })
    } else if i < 0 || i >= s.len() {
        Err(ParseError::UnexpectedEof)
    } else if s[i] == 'n' {
        literal_at(s, i, seq!['n', 'u', 'l', 'l'], JsonModel::Null)
    } else if s[i] == 't' {
        literal_at(s, i, seq!['t', 'r', 'u', 'e'], JsonModel::Bool(true))
    } else if s[i] == 'f' {
        literal_at(s, i, seq!['f', 'a', 'l', 's', 'e'], JsonModel::Bool(false))
    } else if s[i] == '"' {
        match string_from(s, i + 1) {
            Ok((t, j)) => Ok((JsonModel::Str(t), j)),
            Err(e) => Err(e),
        }
    } else if s[i] == '-' || is_digit(s[i]) {
        match number_end(s, i) {
            Ok(e) => Ok((JsonModel::Number(s.subrange(i, e)), e)),
            Err(e) => Err(e),
        }
    } else if s[i] == '[' {
        let j = skip_ws(s, i + 1);
        proof {
            lemma_skip_ws(s, i + 1);
        }
        if j < s.len() && s[j] == ']' {
            Ok((JsonModel::Array(Seq::empty()), j + 1))
        } else {
            match items_at(s, j, depth) {
                Ok((t, e)) => Ok((JsonModel::Array(t), e)),
                Err(e) => Err(e),
            }
        }
    } else if s[i] == '{' {
        let j = skip_ws(s, i + 1);
        proof {
            lemma_skip_ws(s, i + 1);
        }
        if j < s.len() && s[j] == '}' {
            Ok((JsonModel::Object(Seq::empty()), j + 1))
        } else {
            match members_at(s, j, depth) {
                Ok((t, e)) => Ok((JsonModel::Object(t), e)),
                Err(e) => Err(e),
            }
        }
    } else {
        Err(ParseError::UnexpectedChar { ch: s[i], pos: offset(s, i) })
    }
}

/// The items of an array from the item at `j` on, in an array nested
/// `depth` deep, and where the array ends (after its `]`).
pub open spec fn items_at(s: Seq<char>, j: int, depth: int) -> Result<(Seq<JsonModel>, int), ParseError>
    decreases s.len() - j, 1int,
{
    match value_at(s, j, depth + 1) {
        Err(e) => Err(e),
        Ok((v, e)) => {
            let k = skip_ws(s, e);
            if k < 0 || k >= s.len() {
                Err(ParseError::UnexpectedEof)
            } else if s[k] == ',' {
                let next = skip_ws(s, k + 1);
                proof {
                    lemma_skip_ws(s, k + 1);
                }
                if next <= j {
                    Err(ParseError::UnexpectedEof)
                } else {
                    item_then(v, items_at(s, next, depth))
                }
            } else if s[k] == ']' {
                Ok((seq![v], k + 1))
            } else {
                Err(ParseError::UnexpectedChar { ch: s[k], pos: offset(s, k) })
            }
        },
    }
}

/// The members of an object from the member at `j` on, in an object
/// nested `depth` deep, and where the object ends (after its `}`).
pub open spec fn members_at(s: Seq<char>, j: int, depth: int) -> Result<(Seq<(Seq<char>, JsonModel)>, int), ParseError>
    decreases s.len() - j, 1int,
{
    if j < 0 || j >= s.len() {
        Err(ParseError::UnexpectedEof)
    } else if s[j] != '"' {
        Err(ParseError::UnexpectedChar { ch: s[j], pos: offset(s, j) })
    } else {
        match string_from(s, j + 1) {
            Err(e) => Err(e),
            Ok((key, k)) => {
                let k2 = skip_ws(s, k);
                if k2 < 0 || k2 >= s.len() {
                    Err(ParseError::UnexpectedEof)
                } else if s[k2] != ':' {
                    Err(ParseError::UnexpectedChar { ch: s[k2], pos: offset(s, k2) })
                } else {
                    let k3 = skip_ws(s, k2 + 1);
                    proof {
                        lemma_string_advances(s, j + 1);
                        lemma_skip_ws(s, k);
                        lemma_skip_ws(s, k2 + 1);
                    }
                    match value_at(s, k3, depth + 1) {
                        Err(e) => Err(e),
                        Ok((v, e)) => {
                            let k4 = skip_ws(s, e);
                            if k4 < 0 || k4 >= s.len() {
                                Err(ParseError::UnexpectedEof)
                            } else if s[k4] == ',' {
                                let next = skip_ws(s, k4 + 1);
                                proof {
                                    lemma_skip_ws(s, k4 + 1);
                                }
                                if next <= j {
                                    Err(ParseError::UnexpectedEof)
                                } else {
                                    member_then((key, v), members_at(s, next, depth))
                                }
                            } else if s[k4] == '}' {
                                Ok((seq![(key, v)], k4 + 1))
                            } else {
                                Err(ParseError::UnexpectedChar { ch: s[k4], pos: offset(s, k4) })
                            }
                        },
                    }
                }
            },
        }
    }
}

/// What parsing JSON text gives: one value, after a byte order mark and
/// whitespace, followed by nothing but whitespace.
pub open spec fn json_value(s: Seq<char>) -> Result<JsonModel, ParseError> {
    let i0: int = if s.len() > 0 && s[0] == '\u{feff}' { 1 } else { 0 };
    match value_at(s, skip_ws(s, i0), 0) {
        Err(e) => Err(e),
        Ok((v, e)) => {
            let k = skip_ws(s, e);
            if k >= s.len() {
                Ok(v)
            } else {
                Err(ParseError::TrailingCharacters { pos: offset(s, k) })
            }
        },
    }
}

/// A value ends after it starts, and so do the rest of an array and of an
/// object.
pub proof fn lemma_value_advances(s: Seq<char>, i: int, depth: int)
    ensures
        value_at(s, i, depth) matches Ok((_, e)) ==> i < e <= s.len(),
    decreases s.len() - i, 0int,
{
    if depth <= 128 && 0 <= i < s.len() {
        if s[i] == '"' {
            lemma_string_advances(s, i + 1);
        } else if s[i] == '-' || is_digit(s[i]) {
            lemma_number_advances(s, i);
        } else if s[i] == '[' {
            lemma_skip_ws(s, i + 1);
            let j = skip_ws(s, i + 1);
            if !(j < s.len() && s[j] == ']') {
                lemma_items_advance(s, j, depth);
            }
        } else if s[i] == '{' {
            lemma_skip_ws(s, i + 1);
            let j = skip_ws(s, i + 1);
            if !(j < s.len() && s[j] == '}') {
                lemma_members_advance(s, j, depth);
            }
        }
    }
}

/// The rest of an array ends after it starts.
pub proof fn lemma_items_advance(s: Seq<char>, j: int, depth: int)
    ensures
        items_at(s, j, depth) matches Ok((_, e)) ==> j < e <= s.len(),
    decreases s.len() - j, 1int,
{
    lemma_value_advances(s, j, depth + 1);
    match value_at(s, j, depth + 1) {
        Ok((_, e)) => {
            lemma_skip_ws(s, e);
            let k = skip_ws(s, e);
            if 0 <= k < s.len() && s[k] == ',' {
                lemma_skip_ws(s, k + 1);
                let next = skip_ws(s, k + 1);
                if next > j {
                    lemma_items_advance(s, next, depth);
                }
            }
        },
        Err(_) => {},
    }
}

/// The rest of an object ends after it starts.
pub proof fn lemma_members_advance(s: Seq<char>, j: int, depth: int)
    ensures
        members_at(s, j, depth) matches Ok((_, e)) ==> j < e <= s.len(),
    decreases s.len() - j, 1int,
{
    if 0 <= j < s.len() && s[j] == '"' {
        lemma_string_advances(s, j + 1);
        match string_from(s, j + 1) {
            Ok((_, k)) => {
                lemma_skip_ws(s, k);
                let k2 = skip_ws(s, k);
                if 0 <= k2 < s.len() && s[k2] == ':' {
                    lemma_skip_ws(s, k2 + 1);
                    let k3 = skip_ws(s, k2 + 1);
                    lemma_value_advances(s, k3, depth + 1);
                    match value_at(s, k3, depth + 1) {
                        Ok((_, e)) => {
                            lemma_skip_ws(s, e);
                            let k4 = skip_ws(s, e);
                            if 0 <= k4 < s.len() && s[k4] == ',' {
                                lemma_skip_ws(s, k4 + 1);
                                let next = skip_ws(s, k4 + 1);
                                if next > j {
                                    lemma_members_advance(s, next, depth);
                                }
                            }
                        },
                        Err(_) => {},
                    }
                }
            },
            Err(_) => {},
        }
    }
}

/// Skips JSON whitespace from `i`.
fn skip_spaces(s: &Vec<char>, i: usize) -> (r: usize)
    requires
        i <= s@.len(),
    ensures
        r as int == skip_ws(s@, i as int),
        i <= r <= s@.len(),
{
    let mut k = i;
    while k < s.len() && (s[k] == ' ' || s[k] == '\n' || s[k] == '\r' || s[k] == '\t')
        invariant
            i <= k <= s@.len(),
            skip_ws(s@, i as int) == skip_ws(s@, k as int),
        decreases s@.len() - k,
    {
        k += 1;
    }
    k
}

/// Skips ASCII digits from `i`.
fn skip_digits(s: &Vec<char>, i: usize) -> (r: usize)
    requires
        i <= s@.len(),
    ensures
        r as int == digits_end(s@, i as int),
        i <= r <= s@.len(),
{
    let mut k = i;
    while k < s.len() && '0' <= s[k] && s[k] <= '9'
        invariant
            i <= k <= s@.len(),
            digits_end(s@, i as int) == digits_end(s@, k as int),
        decreases s@.len() - k,
    {
        k += 1;
    }
    k
}

/// The byte offset of character `i` of `s`, as an error position.
fn offset_of(s: &Vec<char>, i: usize, total: usize) -> (r: usize)
    requires
        i <= s@.len(),
        encode_utf8(s@).len() == total,
    ensures
        r == offset(s@, i as int),
{
    byte_offset(s, i, total)
}

/// Finds where the number that starts at `i` ends.
fn scan_number(s: &Vec<char>, i: usize, total: usize) -> (r: Result<usize, ParseError>)
    requires
        i < s@.len(),
        encode_utf8(s@).len() == total,
    ensures
        match number_end(s@, i as int) {
            Ok(e) => r == Ok::<usize, ParseError>(e as usize) && e <= s@.len(),
            Err(x) => r == Err::<usize, ParseError>(x),
        },
{
    proof {
        lemma_number_advances(s@, i as int);
    }
    let n = s.len();
    let a = if s[i] == '-' { i + 1 } else { i };
    let b = if a < n && s[a] == '0' {
        if a + 1 < n && '0' <= s[a + 1] && s[a + 1] <= '9' {
            return Err(ParseError::InvalidNumber { pos: offset_of(s, a + 1, total) });
        }
        a + 1
    } else if a < n && '1' <= s[a] && s[a] <= '9' {
        skip_digits(s, a)
    } else {
        return Err(ParseError::InvalidNumber { pos: offset_of(s, i, total) });
    };
    let c = if b < n && s[b] == '.' {
        if !(b + 1 < n && '0' <= s[b + 1] && s[b + 1] <= '9') {
            return Err(ParseError::InvalidNumber { pos: offset_of(s, b + 1, total) });
        }
        skip_digits(s, b + 1)
    } else {
        b
    };
    if c < n && (s[c] == 'e' || s[c] == 'E') {
        let d = if c + 1 < n && (s[c + 1] == '+' || s[c + 1] == '-') { c + 2 } else { c + 1 };
        if !(d < n && '0' <= s[d] && s[d] <= '9') {
            return Err(ParseError::InvalidNumber { pos: offset_of(s, d, total) });
        }
        Ok(skip_digits(s, d))
    } else {
        Ok(c)
    }
}

/// The value of a hexadecimal digit.
fn hex_digit(c: char) -> (r: Option<u32>)
    ensures
        match hex_value(c) {
            Some(v) => r == Some(v as u32),
            None => r is None,
        },
{
    if '0' <= c && c <= '9' {
        Some((c as u32) - ('0' as u32))
    } else if 'a' <= c && c <= 'f' {
        Some((c as u32) - ('a' as u32) + 10)
    } else if 'A' <= c && c <= 'F' {
        Some((c as u32) - ('A' as u32) + 10)
    } else {
        None
    }
}

/// Reads four hexadecimal digits at `k`.
fn read_hex4(s: &Vec<char>, k: usize) -> (r: Option<u32>)
    ensures
        match hex4_at(s@, k as int) {
            Some(v) => r == Some(v as u32) && 0 <= v < 0x10000,
            None => r is None,
        },
{
    if k > s.len() || s.len() - k < 4 {
        return None;
    }
    let d0 = match hex_digit(s[k]) {
        Some(v) => v,
        None => {
            return None;
        },
    };
    let d1 = match hex_digit(s[k + 1]) {
        Some(v) => v,
        None => {
            return None;
        },
    };
    let d2 = match hex_digit(s[k + 2]) {
        Some(v) => v,
        None => {
            return None;
        },
    };
    let d3 = match hex_digit(s[k + 3]) {
        Some(v) => v,
        None => {
            return None;
        },
    };
    Some(d0 * 4096 + d1 * 256 + d2 * 16 + d3)
}

/// `char::from_u32`, which the documentation describes as giving the
/// character with the code `u` when `u` is a Unicode scalar value, and
/// `None` otherwise.
#[verifier::external_body]
fn char_from_u32(u: u32) -> (r: Option<char>)
    ensures
        is_scalar(u as int) ==> r == Some(u as char),
        !is_scalar(u as int) ==> r is None,
{
    char::from_u32(u)
}

/// Reads the digits of a `\u` escape at `k`, and a second escape for a
/// surrogate pair; errors are reported at `ek`, the character after the
/// backslash.
fn read_unicode_escape(s: &Vec<char>, k: usize, ek: usize, total: usize) -> (r: Result<(char, usize), ParseError>)
    requires
        k <= s@.len(),
        ek <= s@.len(),
        encode_utf8(s@).len() == total,
    ensures
        match unicode_escape(s@, k as int, offset(s@, ek as int)) {
            Ok((c, j)) => r == Ok::<(char, usize), ParseError>((c, j as usize)) && j <= s@.len(),
            Err(x) => r == Err::<(char, usize), ParseError>(x),
        },
{
    let first = match read_hex4(s, k) {
        Some(v) => v,
        None => {
            return Err(ParseError::InvalidUnicodeEscape { pos: offset_of(s, ek, total) });
        },
    };
    let n = s.len();
    assert(hex4_at(s@, k as int) is Some);
    assert(k + 4 <= n);
    if 0xD800 <= first && first <= 0xDBFF {
        if !(s.len() - k > 5 && s[k + 4] == '\\' && s[k + 5] == 'u') {
            return Err(ParseError::InvalidUnicodeEscape { pos: offset_of(s, ek, total) });
        }
        let second = match read_hex4(s, k + 6) {
            Some(v) => v,
            None => {
                return Err(ParseError::InvalidUnicodeEscape { pos: offset_of(s, ek, total) });
            },
        };
        if !(0xDC00 <= second && second <= 0xDFFF) {
            return Err(ParseError::InvalidUnicodeEscape { pos: offset_of(s, ek, total) });
        }
        let cp = 0x10000 + (first - 0xD800) * 1024 + (second - 0xDC00);
        match char_from_u32(cp) {
            Some(c) => Ok((c, k + 10)),
            None => Err(ParseError::InvalidUnicodeEscape { pos: offset_of(s, ek, total) }),
        }
    } else if 0xDC00 <= first && first <= 0xDFFF {
        Err(ParseError::InvalidUnicodeEscape { pos: offset_of(s, ek, total) })
    } else {
        match char_from_u32(first) {
            Some(c) => Ok((c, k + 4)),
            None => Err(ParseError::InvalidUnicodeEscape { pos: offset_of(s, ek, total) }),
        }
    }
}

/// Reads the escape after a backslash, at `k`.
fn read_escape(s: &Vec<char>, k: usize, total: usize) -> (r: Result<(char, usize), ParseError>)
    requires
        k <= s@.len(),
        encode_utf8(s@).len() == total,
    ensures
        match escape_at(s@, k as int, offset(s@, k as int)) {
            Ok((c, j)) => r == Ok::<(char, usize), ParseError>((c, j as usize)) && j <= s@.len(),
            Err(x) => r == Err::<(char, usize), ParseError>(x),
        },
{
    if k >= s.len() {
        return Err(ParseError::UnexpectedEof);
    }
    let c = s[k];
    if c == '"' {
        Ok(('"', k + 1))
    } else if c == '\\' {
        Ok(('\\', k + 1))
    } else if c == '/' {
        Ok(('/', k + 1))
    } else if c == 'b' {
        Ok(('\u{8}', k + 1))
    } else if c == 'f' {
        Ok(('\u{c}', k + 1))
    } else if c == 'n' {
        Ok(('\n', k + 1))
    } else if c == 'r' {
        Ok(('\r', k + 1))
    } else if c == 't' {
        Ok(('\t', k + 1))
    } else if c == 'u' {
        read_unicode_escape(s, k + 1, k, total)
    } else {
        Err(ParseError::InvalidEscape { pos: offset_of(s, k, total) })
    }
}

/// Text put in front of a string result.
pub open spec fn text_then(t: Seq<char>, r: Result<(Seq<char>, int), ParseError>) -> Result<(Seq<char>, int), ParseError> {
    match r {
        Ok((u, j)) => Ok((t + u, j)),
        Err(e) => Err(e),
    }
}

/// Reads the string whose content starts at `i`.
fn read_string(s: &Vec<char>, i: usize, total: usize) -> (r: Result<(String, usize), ParseError>)
    requires
        i <= s@.len(),
        encode_utf8(s@).len() == total,
    ensures
        match string_from(s@, i as int) {
            Ok((t, j)) => (r matches Ok((out, e)) && out@ == t && e == j && j <= s@.len()),
            Err(x) => r == Err::<(String, usize), ParseError>(x),
        },
{
    let mut out = String::new();
    let mut k = i;
    assert(text_then(out@, string_from(s@, i as int)) == string_from(s@, i as int)) by {
        match string_from(s@, i as int) {
            Ok((u, j)) => assert(Seq::<char>::empty() + u =~= u),
            Err(_) => {},
        }
    }
    loop
        invariant
            i <= k <= s@.len(),
            encode_utf8(s@).len() == total,
            string_from(s@, i as int) == text_then(out@, string_from(s@, k as int)),
        decreases s@.len() - k,
    {
        if k >= s.len() {
            return Err(ParseError::UnexpectedEof);
        }
        let c = s[k];
        let ghost before = out@;
        if c == '"' {
            assert(out@ + Seq::<char>::empty() =~= out@);
            return Ok((out, k + 1));
        } else if c == '\\' {
            proof {
                lemma_escape_advances(s@, k + 1, offset(s@, k + 1));
            }
            match read_escape(s, k + 1, total) {
                Err(x) => {
                    return Err(x);
                },
                Ok((ch, j)) => {
                    push_char(&mut out, ch);
                    proof {
                        match string_from(s@, j as int) {
                            Ok((u, e)) => assert(before + (seq![ch] + u) =~= before.push(ch) + u),
                            Err(_) => {},
                        }
                    }
                    k = j;
                },
            }
        } else if (c as u32) <= 0x1f {
            return Err(ParseError::InvalidString { pos: offset_of(s, k + 1, total) });
        } else {
            push_char(&mut out, c);
            proof {
                match string_from(s@, k + 1) {
                    Ok((u, e)) => assert(before + (seq![c] + u) =~= before.push(c) + u),
                    Err(_) => {},
                }
            }
            k = k + 1;
        }
    }
}

/// Whether the text spells `word` at `i`.
fn matches_at(s: &Vec<char>, i: usize, word: &[char]) -> (r: bool)
    requires
        i <= s@.len(),
    ensures
        r == (i + word@.len() <= s@.len() && s@.subrange(i as int, i + word@.len()) == word@),
{
    if s.len() - i < word.len() {
        return false;
    }
    let n = s.len();
    let mut k: usize = 0;
    while k < word.len()
        invariant
            n == s@.len(),
            i + word@.len() <= s@.len(),
            k <= word@.len(),
            forall|m: int| 0 <= m < k ==> s@[i + m] == #[trigger] word@[m],
        decreases word@.len() - k,
    {
        if s[i + k] != word[k] {
            assert(s@.subrange(i as int, i + word@.len())[k as int] != word@[k as int]);
            return false;
        }
        k += 1;
    }
    assert(s@.subrange(i as int, i + word@.len()) =~= word@);
    true
}

/// Items put in front of the items of an array result.
pub open spec fn items_then(t: Seq<JsonModel>, r: Result<(Seq<JsonModel>, int), ParseError>) -> Result<(Seq<JsonModel>, int), ParseError> {
    match r {
        Ok((u, j)) => Ok((t + u, j)),
        Err(e) => Err(e),
    }
}

/// Members put in front of the members of an object result.
pub open spec fn members_then(
    t: Seq<(Seq<char>, JsonModel)>,
    r: Result<(Seq<(Seq<char>, JsonModel)>, int), ParseError>,
) -> Result<(Seq<(Seq<char>, JsonModel)>, int), ParseError> {
    match r {
        Ok((u, j)) => Ok((t + u, j)),
        Err(e) => Err(e),
    }
}

/// Reads the value at `i`, nested `depth` deep.
fn read_value(s: &Vec<char>, i: usize, depth: usize, total: usize) -> (r: Result<(JsonNode, usize), ParseError>)
    requires
        i <= s@.len(),
        depth <= 129,
        encode_utf8(s@).len() == total,
    ensures
        match value_at(s@, i as int, depth as int) {
            Ok((m, e)) => (r matches Ok((n, j)) && node_model(n) == m && j == e),
            Err(x) => r == Err::<(JsonNode, usize), ParseError>(x),
        },
    decreases s@.len() - i, 0int,
{
    if depth > 128 {
        return Err(ParseError::RecursionLimit { pos: offset_of(s, i, total) });
    }
    if i >= s.len() {
        return Err(ParseError::UnexpectedEof);
    }
    let c = s[i];
    if c == 'n' {
        let word = ['n', 'u', 'l', 'l'];
        assert(word@ =~= seq!['n', 'u', 'l', 'l']);
        if matches_at(s, i, &word) {
            Ok((JsonNode::Null, i + 4))
        } else {
            Err(ParseError::InvalidLiteral { pos: offset_of(s, i, total) })
        }
    } else if c == 't' {
        let word = ['t', 'r', 'u', 'e'];
        assert(word@ =~= seq!['t', 'r', 'u', 'e']);
        if matches_at(s, i, &word) {
            Ok((JsonNode::Bool(true), i + 4))
        } else {
            Err(ParseError::InvalidLiteral { pos: offset_of(s, i, total) })
        }
    } else if c == 'f' {
        let word = ['f', 'a', 'l', 's', 'e'];
        assert(word@ =~= seq!['f', 'a', 'l', 's', 'e']);
        if matches_at(s, i, &word) {
            Ok((JsonNode::Bool(false), i + 5))
        } else {
            Err(ParseError::InvalidLiteral { pos: offset_of(s, i, total) })
        }
    } else if c == '"' {
        match read_string(s, i + 1, total) {
            Ok((t, j)) => Ok((JsonNode::String(t), j)),
            Err(x) => Err(x),
        }
    } else if c == '-' || ('0' <= c && c <= '9') {
        match scan_number(s, i, total) {
            Ok(e) => {
                proof {
                    lemma_number_advances(s@, i as int);
                }
                Ok((JsonNode::Number(text_of(s, i, e)), e))
            },
            Err(x) => Err(x),
        }
    } else if c == '[' {
        let j = skip_spaces(s, i + 1);
        if j < s.len() && s[j] == ']' {
            let node = JsonNode::Array(Vec::new());
            proof {
                lemma_array_model(node);
                assert(nodes_model(node->Array_0@) =~= Seq::<JsonModel>::empty());
            }
            return Ok((node, j + 1));
        }
        match read_items(s, j, depth, total) {
            Ok((items, e)) => {
                let node = JsonNode::Array(items);
                proof {
                    lemma_array_model(node);
                }
                Ok((node, e))
            },
            Err(x) => Err(x),
        }
    } else if c == '{' {
        let j = skip_spaces(s, i + 1);
        if j < s.len() && s[j] == '}' {
            let node = JsonNode::Object(Vec::new());
            proof {
                lemma_object_model(node);
                assert(members_model(node->Object_0@) =~= Seq::<(Seq<char>, JsonModel)>::empty());
            }
            return Ok((node, j + 1));
        }
        match read_members(s, j, depth, total) {
            Ok((entries, e)) => {
                let node = JsonNode::Object(entries);
                proof {
                    lemma_object_model(node);
                }
                Ok((node, e))
            },
            Err(x) => Err(x),
        }
    } else {
        Err(ParseError::UnexpectedChar { ch: c, pos: offset_of(s, i, total) })
    }
}

/// Reads the items of an array from the item at `j` on.
fn read_items(s: &Vec<char>, j: usize, depth: usize, total: usize) -> (r: Result<(Vec<JsonNode>, usize), ParseError>)
    requires
        j <= s@.len(),
        depth <= 128,
        encode_utf8(s@).len() == total,
    ensures
        match items_at(s@, j as int, depth as int) {
            Ok((t, e)) => (r matches Ok((v, k)) && nodes_model(v@) == t && k == e),
            Err(x) => r == Err::<(Vec<JsonNode>, usize), ParseError>(x),
        },
    decreases s@.len() - j, 1int,
{
    let mut items: Vec<JsonNode> = Vec::new();
    let mut cur = j;
    let ghost whole = items_at(s@, j as int, depth as int);
    assert(whole == items_then(nodes_model(items@), items_at(s@, cur as int, depth as int))) by {
        assert(nodes_model(items@) =~= Seq::<JsonModel>::empty());
        match whole {
            Ok((u, e)) => assert(Seq::<JsonModel>::empty() + u =~= u),
            Err(_) => {},
        }
    }
    loop
        invariant
            j <= cur <= s@.len(),
            depth <= 128,
            encode_utf8(s@).len() == total,
            whole == items_at(s@, j as int, depth as int),
            whole == items_then(nodes_model(items@), items_at(s@, cur as int, depth as int)),
        decreases s@.len() - cur,
    {
        proof {
            lemma_value_advances(s@, cur as int, depth + 1);
        }
        let (v, e) = match read_value(s, cur, depth + 1, total) {
            Ok(x) => x,
            Err(x) => {
                return Err(x);
            },
        };
        let k = skip_spaces(s, e);
        if k >= s.len() {
            return Err(ParseError::UnexpectedEof);
        }
        let ghost before = nodes_model(items@);
        let ghost m = node_model(v);
        if s[k] == ',' {
            let next = skip_spaces(s, k + 1);
            items.push(v);
            proof {
                assert(nodes_model(items@) =~= before.push(m));
                match items_at(s@, next as int, depth as int) {
                    Ok((u, f)) => assert(before + (seq![m] + u) =~= before.push(m) + u),
                    Err(_) => {},
                }
            }
            cur = next;
        } else if s[k] == ']' {
            items.push(v);
            proof {
                assert(nodes_model(items@) =~= before.push(m));
                assert(before + seq![m] =~= before.push(m));
            }
            return Ok((items, k + 1));
        } else {
            return Err(ParseError::UnexpectedChar { ch: s[k], pos: offset_of(s, k, total) });
        }
    }
}

/// Reads the members of an object from the member at `j` on.
fn read_members(s: &Vec<char>, j: usize, depth: usize, total: usize) -> (r: Result<(Vec<(String, JsonNode)>, usize), ParseError>)
    requires
        j <= s@.len(),
        depth <= 128,
        encode_utf8(s@).len() == total,
    ensures
        match members_at(s@, j as int, depth as int) {
            Ok((t, e)) => (r matches Ok((v, k)) && members_model(v@) == t && k == e),
            Err(x) => r == Err::<(Vec<(String, JsonNode)>, usize), ParseError>(x),
        },
    decreases s@.len() - j, 1int,
{
    let mut entries: Vec<(String, JsonNode)> = Vec::new();
    let mut cur = j;
    let ghost whole = members_at(s@, j as int, depth as int);
    assert(whole == members_then(members_model(entries@), members_at(s@, cur as int, depth as int))) by {
        assert(members_model(entries@) =~= Seq::<(Seq<char>, JsonModel)>::empty());
        match whole {
            Ok((u, e)) => assert(Seq::<(Seq<char>, JsonModel)>::empty() + u =~= u),
            Err(_) => {},
        }
    }
    loop
        invariant
            j <= cur <= s@.len(),
            depth <= 128,
            encode_utf8(s@).len() == total,
            whole == members_at(s@, j as int, depth as int),
            whole == members_then(members_model(entries@), members_at(s@, cur as int, depth as int)),
        decreases s@.len() - cur,
    {
        if cur >= s.len() {
            return Err(ParseError::UnexpectedEof);
        }
        if s[cur] != '"' {
            return Err(ParseError::UnexpectedChar { ch: s[cur], pos: offset_of(s, cur, total) });
        }
        proof {
            lemma_string_advances(s@, cur + 1);
        }
        let (key, k) = match read_string(s, cur + 1, total) {
            Ok(x) => x,
            Err(x) => {
                return Err(x);
            },
        };
        let k2 = skip_spaces(s, k);
        if k2 >= s.len() {
            return Err(ParseError::UnexpectedEof);
        }
        if s[k2] != ':' {
            return Err(ParseError::UnexpectedChar { ch: s[k2], pos: offset_of(s, k2, total) });
        }
        let k3 = skip_spaces(s, k2 + 1);
        proof {
            lemma_value_advances(s@, k3 as int, depth + 1);
        }
        let (v, e) = match read_value(s, k3, depth + 1, total) {
            Ok(x) => x,
            Err(x) => {
                return Err(x);
            },
        };
        let k4 = skip_spaces(s, e);
        if k4 >= s.len() {
            return Err(ParseError::UnexpectedEof);
        }
        let ghost before = members_model(entries@);
        let ghost m = (key@, node_model(v));
        if s[k4] == ',' {
            let next = skip_spaces(s, k4 + 1);
            entries.push((key, v));
            proof {
                assert(members_model(entries@) =~= before.push(m));
                match members_at(s@, next as int, depth as int) {
                    Ok((u, f)) => assert(before + (seq![m] + u) =~= before.push(m) + u),
                    Err(_) => {},
                }
            }
            cur = next;
        } else if s[k4] == '}' {
            entries.push((key, v));
            proof {
                assert(members_model(entries@) =~= before.push(m));
                assert(before + seq![m] =~= before.push(m));
            }
            return Ok((entries, k4 + 1));
        } else {
            return Err(ParseError::UnexpectedChar { ch: s[k4], pos: offset_of(s, k4, total) });
        }
    }
}

/// Parses JSON text into a value: a byte order mark and whitespace may come
/// before it, whitespace after it; numbers are kept as their text; arrays
/// and objects may nest 128 deep.
pub fn parse_scalar(input: &str) -> (r: Result<JsonNode, ParseError>)
    ensures
        match json_value(input@) {
            Ok(m) => (r matches Ok(n) && node_model(n) == m),
            Err(e) => r == Err::<JsonNode, ParseError>(e),
        },
{
    let s = chars_of(input);
    let total = input.as_bytes().len();
    let i0: usize = if s.len() > 0 && s[0] == '\u{feff}' { 1 } else { 0 };
    let i = skip_spaces(&s, i0);
    let (v, e) = match read_value(&s, i, 0, total) {
        Ok(x) => x,
        Err(x) => {
            return Err(x);
        },
    };
    proof {
        lemma_value_advances(s@, i as int, 0);
    }
    let k = skip_spaces(&s, e);
    if k >= s.len() {
        Ok(v)
    } else {
        Err(ParseError::TrailingCharacters { pos: offset_of(&s, k, total) })
    }
}

} // verus!
