//! Incremental parsing of client requests: RESP multibulk frames and
//! inline commands.
use vstd::prelude::*;

verus! {

/// A parsed request: its arguments, the command name first.
#[derive(Debug, PartialEq, Eq)]
pub struct Command {
    pub args: Vec<Vec<u8>>,
}

impl Command {
    /// A command with the given arguments.
    pub fn new(args: Vec<Vec<u8>>) -> (r: Self)
        ensures
            r.args@ == args@,
    {
        Command { args }
    }
}

/// The byte sequences of a list of byte vectors.
pub open spec fn arg_views(args: Seq<Vec<u8>>) -> Seq<Seq<u8>> {
    args.map_values(|a: Vec<u8>| a@)
}

/// Why a request cannot be parsed.
#[derive(Debug, PartialEq, Eq, Structural)]
pub enum RespError {
    ExpectedArray,
    InvalidMultibulkLength,
    ExpectedBulkString,
    InvalidBulkLength,
    InvalidBulkTerminator,
    LineTooLong,
    UnbalancedQuote,
}

/// What one parse step found.
#[derive(Debug, PartialEq, Eq)]
pub enum ParseOutcome {
    Complete(Command),
    Incomplete,
}

/// The first CR LF pair at or after `i`: the position of the CR.
pub open spec fn crlf_from(buf: Seq<u8>, i: int) -> Option<int>
    decreases buf.len() - i,
{
    if i < 0 || i + 1 >= buf.len() {
        None
    } else if buf[i] == 13 && buf[i + 1] == 10 {
        Some(i)
    } else {
        crlf_from(buf, i + 1)
    }
}

/// The end of the line starting at `start`, or `LineTooLong` when the line,
/// or what has arrived of it, is longer than `max`.
pub open spec fn line_end(buf: Seq<u8>, start: int, max: int) -> Result<Option<int>, RespError> {
    match crlf_from(buf, start) {
        Some(i) => if i - start > max { Err(RespError::LineTooLong) } else { Ok(Some(i)) },
        None => if buf.len() - start > max { Err(RespError::LineTooLong) } else { Ok(None) },
    }
}

/// Finds the end of the line starting at `start`.
fn find_crlf_or_line_too_long(buffer: &[u8], start: usize, max_line_length: usize) -> (r: Result<Option<usize>, RespError>)
    requires
        start <= buffer@.len(),
    ensures
        match r {
            Ok(Some(i)) => line_end(buffer@, start as int, max_line_length as int) == Ok::<Option<int>, RespError>(Some(i as int)),
            Ok(None) => line_end(buffer@, start as int, max_line_length as int) == Ok::<Option<int>, RespError>(None),
            Err(e) => line_end(buffer@, start as int, max_line_length as int) == Err::<Option<int>, RespError>(e),
        },
{
    let mut i = start;
    while i < buffer.len() && buffer.len() - i >= 2
        invariant
            start <= i,
            i <= buffer@.len(),
            crlf_from(buffer@, start as int) == crlf_from(buffer@, i as int),
        decreases buffer@.len() - i,
    {
        if buffer[i] == 13 && buffer[i + 1] == 10 {
            if i - start > max_line_length {
                return Err(RespError::LineTooLong);
            }
            return Ok(Some(i));
        }
        i = i + 1;
    }
    if buffer.len() - start > max_line_length {
        return Err(RespError::LineTooLong);
    }
    Ok(None)
}

/// The value of decimal digits.
pub open spec fn digits_value(b: Seq<u8>) -> int
    decreases b.len(),
{
    if b.len() == 0 { 0 } else { digits_value(b.drop_last()) * 10 + (b.last() - 48) }
}

/// Every byte is an ASCII digit.
pub open spec fn all_digits(b: Seq<u8>) -> bool {
    forall|i: int| 0 <= i < b.len() ==> 48 <= #[trigger] b[i] <= 57
}

/// Decimal digits that fit in a `usize`, read as a number.
pub open spec fn usize_value(b: Seq<u8>) -> Option<int> {
    if b.len() > 0 && all_digits(b) && digits_value(b) <= usize::MAX { Some(digits_value(b)) } else { None }
}

proof fn lemma_digits_monotone(b: Seq<u8>, k: int)
    requires
        all_digits(b),
        0 <= k <= b.len(),
    ensures
        digits_value(b.subrange(0, k)) <= digits_value(b),
        digits_value(b.subrange(0, k)) >= 0,
    decreases b.len() - k,
{
    if k < b.len() {
        lemma_digits_monotone(b, k + 1);
        assert(b.subrange(0, k + 1).drop_last() =~= b.subrange(0, k));
        lemma_digits_nonneg(b.subrange(0, k));
    } else {
        assert(b.subrange(0, k) =~= b);
        lemma_digits_nonneg(b);
    }
}

proof fn lemma_digits_nonneg(b: Seq<u8>)
    requires
        all_digits(b),
    ensures
        digits_value(b) >= 0,
    decreases b.len(),
{
    if b.len() > 0 {
        assert(all_digits(b.drop_last()));
        lemma_digits_nonneg(b.drop_last());
    }
}

/// Reads decimal digits as a `usize`.
fn parse_usize(bytes: &[u8]) -> (r: Option<usize>)
    ensures
        match r {
            Some(v) => usize_value(bytes@) == Some(v as int),
            None => usize_value(bytes@) is None,
        },
{
    if bytes.len() == 0 {
        return None;
    }
    let mut value: usize = 0;
    let mut i: usize = 0;
    while i < bytes.len()
        invariant
            i <= bytes@.len(),
            all_digits(bytes@.subrange(0, i as int)),
            value == digits_value(bytes@.subrange(0, i as int)),
        decreases bytes@.len() - i,
    {
        let byte = bytes[i];
        assert(bytes@.subrange(0, i + 1).drop_last() =~= bytes@.subrange(0, i as int));
        if byte < 48 || byte > 57 {
            assert(!all_digits(bytes@));
            return None;
        }
        let digit = (byte - 48) as usize;
        let next = match value.checked_mul(10) {
            Some(v) => v.checked_add(digit),
            None => None,
        };
        match next {
            Some(v) => value = v,
            None => {
                proof {
                    if all_digits(bytes@) {
                        lemma_digits_monotone(bytes@, i + 1);
                    }
                }
                return None;
            },
        }
        i = i + 1;
    }
    assert(bytes@.subrange(0, bytes@.len() as int) =~= bytes@);
    Some(value)
}

/// Spaces and tabs separate inline arguments.
pub open spec fn is_blank(b: u8) -> bool {
    b == 32 || b == 9
}

/// The first position at or after `i` whose byte is `q`, before `end`.
pub open spec fn find_byte(line: Seq<u8>, q: u8, i: int) -> Option<int>
    decreases line.len() - i,
{
    if i < 0 || i >= line.len() {
        None
    } else if line[i] == q {
        Some(i)
    } else {
        find_byte(line, q, i + 1)
    }
}

/// The first position at or after `i` holding a blank, or the line's end.
pub open spec fn token_end(line: Seq<u8>, i: int) -> int
    decreases line.len() - i,
{
    if i < 0 || i >= line.len() || is_blank(line[i]) { if i < 0 { 0 } else { i } } else { token_end(line, i + 1) }
}

/// The arguments of an inline line from position `i` on, after `acc`:
/// blank-separated words; a word opened by a double or single quote runs to
/// the next quote of the same kind, which must end the line or be followed
/// by a blank.
pub open spec fn inline_args(line: Seq<u8>, i: int, acc: Seq<Seq<u8>>) -> Result<Seq<Seq<u8>>, RespError>
    decreases line.len() - i, 1int,
{
    if i < 0 || i >= line.len() {
        Ok(acc)
    } else if is_blank(line[i]) {
        inline_args(line, i + 1, acc)
    } else if line[i] == 34 || line[i] == 39 {
        proof {
            lemma_find_byte_bounds(line, line[i], i + 1);
        }
        match find_byte(line, line[i], i + 1) {
            None => Err(RespError::UnbalancedQuote),
            Some(q) => if q + 1 < line.len() && !is_blank(line[q + 1]) {
                Err(RespError::UnbalancedQuote)
            } else {
                inline_args(line, q + 1, acc.push(line.subrange(i + 1, q)))
            },
        }
    } else {
        proof {
            lemma_token_end_bounds(line, i);
        }
        let e = token_end(line, i);
        if e <= i {
            Ok(acc)
        } else {
            inline_args(line, e, acc.push(line.subrange(i, e)))
        }
    }
}

pub proof fn lemma_find_byte_bounds(line: Seq<u8>, q: u8, i: int)
    requires
        0 <= i,
    ensures
        find_byte(line, q, i) matches Some(k) ==> i <= k < line.len() && line[k] == q,
    decreases line.len() - i,
{
    if i < line.len() && line[i] != q {
        lemma_find_byte_bounds(line, q, i + 1);
    }
}

pub proof fn lemma_token_end_bounds(line: Seq<u8>, i: int)
    requires
        0 <= i <= line.len(),
    ensures
        i <= token_end(line, i) <= line.len(),
    decreases line.len() - i,
{
    if i < line.len() && !is_blank(line[i]) {
        lemma_token_end_bounds(line, i + 1);
    }
}

fn slice_vec(s: &[u8], a: usize, b: usize) -> (r: Vec<u8>)
    requires
        a <= b <= s@.len(),
    ensures
        r@ == s@.subrange(a as int, b as int),
{
    vstd::slice::slice_to_vec(&s[a..b])
}

/// Splits an inline line into its arguments.
fn parse_inline_args(line: &[u8]) -> (r: Result<Vec<Vec<u8>>, RespError>)
    ensures
        match r {
            Ok(v) => inline_args(line@, 0, Seq::empty()) == Ok::<Seq<Seq<u8>>, RespError>(arg_views(v@)),
            Err(e) => inline_args(line@, 0, Seq::empty()) == Err::<Seq<Seq<u8>>, RespError>(e),
        },
{
    let mut args: Vec<Vec<u8>> = Vec::new();
    let mut i: usize = 0;
    let n = line.len();
    assert(arg_views(args@) =~= Seq::<Seq<u8>>::empty());
    while i < n
        invariant
            n == line@.len(),
            i <= n,
            inline_args(line@, 0, Seq::empty()) == inline_args(line@, i as int, arg_views(args@)),
        decreases n - i,
    {
        let b = line[i];
        if b == 32 || b == 9 {
            i = i + 1;
        } else if b == 34 || b == 39 {
            let mut q = i + 1;
            while q < n && line[q] != b
                invariant
                    n == line@.len(),
                    i < q <= n,
                    find_byte(line@, b, i + 1) == find_byte(line@, b, q as int),
                decreases n - q,
            {
                q = q + 1;
            }
            if q >= n {
                return Err(RespError::UnbalancedQuote);
            }
            if q + 1 < n && !(line[q + 1] == 32 || line[q + 1] == 9) {
                return Err(RespError::UnbalancedQuote);
            }
            let word = slice_vec(line, i + 1, q);
            let ghost before = args@;
            args.push(word);
            assert(arg_views(args@) =~= arg_views(before).push(line@.subrange(i + 1, q as int)));
            i = q + 1;
        } else {
            let mut e = i;
            while e < n && !(line[e] == 32 || line[e] == 9)
                invariant
                    n == line@.len(),
                    i <= e <= n,
                    token_end(line@, i as int) == token_end(line@, e as int),
                decreases n - e,
            {
                e = e + 1;
            }
            assert(e > i);
            let word = slice_vec(line, i, e);
            let ghost before = args@;
            args.push(word);
            assert(arg_views(args@) =~= arg_views(before).push(line@.subrange(i as int, e as int)));
            i = e;
        }
    }
    Ok(args)
}

/// The bulk strings of a multibulk request from `cursor` on, `remaining`
/// of them still to read after `acc`.
pub open spec fn bulk_args(buf: Seq<u8>, cursor: int, remaining: int, max: int, acc: Seq<Seq<u8>>) -> Result<Option<(Seq<Seq<u8>>, int)>, RespError>
    decreases remaining,
{
    if remaining <= 0 {
        Ok(Some((acc, cursor)))
    } else if cursor >= buf.len() {
        Ok(None)
    } else if buf[cursor] != 36 {
        Err(RespError::ExpectedBulkString)
    } else {
        match line_end(buf, cursor, max) {
            Err(e) => Err(e),
            Ok(None) => Ok(None),
            Ok(Some(le)) => match usize_value(buf.subrange(cursor + 1, le)) {
                None => Err(RespError::InvalidBulkLength),
                Some(len) => {
                    let data_start = le + 2;
                    let data_end = data_start + len;
                    let frame_end = data_end + 2;
                    if frame_end > usize::MAX {
                        Err(RespError::InvalidBulkLength)
                    } else if frame_end > buf.len() {
                        Ok(None)
                    } else if buf[data_end] != 13 || buf[data_end + 1] != 10 {
                        Err(RespError::InvalidBulkTerminator)
                    } else {
                        bulk_args(buf, frame_end, remaining - 1, max, acc.push(buf.subrange(data_start, data_end)))
                    }
                },
            },
        }
    }
}

/// What a parse step finds at the front of `buf`: a multibulk frame when
/// it starts with `*`, an inline line otherwise.
pub open spec fn frame_at_front(buf: Seq<u8>, max: int) -> Result<Option<(Seq<Seq<u8>>, int)>, RespError> {
    if buf.len() == 0 {
        Ok(None)
    } else {
        match line_end(buf, 0, max) {
            Err(e) => Err(e),
            Ok(None) => Ok(None),
            Ok(Some(he)) => if buf[0] == 42 {
                match usize_value(buf.subrange(1, he)) {
                    None => Err(RespError::InvalidMultibulkLength),
                    Some(n) => if n == 0 {
                        Err(RespError::InvalidMultibulkLength)
                    } else {
                        bulk_args(buf, he + 2, n, max, Seq::empty())
                    },
                }
            } else {
                match inline_args(buf.subrange(0, he), 0, Seq::empty()) {
                    Err(e) => Err(e),
                    Ok(args) => Ok(Some((args, he + 2))),
                }
            },
        }
    }
}

/// Reads one request from the front of the buffer.
fn parse_front(buffer: &[u8], max_line_length: usize) -> (r: Result<Option<(Vec<Vec<u8>>, usize)>, RespError>)
    ensures
        match r {
            Ok(Some((args, consumed))) => frame_at_front(buffer@, max_line_length as int)
                == Ok::<Option<(Seq<Seq<u8>>, int)>, RespError>(Some((arg_views(args@), consumed as int))) && consumed <= buffer@.len(),
            Ok(None) => frame_at_front(buffer@, max_line_length as int) == Ok::<Option<(Seq<Seq<u8>>, int)>, RespError>(None),
            Err(e) => frame_at_front(buffer@, max_line_length as int) == Err::<Option<(Seq<Seq<u8>>, int)>, RespError>(e),
        },
{
    if buffer.len() == 0 {
        return Ok(None);
    }
    let header_end = match find_crlf_or_line_too_long(buffer, 0, max_line_length) {
        Err(e) => return Err(e),
        Ok(None) => return Ok(None),
        Ok(Some(i)) => i,
    };
    proof {
        lemma_crlf_bounds(buffer@, 0);
    }
    if buffer[0] != 42 {
        let line = &buffer[0..header_end];
        return match parse_inline_args(line) {
            Err(e) => Err(e),
            Ok(args) => Ok(Some((args, header_end + 2))),
        };
    }
    let arg_count = match parse_usize(&buffer[1..header_end]) {
        Some(n) => n,
        None => return Err(RespError::InvalidMultibulkLength),
    };
    if arg_count == 0 {
        return Err(RespError::InvalidMultibulkLength);
    }
    let mut cursor = header_end + 2;
    let mut args: Vec<Vec<u8>> = Vec::new();
    let mut k: usize = 0;
    assert(arg_views(args@) =~= Seq::<Seq<u8>>::empty());
    while k < arg_count
        invariant
            k <= arg_count,
            cursor <= buffer@.len(),
            frame_at_front(buffer@, max_line_length as int) == bulk_args(buffer@, cursor as int, arg_count - k, max_line_length as int, arg_views(args@)),
        decreases arg_count - k,
    {
        if cursor >= buffer.len() {
            return Ok(None);
        }
        if buffer[cursor] != 36 {
            return Err(RespError::ExpectedBulkString);
        }
        let length_end = match find_crlf_or_line_too_long(buffer, cursor, max_line_length) {
            Err(e) => return Err(e),
            Ok(None) => return Ok(None),
            Ok(Some(i)) => i,
        };
        proof {
            lemma_crlf_bounds(buffer@, cursor as int);
        }
        let bulk_len = match parse_usize(&buffer[cursor + 1..length_end]) {
            Some(n) => n,
            None => return Err(RespError::InvalidBulkLength),
        };
        let data_start = length_end + 2;
        let data_end = match data_start.checked_add(bulk_len) {
            Some(v) => v,
            None => return Err(RespError::InvalidBulkLength),
        };
        let frame_end = match data_end.checked_add(2) {
            Some(v) => v,
            None => return Err(RespError::InvalidBulkLength),
        };
        if frame_end > buffer.len() {
            return Ok(None);
        }
        if buffer[data_end] != 13 || buffer[data_end + 1] != 10 {
            return Err(RespError::InvalidBulkTerminator);
        }
        let word = slice_vec(buffer, data_start, data_end);
        let ghost before = args@;
        args.push(word);
        assert(arg_views(args@) =~= arg_views(before).push(buffer@.subrange(data_start as int, data_end as int)));
        cursor = frame_end;
        k = k + 1;
    }
    Ok(Some((args, cursor)))
}

proof fn lemma_crlf_bounds(buf: Seq<u8>, i: int)
    requires
        0 <= i,
    ensures
        crlf_from(buf, i) matches Some(k) ==> i <= k && k + 1 < buf.len() && buf[k] == 13 && buf[k + 1] == 10,
    decreases buf.len() - i,
{
    if i + 1 < buf.len() && !(buf[i] == 13 && buf[i + 1] == 10) {
        lemma_crlf_bounds(buf, i + 1);
    }
}

/// Buffers client bytes and parses one request at a time.
#[derive(Debug)]
pub struct RespCommandParser {
    buffer: Vec<u8>,
    max_line_length: usize,
}

/// The parser's state, as values.
pub struct ParserModel {
    pub buffer: Seq<u8>,
    pub max_line_length: int,
}

impl View for RespCommandParser {
    type V = ParserModel;

    closed spec fn view(&self) -> ParserModel {
        ParserModel { buffer: self.buffer@, max_line_length: self.max_line_length as int }
    }
}

/// The value of a parse outcome.
pub open spec fn outcome_view(r: Result<ParseOutcome, RespError>) -> Result<Option<Seq<Seq<u8>>>, RespError> {
    match r {
        Ok(ParseOutcome::Complete(c)) => Ok(Some(arg_views(c.args@))),
        Ok(ParseOutcome::Incomplete) => Ok(None),
        Err(e) => Err(e),
    }
}

impl RespCommandParser {
    /// An empty parser with the default line limit of one mebibyte.
    pub fn new() -> (r: Self)
        ensures
            r@.buffer == Seq::<u8>::empty(),
            r@.max_line_length == 1024 * 1024,
    {
        RespCommandParser { buffer: Vec::new(), max_line_length: 1024 * 1024 }
    }

    /// An empty parser with the given line limit.
    pub fn with_max_line_length(max_line_length: usize) -> (r: Self)
        ensures
            r@.buffer == Seq::<u8>::empty(),
            r@.max_line_length == max_line_length,
    {
        RespCommandParser { buffer: Vec::new(), max_line_length }
    }

    /// Adds bytes after those buffered.
    pub fn append(&mut self, bytes: &[u8])
        ensures
            final(self)@.buffer == old(self)@.buffer + bytes@,
            final(self)@.max_line_length == old(self)@.max_line_length,
    {
        crate::octets::extend_bytes(&mut self.buffer, bytes);
    }

    /// How many bytes are buffered.
    pub fn buffer_len(&self) -> (r: usize)
        ensures
            r == self@.buffer.len(),
    {
        self.buffer.len()
    }

    /// Parses the request at the front of the buffer. A complete request is
    /// removed from the buffer; an incomplete one, or an error, leaves the
    /// buffer as it is.
    pub fn parse_available(&mut self) -> (r: Result<ParseOutcome, RespError>)
        ensures
            final(self)@.max_line_length == old(self)@.max_line_length,
            match frame_at_front(old(self)@.buffer, old(self)@.max_line_length) {
                Ok(Some((args, consumed))) => outcome_view(r) == Ok::<Option<Seq<Seq<u8>>>, RespError>(Some(args))
                    && final(self)@.buffer == old(self)@.buffer.subrange(consumed, old(self)@.buffer.len() as int),
                Ok(None) => r == Ok::<ParseOutcome, RespError>(ParseOutcome::Incomplete) && final(self)@.buffer == old(self)@.buffer,
                Err(e) => r == Err::<ParseOutcome, RespError>(e) && final(self)@.buffer == old(self)@.buffer,
            },
    {
        match parse_front(self.buffer.as_slice(), self.max_line_length) {
            Err(e) => Err(e),
            Ok(None) => Ok(ParseOutcome::Incomplete),
            Ok(Some((args, consumed))) => {
                let rest = self.buffer.split_off(consumed);
                self.buffer = rest;
                Ok(ParseOutcome::Complete(Command { args }))
            },
        }
    }
}

proof fn lemma_bulk_args_progress(buf: Seq<u8>, cursor: int, remaining: int, max: int, acc: Seq<Seq<u8>>)
    requires
        0 <= cursor <= buf.len(),
    ensures
        bulk_args(buf, cursor, remaining, max, acc) matches Ok(Some((_, c))) ==> cursor <= c <= buf.len(),
    decreases remaining,
{
    if remaining > 0 && cursor < buf.len() && buf[cursor] == 36 {
        lemma_crlf_bounds(buf, cursor);
        match line_end(buf, cursor, max) {
            Ok(Some(le)) => match usize_value(buf.subrange(cursor + 1, le)) {
                Some(len) => {
                    lemma_digits_nonneg(buf.subrange(cursor + 1, le));
                    let frame_end = le + 2 + len + 2;
                    if frame_end <= usize::MAX && frame_end <= buf.len() {
                        lemma_bulk_args_progress(buf, frame_end, remaining - 1, max, acc.push(buf.subrange(le + 2, le + 2 + len)));
                    }
                },
                None => {},
            },
            _ => {},
        }
    }
}

/// A complete request takes at least its CR LF and at most the buffer.
pub proof fn lemma_frame_progress(buf: Seq<u8>, max: int)
    ensures
        frame_at_front(buf, max) matches Ok(Some((_, c))) ==> 2 <= c <= buf.len(),
{
    if buf.len() > 0 {
        lemma_crlf_bounds(buf, 0);
        match line_end(buf, 0, max) {
            Ok(Some(he)) => {
                if buf[0] == 42 {
                    match usize_value(buf.subrange(1, he)) {
                        Some(n) => {
                            lemma_bulk_args_progress(buf, he + 2, n, max, Seq::empty());
                        },
                        None => {},
                    }
                }
            },
            _ => {},
        }
    }
}

} // verus!
