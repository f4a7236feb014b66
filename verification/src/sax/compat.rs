//! The queued tokenizer: input arrives in pieces; each complete tag and each
//! run of text is queued as positions in the text received so far, and
//! handed out in turn as an event that borrows from that text.
use vstd::prelude::*;
use std::collections::VecDeque;
use crate::text::{Stop, first_match, lemma_first_match_bounds, is_ascii_space, chars_of, scan};

verus! {

/// An attribute of a start tag: `name="value"`.
#[derive(Debug, PartialEq, Eq)]
pub struct Attribute<'input> {
    pub name: &'input str,
    pub value: &'input str,
}

/// One event, borrowing its text from the parser.
#[derive(Debug, PartialEq, Eq)]
pub enum Event<'input> {
    StartTag { name: &'input str, attributes: Vec<Attribute<'input>> },
    EndTag(&'input str),
    Text(&'input str),
}

/// Why a piece of input cannot be tokenized.
#[derive(Debug, Clone, Copy, PartialEq, Eq, Structural)]
pub enum ParseError {
    EmptyTagName,
    InvalidTagName,
    InvalidAttribute,
    IncompleteAttribute,
}

#[derive(Debug, Clone, Copy, PartialEq, Eq, Structural)]
enum QueuedEventKind {
    StartTag,
    EndTag,
    Text,
}

#[derive(Debug, Clone, Copy)]
struct AttributeSpan {
    name_start: usize,
    name_end: usize,
    value_start: usize,
    value_end: usize,
}

#[derive(Debug)]
struct QueuedEvent {
    kind: QueuedEventKind,
    start: usize,
    end: usize,
    attributes: Vec<AttributeSpan>,
}

/// The tokenizer: the text received so far (also as characters), how far
/// it has been tokenized, and the events not yet handed out.
pub struct SaxParser {
    buffer: String,
    chars: Vec<char>,
    cursor: usize,
    queued: VecDeque<QueuedEvent>,
}

/// An event, as the characters it carries.
pub enum EventModel {
    StartTag { name: Seq<char>, attributes: Seq<(Seq<char>, Seq<char>)> },
    EndTag(Seq<char>),
    Text(Seq<char>),
}

/// The tokenizer as values: the text received so far, the position up to
/// which it has been tokenized, and the queued events.
pub struct SaxModel {
    pub buffer: Seq<char>,
    pub cursor: int,
    pub queued: Seq<EventModel>,
}

/// The model of an event handed out.
pub open spec fn event_model(e: Event) -> EventModel {
    match e {
        Event::StartTag { name, attributes } => EventModel::StartTag {
            name: name@,
            attributes: attributes@.map_values(|a: Attribute| (a.name@, a.value@)),
        },
        Event::EndTag(name) => EventModel::EndTag(name@),
        Event::Text(text) => EventModel::Text(text@),
    }
}

/// The texts of attributes given by the positions of their names and values.
pub open spec fn attribute_texts(b: Seq<char>, spans: Seq<(int, int, int, int)>) -> Seq<(Seq<char>, Seq<char>)> {
    spans.map_values(|p: (int, int, int, int)| (b.subrange(p.0, p.1), b.subrange(p.2, p.3)))
}

/// Why a name is refused: it is empty, or holds ASCII whitespace.
pub open spec fn name_error(name: Seq<char>) -> Option<ParseError> {
    if name.len() == 0 {
        Some(ParseError::EmptyTagName)
    } else if exists|i: int| 0 <= i < name.len() && is_ascii_space(#[trigger] name[i]) {
        Some(ParseError::InvalidTagName)
    } else {
        None
    }
}

/// The first position in `from..to` that is not ASCII whitespace, or `to`.
pub open spec fn skip_space(b: Seq<char>, from: int, to: int) -> int {
    first_match(b, from, to, Stop::NotAsciiSpace)
}

/// The attributes in `b[cur..end]`, by the positions of their names and
/// values: each is a name (up to `=` or whitespace), optional whitespace,
/// `=`, optional whitespace, and a value in double quotes.
pub open spec fn attributes_from(b: Seq<char>, cur: int, end: int) -> Result<Seq<(int, int, int, int)>, ParseError>
    decreases end - cur,
{
    if cur >= end {
        Ok(Seq::empty())
    } else {
        let a = skip_space(b, cur, end);
        if a >= end {
            Ok(Seq::empty())
        } else {
            let ne = first_match(b, a, end, Stop::CharOrAsciiSpace('='));
            match name_error(b.subrange(a, ne)) {
                Some(e) => Err(e),
                None => {
                    let q = skip_space(b, ne, end);
                    if q >= end || b[q] != '=' {
                        Err(ParseError::InvalidAttribute)
                    } else {
                        let r = skip_space(b, q + 1, end);
                        if r >= end || b[r] != '"' {
                            Err(ParseError::InvalidAttribute)
                        } else {
                            let ve = first_match(b, r + 1, end, Stop::Char('"'));
                            if ve >= end {
                                Err(ParseError::IncompleteAttribute)
                            } else {
                                proof {
                                    lemma_first_match_bounds(b, cur, end, Stop::NotAsciiSpace);
                                    lemma_first_match_bounds(b, a, end, Stop::CharOrAsciiSpace('='));
                                    lemma_first_match_bounds(b, ne, end, Stop::NotAsciiSpace);
                                    lemma_first_match_bounds(b, q + 1, end, Stop::NotAsciiSpace);
                                    lemma_first_match_bounds(b, r + 1, end, Stop::Char('"'));
                                }
                                match attributes_from(b, ve + 1, end) {
                                    Ok(rest) => Ok(seq![(a, ne, r + 1, ve)] + rest),
                                    Err(e) => Err(e),
                                }
                            }
                        }
                    }
                }
            }
        }
    }
}

/// The content `b[cs..ce]` of a start tag: the name runs to the first
/// Unicode whitespace; the attributes follow.
pub open spec fn start_tag(b: Seq<char>, cs: int, ce: int) -> Result<(int, Seq<(int, int, int, int)>), ParseError> {
    let ne = first_match(b, cs, ce, Stop::WhiteSpace);
    match name_error(b.subrange(cs, ne)) {
        Some(e) => Err(e),
        None => match attributes_from(b, ne, ce) {
            Ok(attrs) => Ok((ne, attrs)),
            Err(e) => Err(e),
        },
    }
}

/// The event of the tag from `<` at `c` to `>` at `e`: an end tag where the
/// content starts with `/` (its name may hold no whitespace at all), a start
/// tag otherwise.
pub open spec fn tag_event(b: Seq<char>, c: int, e: int) -> Result<EventModel, ParseError> {
    let cs = c + 1;
    if cs < e && b[cs] == '/' {
        if first_match(b, cs + 1, e, Stop::WhiteSpace) < e {
            Err(ParseError::InvalidTagName)
        } else {
            match name_error(b.subrange(cs + 1, e)) {
                Some(x) => Err(x),
                None => Ok(EventModel::EndTag(b.subrange(cs + 1, e))),
            }
        }
    } else {
        match start_tag(b, cs, e) {
            Err(x) => Err(x),
            Ok((ne, attrs)) => Ok(EventModel::StartTag { name: b.subrange(cs, ne), attributes: attribute_texts(b, attrs) }),
        }
    }
}

/// Events found before a position, put in front of what tokenizing from
/// that position gives.
pub open spec fn join(done: Seq<EventModel>, r: (Seq<EventModel>, int, Option<ParseError>)) -> (Seq<EventModel>, int, Option<ParseError>) {
    (done + r.0, r.1, r.2)
}

/// Tokenizing the text `b` from position `c` on: the events found, the
/// position where tokenizing stopped, and the error that stopped it, if
/// any. It stops without error at the end, or at a `<` with no `>` after it
/// yet; it stops with an error at a malformed tag, which stays unconsumed.
/// Text runs up to the next `<` or the end of what was received.
pub open spec fn scan_events(b: Seq<char>, c: int) -> (Seq<EventModel>, int, Option<ParseError>)
    decreases b.len() - c,
{
    if c < 0 || c >= b.len() {
        (Seq::empty(), c, None)
    } else if b[c] == '<' {
        let e = first_match(b, c, b.len() as int, Stop::Char('>'));
        if e >= b.len() {
            (Seq::empty(), c, None)
        } else {
            proof {
                lemma_first_match_bounds(b, c, b.len() as int, Stop::Char('>'));
            }
            match tag_event(b, c, e) {
                Err(x) => (Seq::empty(), c, Some(x)),
                Ok(ev) => join(seq![ev], scan_events(b, e + 1)),
            }
        }
    } else {
        let t = first_match(b, c, b.len() as int, Stop::Char('<'));
        proof {
            lemma_first_match_bounds(b, c + 1, b.len() as int, Stop::Char('<'));
        }
        join(seq![EventModel::Text(b.subrange(c, t))], scan_events(b, t))
    }
}

spec fn spans_of(v: Seq<AttributeSpan>) -> Seq<(int, int, int, int)> {
    v.map_values(|s: AttributeSpan| (s.name_start as int, s.name_end as int, s.value_start as int, s.value_end as int))
}

spec fn spans_within(v: Seq<AttributeSpan>, n: int) -> bool {
    forall|i: int| 0 <= i < v.len() ==> {
        &&& (#[trigger] v[i]).name_start <= v[i].name_end <= n
        &&& v[i].value_start <= v[i].value_end <= n
    }
}

spec fn queued_within(q: QueuedEvent, n: int) -> bool {
    q.start <= q.end <= n && spans_within(q.attributes@, n)
}

spec fn queued_model(b: Seq<char>, q: QueuedEvent) -> EventModel {
    match q.kind {
        QueuedEventKind::StartTag => EventModel::StartTag {
            name: b.subrange(q.start as int, q.end as int),
            attributes: attribute_texts(b, spans_of(q.attributes@)),
        },
        QueuedEventKind::EndTag => EventModel::EndTag(b.subrange(q.start as int, q.end as int)),
        QueuedEventKind::Text => EventModel::Text(b.subrange(q.start as int, q.end as int)),
    }
}

/// Text read through positions in a prefix reads the same after more text
/// is appended.
proof fn lemma_queued_model_append(b: Seq<char>, more: Seq<char>, q: QueuedEvent)
    requires
        queued_within(q, b.len() as int),
    ensures
        queued_model(b + more, q) == queued_model(b, q),
{
    let bb = b + more;
    assert(bb.subrange(q.start as int, q.end as int) =~= b.subrange(q.start as int, q.end as int));
    let sp = spans_of(q.attributes@);
    assert(attribute_texts(bb, sp) =~= attribute_texts(b, sp)) by {
        assert forall|i: int| 0 <= i < sp.len() implies #[trigger] attribute_texts(bb, sp)[i] == attribute_texts(b, sp)[i] by {
            let s = q.attributes@[i];
            assert(bb.subrange(s.name_start as int, s.name_end as int) =~= b.subrange(s.name_start as int, s.name_end as int));
            assert(bb.subrange(s.value_start as int, s.value_end as int) =~= b.subrange(s.value_start as int, s.value_end as int));
        }
    }
}

impl View for SaxParser {
    type V = SaxModel;

    closed spec fn view(&self) -> SaxModel {
        SaxModel {
            buffer: self.buffer@,
            cursor: self.cursor as int,
            queued: self.queued@.map_values(|q: QueuedEvent| queued_model(self.buffer@, q)),
        }
    }
}

impl SaxParser {
    /// The tokenizer's own consistency: its characters are its text, the
    /// cursor lies within it, and every queued position lies within it.
    pub closed spec fn wf(&self) -> bool {
        &&& self.chars@ == self.buffer@
        &&& self.cursor <= self.chars.len()
        &&& forall|i: int| 0 <= i < self.queued@.len() ==> queued_within(#[trigger] self.queued@[i], self.chars.len() as int)
    }

    /// A tokenizer that has received nothing.
    pub fn new() -> (p: Self)
        ensures
            p.wf(),
            p@.buffer == Seq::<char>::empty(),
            p@.cursor == 0,
            p@.queued == Seq::<EventModel>::empty(),
    {
        let p = SaxParser { buffer: String::new(), chars: Vec::new(), cursor: 0, queued: VecDeque::new() };
        assert(p@.queued =~= Seq::<EventModel>::empty());
        p
    }

    /// Appends `input` to the text and queues every complete tag and every
    /// run of text that follows the cursor. A `<` with no `>` after it waits
    /// for more input. A malformed tag is refused and stays unconsumed; the
    /// events queued before it stay queued. On success, the byte length of
    /// `input` is returned.
    pub fn write(&mut self, input: &str) -> (res: Result<usize, ParseError>)
        requires
            old(self).wf(),
        ensures
            final(self).wf(),
            final(self)@.buffer == old(self)@.buffer + input@,
            final(self)@.cursor == scan_events(final(self)@.buffer, old(self)@.cursor).1,
            final(self)@.queued == old(self)@.queued + scan_events(final(self)@.buffer, old(self)@.cursor).0,
            res == (match scan_events(final(self)@.buffer, old(self)@.cursor).2 {
                None => Ok(input.len()),
                Some(e) => Err(e),
            }),
    {
        let ghost old_view = self@;
        let ghost old_queue = self.queued@;
        let ghost old_buffer = self.buffer@;
        self.buffer.append(input);
        let mut more = chars_of(input);
        self.chars.append(&mut more);
        proof {
            assert forall|i: int| 0 <= i < old_queue.len() implies queued_model(self.buffer@, #[trigger] old_queue[i])
                == queued_model(old_buffer, old_queue[i]) by {
                lemma_queued_model_append(old_buffer, input@, old_queue[i]);
            }
            assert(self@.queued =~= old_view.queued);
        }
        let ghost c0 = self.cursor as int;
        let ghost mut pushed: Seq<EventModel> = Seq::empty();
        assert(join(pushed, scan_events(self@.buffer, c0)) =~= scan_events(self@.buffer, c0));
        while self.cursor < self.chars.len()
            invariant
                old_view == old(self)@,
                c0 == old(self)@.cursor,
                self.wf(),
                self@.buffer == old_view.buffer + input@,
                self@.queued == old_view.queued + pushed,
                scan_events(self@.buffer, c0) == join(pushed, scan_events(self@.buffer, self.cursor as int)),
            ensures
                self.wf(),
                self@.buffer == old_view.buffer + input@,
                self@.queued == old_view.queued + pushed,
                scan_events(self@.buffer, c0) == join(pushed, scan_events(self@.buffer, self.cursor as int)),
                scan_events(self@.buffer, self.cursor as int) == (Seq::<EventModel>::empty(), self.cursor as int, None::<ParseError>),
            decreases self.chars.len() - self.cursor,
        {
            let c = self.cursor;
            let ghost b = self@.buffer;
            let ghost before_queue = self.queued@;
            if self.chars[c] == '<' {
                let e = scan(&self.chars, c, self.chars.len(), &Stop::Char('>'));
                if e >= self.chars.len() {
                    break;
                }
                proof {
                    lemma_first_match_bounds(b, c + 1, b.len() as int, Stop::Char('>'));
                }
                let cs = c + 1;
                let queued = if cs < e && self.chars[cs] == '/' {
                    let w = scan(&self.chars, cs + 1, e, &Stop::WhiteSpace);
                    if w < e {
                        assert(scan_events(b, c as int) == (Seq::<EventModel>::empty(), c as int, Some(ParseError::InvalidTagName)));
                        assert(pushed + Seq::<EventModel>::empty() =~= pushed);
                        return Err(ParseError::InvalidTagName);
                    }
                    match check_name(&self.chars, cs + 1, e) {
                        Some(x) => {
                            assert(scan_events(b, c as int) == (Seq::<EventModel>::empty(), c as int, Some(x)));
                            assert(pushed + Seq::<EventModel>::empty() =~= pushed);
                            return Err(x);
                        },
                        None => {},
                    }
                    QueuedEvent { kind: QueuedEventKind::EndTag, start: cs + 1, end: e, attributes: Vec::new() }
                } else {
                    match parse_start_tag(&self.chars, cs, e) {
                        Err(x) => {
                            assert(scan_events(b, c as int) == (Seq::<EventModel>::empty(), c as int, Some(x)));
                            assert(pushed + Seq::<EventModel>::empty() =~= pushed);
                            return Err(x);
                        },
                        Ok((ne, attributes)) => QueuedEvent { kind: QueuedEventKind::StartTag, start: cs, end: ne, attributes },
                    }
                };
                proof {
                    assert(tag_event(b, c as int, e as int) == Ok::<EventModel, ParseError>(queued_model(b, queued)));
                    assert(scan_events(b, c as int) == join(seq![queued_model(b, queued)], scan_events(b, e + 1)));
                }
                self.queued.push_back(queued);
                self.cursor = e + 1;
                proof {
                    assert(self.queued@ == before_queue.push(queued));
                    assert(self@.queued =~= old_view.queued + pushed + seq![queued_model(b, queued)]);
                    assert(join(pushed, join(seq![queued_model(b, queued)], scan_events(b, e + 1)))
                        =~= join(pushed + seq![queued_model(b, queued)], scan_events(b, e + 1)));
                    pushed = pushed + seq![queued_model(b, queued)];
                }
            } else {
                let t = scan(&self.chars, c, self.chars.len(), &Stop::Char('<'));
                proof {
                    lemma_first_match_bounds(b, c + 1, b.len() as int, Stop::Char('<'));
                }
                let queued = QueuedEvent { kind: QueuedEventKind::Text, start: c, end: t, attributes: Vec::new() };
                self.queued.push_back(queued);
                self.cursor = t;
                proof {
                    assert(self.queued@ == before_queue.push(queued));
                    assert(self@.queued =~= old_view.queued + pushed + seq![queued_model(b, queued)]);
                    assert(join(pushed, join(seq![queued_model(b, queued)], scan_events(b, t as int)))
                        =~= join(pushed + seq![queued_model(b, queued)], scan_events(b, t as int)));
                    pushed = pushed + seq![queued_model(b, queued)];
                }
            }
        }
        proof {
            assert(pushed + Seq::<EventModel>::empty() =~= pushed);
        }
        Ok(input.len())
    }

    /// Hands out the oldest queued event, if any, borrowing its text from the
    /// parser.
    pub fn next_event(&mut self) -> (ev: Option<Event<'_>>)
        requires
            old(self).wf(),
        ensures
            final(self).wf(),
            final(self)@.buffer == old(self)@.buffer,
            final(self)@.cursor == old(self)@.cursor,
            ev is None <==> old(self)@.queued.len() == 0,
            ev is None ==> final(self)@.queued == old(self)@.queued,
            ev matches Some(e) ==> event_model(e) == old(self)@.queued[0]
                && final(self)@.queued == old(self)@.queued.drop_first(),
    {
        let ghost old_queue = self.queued@;
        let queued = match self.queued.pop_front() {
            None => {
                assert(self.queued@ == old_queue);
                return None;
            },
            Some(q) => q,
        };
        proof {
            assert(queued == old_queue[0]);
            assert(queued_within(queued, self.chars.len() as int));
            assert(self@.queued =~= old(self)@.queued.drop_first());
            assert(old(self)@.queued[0] == queued_model(self.buffer@, queued));
        }
        let text: &str = self.buffer.as_str();
        let value = text.substring_char(queued.start, queued.end);
        match queued.kind {
            QueuedEventKind::StartTag => {
                let mut attributes: Vec<Attribute<'_>> = Vec::new();
                let mut i: usize = 0;
                while i < queued.attributes.len()
                    invariant
                        text@ == self.buffer@,
                        spans_within(queued.attributes@, text@.len() as int),
                        i <= queued.attributes.len(),
                        attributes@.map_values(|a: Attribute| (a.name@, a.value@))
                            =~= attribute_texts(text@, spans_of(queued.attributes@)).take(i as int),
                    decreases queued.attributes.len() - i,
                {
                    let span = queued.attributes[i];
                    assert(spans_of(queued.attributes@)[i as int] == (span.name_start as int, span.name_end as int, span.value_start as int, span.value_end as int));
                    let attribute = Attribute {
                        name: text.substring_char(span.name_start, span.name_end),
                        value: text.substring_char(span.value_start, span.value_end),
                    };
                    let ghost before = attributes@;
                    attributes.push(attribute);
                    proof {
                        assert(attributes@.map_values(|a: Attribute| (a.name@, a.value@))
                            =~= before.map_values(|a: Attribute| (a.name@, a.value@)).push((attribute.name@, attribute.value@)));
                        assert(attribute_texts(text@, spans_of(queued.attributes@)).take(i + 1)
                            =~= attribute_texts(text@, spans_of(queued.attributes@)).take(i as int).push(
                                attribute_texts(text@, spans_of(queued.attributes@))[i as int]));
                    }
                    i += 1;
                }
                proof {
                    let texts = attribute_texts(text@, spans_of(queued.attributes@));
                    assert(texts.take(i as int) =~= texts);
                    assert(old(self)@.queued[0] == queued_model(self.buffer@, queued));
                }
                Some(Event::StartTag { name: value, attributes })
            },
            QueuedEventKind::EndTag => Some(Event::EndTag(value)),
            QueuedEventKind::Text => Some(Event::Text(value)),
        }
    }
}

impl Default for SaxParser {
    fn default() -> (p: Self)
        ensures
            p.wf(),
            p@.buffer == Seq::<char>::empty(),
            p@.cursor == 0,
            p@.queued == Seq::<EventModel>::empty(),
    {
        Self::new()
    }
}

/// Why the name in `s[start..end]` is refused, if it is.
fn check_name(s: &Vec<char>, start: usize, end: usize) -> (r: Option<ParseError>)
    requires
        start <= end <= s.len(),
    ensures
        r == name_error(s@.subrange(start as int, end as int)),
{
    let ghost name = s@.subrange(start as int, end as int);
    if start == end {
        return Some(ParseError::EmptyTagName);
    }
    let j = scan(s, start, end, &Stop::AsciiSpace);
    if j < end {
        assert(is_ascii_space(name[j - start]));
        Some(ParseError::InvalidTagName)
    } else {
        assert forall|i: int| 0 <= i < name.len() implies !is_ascii_space(#[trigger] name[i]) by {
            assert(name[i] == s@[start + i]);
        }
        None
    }
}

/// Reads the content `b[cs..ce]` of a start tag: the end of its name and
/// the positions of its attributes.
fn parse_start_tag(b: &Vec<char>, cs: usize, ce: usize) -> (r: Result<(usize, Vec<AttributeSpan>), ParseError>)
    requires
        cs <= ce <= b.len(),
    ensures
        match start_tag(b@, cs as int, ce as int) {
            Ok(t) => (r matches Ok((ne, v)) && ne == t.0 && spans_of(v@) == t.1 && cs <= ne <= ce && spans_within(v@, ce as int)),
            Err(e) => r == Err::<(usize, Vec<AttributeSpan>), ParseError>(e),
        },
{
    let ne = scan(b, cs, ce, &Stop::WhiteSpace);
    match check_name(b, cs, ne) {
        Some(e) => {
            return Err(e);
        },
        None => {},
    }
    let mut attributes: Vec<AttributeSpan> = Vec::new();
    let mut cur = ne;
    while cur < ce
        invariant
            cs <= ne <= cur <= ce <= b.len(),
            name_error(b@.subrange(cs as int, ne as int)) is None,
            ne as int == first_match(b@, cs as int, ce as int, Stop::WhiteSpace),
            attributes_from(b@, ne as int, ce as int) == (match attributes_from(b@, cur as int, ce as int) {
                Ok(rest) => Ok(spans_of(attributes@) + rest),
                Err(e) => Err(e),
            }),
            spans_within(attributes@, ce as int),
        decreases ce - cur,
    {
        let ghost done = spans_of(attributes@);
        let a = scan(b, cur, ce, &Stop::NotAsciiSpace);
        if a >= ce {
            assert(attributes_from(b@, cur as int, ce as int) == Ok::<Seq<(int, int, int, int)>, ParseError>(Seq::empty()));
            assert(attributes_from(b@, a as int, ce as int) == Ok::<Seq<(int, int, int, int)>, ParseError>(Seq::empty()));
            cur = a;
        } else {
            let name_end = scan(b, a, ce, &Stop::CharOrAsciiSpace('='));
            match check_name(b, a, name_end) {
                Some(e) => {
                    return Err(e);
                },
                None => {},
            }
            let q = scan(b, name_end, ce, &Stop::NotAsciiSpace);
            if q >= ce || b[q] != '=' {
                return Err(ParseError::InvalidAttribute);
            }
            let r = scan(b, q + 1, ce, &Stop::NotAsciiSpace);
            if r >= ce || b[r] != '"' {
                return Err(ParseError::InvalidAttribute);
            }
            let ve = scan(b, r + 1, ce, &Stop::Char('"'));
            if ve >= ce {
                return Err(ParseError::IncompleteAttribute);
            }
            let span = AttributeSpan { name_start: a, name_end, value_start: r + 1, value_end: ve };
            proof {
                let tail = attributes_from(b@, ve + 1, ce as int);
                assert(attributes_from(b@, cur as int, ce as int) == (match tail {
                    Ok(rest) => Ok(seq![(a as int, name_end as int, r + 1, ve as int)] + rest),
                    Err(e) => Err(e),
                }));
                match tail {
                    Ok(rest) => {
                        assert(done + (seq![(a as int, name_end as int, r + 1, ve as int)] + rest)
                            =~= (done + seq![(a as int, name_end as int, r + 1, ve as int)]) + rest);
                    },
                    Err(_) => {},
                }
            }
            attributes.push(span);
            proof {
                assert(spans_of(attributes@) =~= done + seq![(a as int, name_end as int, r + 1, ve as int)]);
            }
            cur = ve + 1;
        }
    }
    proof {
        assert(spans_of(attributes@) + Seq::<(int, int, int, int)>::empty() =~= spans_of(attributes@));
    }
    Ok((ne, attributes))
}

} // verus!
