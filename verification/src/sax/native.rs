//! The one-shot tokenizer: a whole document in, owned events out.
use vstd::prelude::*;
use crate::text::{Stop, first_match, lemma_first_match_bounds, is_ascii_space, chars_of, scan};

verus! {

/// One event of the document, in order of appearance.
#[derive(Debug, PartialEq, Eq)]
pub enum Event {
    StartTag(String),
    EndTag(String),
    Text(String),
}

/// Why a document cannot be tokenized.
#[derive(Debug, Clone, Copy, PartialEq, Eq, Structural)]
pub enum ParseError {
    EmptyTagName,
    InvalidTagName,
    IncompleteTag,
}

/// An event, as the characters it carries.
pub enum EventModel {
    StartTag(Seq<char>),
    EndTag(Seq<char>),
    Text(Seq<char>),
}

impl Event {
    /// The event as a value.
    pub open spec fn model(self) -> EventModel {
        match self {
            Event::StartTag(s) => EventModel::StartTag(s@),
            Event::EndTag(s) => EventModel::EndTag(s@),
            Event::Text(s) => EventModel::Text(s@),
        }
    }
}

/// A list of events as values.
pub open spec fn events_model(v: Seq<Event>) -> Seq<EventModel> {
    v.map_values(|e: Event| e.model())
}

/// A tokenizer's answer as values.
pub open spec fn outcome_model(r: Result<Vec<Event>, ParseError>) -> Result<Seq<EventModel>, ParseError> {
    match r {
        Ok(v) => Ok(events_model(v@)),
        Err(e) => Err(e),
    }
}

/// Events found before a position, put in front of those found after it.
pub open spec fn prepend(done: Seq<EventModel>, rest: Result<Seq<EventModel>, ParseError>) -> Result<Seq<EventModel>, ParseError> {
    match rest {
        Ok(r) => Ok(done + r),
        Err(e) => Err(e),
    }
}

/// Putting events in front in two steps is putting them in front at once.
proof fn lemma_prepend_twice(a: Seq<EventModel>, b: Seq<EventModel>, r: Result<Seq<EventModel>, ParseError>)
    ensures
        prepend(a, prepend(b, r)) == prepend(a + b, r),
{
    match r {
        Ok(x) => {
            assert(a + (b + x) =~= (a + b) + x);
        },
        Err(_) => {},
    }
}

/// Why a tag name is refused: it is empty, or holds ASCII whitespace.
pub open spec fn name_error(name: Seq<char>) -> Option<ParseError> {
    if name.len() == 0 {
        Some(ParseError::EmptyTagName)
    } else if exists|i: int| 0 <= i < name.len() && is_ascii_space(#[trigger] name[i]) {
        Some(ParseError::InvalidTagName)
    } else {
        None
    }
}

/// The event of a tag whose text between `<` and `>` is `raw`: an end tag
/// where it starts with `/`, a start tag otherwise.
pub open spec fn tag_event(raw: Seq<char>) -> Result<EventModel, ParseError> {
    let is_end = raw.len() > 0 && raw[0] == '/';
    let name = if is_end { raw.subrange(1, raw.len() as int) } else { raw };
    match name_error(name) {
        Some(e) => Err(e),
        None => Ok(if is_end { EventModel::EndTag(name) } else { EventModel::StartTag(name) }),
    }
}

/// The first position at or after `from` that holds `c`, or the length.
pub open spec fn index_of(s: Seq<char>, from: int, c: char) -> int {
    first_match(s, from, s.len() as int, Stop::Char(c))
}

/// The events of the document `s` from position `pos` on: a tag runs from
/// `<` to the next `>` (none is an incomplete tag); text runs to the next
/// `<` or the end.
pub open spec fn events_from(s: Seq<char>, pos: int) -> Result<Seq<EventModel>, ParseError>
    decreases s.len() - pos,
{
    if pos < 0 || pos >= s.len() {
        Ok(Seq::empty())
    } else if s[pos] == '<' {
        let close = index_of(s, pos, '>');
        if close >= s.len() {
            Err(ParseError::IncompleteTag)
        } else {
            proof {
                lemma_first_match_bounds(s, pos, s.len() as int, Stop::Char('>'));
            }
            match tag_event(s.subrange(pos + 1, close)) {
                Err(e) => Err(e),
                Ok(ev) => prepend(seq![ev], events_from(s, close + 1)),
            }
        }
    } else {
        let end = index_of(s, pos, '<');
        proof {
            lemma_first_match_bounds(s, pos + 1, s.len() as int, Stop::Char('<'));
        }
        prepend(seq![EventModel::Text(s.subrange(pos, end))], events_from(s, end))
    }
}

/// The events of a whole document.
pub open spec fn document_events(s: Seq<char>) -> Result<Seq<EventModel>, ParseError> {
    events_from(s, 0)
}

/// Why the name in `s[start..end]` is refused, if it is.
fn check_name(s: &Vec<char>, start: usize, end: usize) -> (r: Option<ParseError>)
    requires
        start <= end <= s.len(),
    ensures
        r == name_error(s@.subrange(start as int, end as int)),
{
    let ghost name = s@.subrange(start as int, end as int);
    if start == end {
        return Some(ParseError::EmptyTagName);
    }
    let j = scan(s, start, end, &Stop::AsciiSpace);
    if j < end {
        assert(is_ascii_space(name[j - start]));
        Some(ParseError::InvalidTagName)
    } else {
        assert forall|i: int| 0 <= i < name.len() implies !is_ascii_space(#[trigger] name[i]) by {
            assert(name[i] == s@[start + i]);
        }
        None
    }
}

/// Tokenizes a whole document into owned events: tags become start or end
/// events (by a leading `/`), the text between them text events. An
/// unclosed tag, an empty tag name or one holding whitespace is refused.
pub fn parse_events(input: &str) -> (res: Result<Vec<Event>, ParseError>)
    ensures
        outcome_model(res) == document_events(input@),
{
    let s = chars_of(input);
    let mut events: Vec<Event> = Vec::new();
    let mut cursor: usize = 0;
    while cursor < s.len()
        invariant
            s@ == input@,
            cursor <= s.len(),
            document_events(s@) == prepend(events_model(events@), events_from(s@, cursor as int)),
        decreases s.len() - cursor,
    {
        let ghost before = events_model(events@);
        if s[cursor] == '<' {
            let close = scan(&s, cursor, s.len(), &Stop::Char('>'));
            proof {
                lemma_first_match_bounds(s@, cursor + 1, s@.len() as int, Stop::Char('>'));
            }
            if close >= s.len() {
                return Err(ParseError::IncompleteTag);
            }
            let is_end = cursor + 1 < close && s[cursor + 1] == '/';
            let name_start = if is_end { cursor + 2 } else { cursor + 1 };
            let ghost raw = s@.subrange(cursor + 1, close as int);
            assert(s@.subrange(name_start as int, close as int) == (if is_end { raw.subrange(1, raw.len() as int) } else { raw }));
            match check_name(&s, name_start, close) {
                Some(e) => {
                    return Err(e);
                },
                None => {},
            }
            let name = input.substring_char(name_start, close).to_owned();
            let ev = if is_end { Event::EndTag(name) } else { Event::StartTag(name) };
            proof {
                assert(tag_event(raw) == Ok::<EventModel, ParseError>(ev.model()));
            }
            proof {
                assert(events_from(s@, cursor as int) == prepend(seq![ev.model()], events_from(s@, close + 1)));
                lemma_prepend_twice(before, seq![ev.model()], events_from(s@, close + 1));
            }
            events.push(ev);
            cursor = close + 1;
        } else {
            let end = scan(&s, cursor, s.len(), &Stop::Char('<'));
            proof {
                lemma_first_match_bounds(s@, cursor + 1, s@.len() as int, Stop::Char('<'));
            }
            let text = input.substring_char(cursor, end).to_owned();
            let ev = Event::Text(text);
            proof {
                assert(events_from(s@, cursor as int) == prepend(seq![ev.model()], events_from(s@, end as int)));
                lemma_prepend_twice(before, seq![ev.model()], events_from(s@, end as int));
            }
            events.push(ev);
            cursor = end;
        }
        proof {
            assert(events_model(events@) == before.push(events@.last().model()));
            assert(events_model(events@) =~= before + seq![events@.last().model()]);
        }
    }
    proof {
        assert(events_model(events@) + Seq::<EventModel>::empty() =~= events_model(events@));
    }
    Ok(events)
}

} // verus!
