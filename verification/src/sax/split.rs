//! The events of the queued tokenizer do not depend on where its input is
//! split, as long as no split falls inside a run of text.
use vstd::prelude::*;
use crate::text::{Stop, first_match, lemma_first_match_bounds};
use super::compat::{attributes_from, join, name_error, scan_events, skip_space, start_tag, tag_event, EventModel, ParseError};

verus! {

/// Two texts hold the same characters at positions `lo..hi`.
pub open spec fn agree(b1: Seq<char>, b2: Seq<char>, lo: int, hi: int) -> bool {
    &&& 0 <= lo
    &&& hi <= b1.len()
    &&& hi <= b2.len()
    &&& forall|i: int| lo <= i < hi ==> b1[i] == b2[i]
}

/// A scan over characters on which two texts agree stops at the same place.
proof fn lemma_first_match_agree(b1: Seq<char>, b2: Seq<char>, from: int, to: int, k: Stop)
    requires
        agree(b1, b2, from, to),
    ensures
        first_match(b1, from, to, k) == first_match(b2, from, to, k),
    decreases to - from,
{
    if from < to {
        lemma_first_match_agree(b1, b2, from + 1, to, k);
    }
}

/// A scan that stops within a shorter range stops at the same place there;
/// one that does not stops at the end of the shorter range.
proof fn lemma_first_match_shorter(b: Seq<char>, from: int, to1: int, to2: int, k: Stop)
    requires
        from <= to1 <= to2,
    ensures
        first_match(b, from, to1, k) == (if first_match(b, from, to2, k) < to1 { first_match(b, from, to2, k) } else { to1 }),
    decreases to1 - from,
{
    if from < to1 {
        lemma_first_match_shorter(b, from + 1, to1, to2, k);
    }
    lemma_first_match_bounds(b, from, to2, k);
}

/// The attributes read from characters on which two texts agree are the
/// same, and lie within those characters.
proof fn lemma_attributes_agree(b1: Seq<char>, b2: Seq<char>, cur: int, end: int)
    requires
        agree(b1, b2, cur, end),
    ensures
        attributes_from(b1, cur, end) == attributes_from(b2, cur, end),
        attributes_from(b1, cur, end) matches Ok(sp) ==> forall|j: int|
            0 <= j < sp.len() ==> cur <= (#[trigger] sp[j]).0 <= sp[j].1 <= end && cur <= sp[j].2 <= sp[j].3 <= end,
    decreases end - cur,
{
    if cur < end {
        lemma_first_match_agree(b1, b2, cur, end, Stop::NotAsciiSpace);
        lemma_first_match_bounds(b1, cur, end, Stop::NotAsciiSpace);
        let a = skip_space(b1, cur, end);
        if a < end {
            lemma_first_match_agree(b1, b2, a, end, Stop::CharOrAsciiSpace('='));
            lemma_first_match_bounds(b1, a, end, Stop::CharOrAsciiSpace('='));
            let ne = first_match(b1, a, end, Stop::CharOrAsciiSpace('='));
            assert(b1.subrange(a, ne) =~= b2.subrange(a, ne));
            if name_error(b1.subrange(a, ne)) is None {
                lemma_first_match_agree(b1, b2, ne, end, Stop::NotAsciiSpace);
                lemma_first_match_bounds(b1, ne, end, Stop::NotAsciiSpace);
                let q = skip_space(b1, ne, end);
                if q < end && b1[q] == '=' {
                    lemma_first_match_agree(b1, b2, q + 1, end, Stop::NotAsciiSpace);
                    lemma_first_match_bounds(b1, q + 1, end, Stop::NotAsciiSpace);
                    let r = skip_space(b1, q + 1, end);
                    if r < end && b1[r] == '"' {
                        lemma_first_match_agree(b1, b2, r + 1, end, Stop::Char('"'));
                        lemma_first_match_bounds(b1, r + 1, end, Stop::Char('"'));
                        let ve = first_match(b1, r + 1, end, Stop::Char('"'));
                        if ve < end {
                            lemma_attributes_agree(b1, b2, ve + 1, end);
                            if attributes_from(b1, ve + 1, end) is Ok {
                                let rest = attributes_from(b1, ve + 1, end)->Ok_0;
                                let sp = seq![(a, ne, r + 1, ve)] + rest;
                                assert forall|j: int| 0 <= j < sp.len() implies cur <= (#[trigger] sp[j]).0 <= sp[j].1 <= end && cur
                                    <= sp[j].2 <= sp[j].3 <= end by {
                                    if j > 0 {
                                        assert(sp[j] == rest[j - 1]);
                                    }
                                }
                            }
                        }
                    }
                }
            }
        }
    }
}

/// The event of a tag on whose characters two texts agree is the same.
proof fn lemma_tag_event_agree(b1: Seq<char>, b2: Seq<char>, c: int, e: int)
    requires
        0 <= c < e,
        agree(b1, b2, c, e),
    ensures
        tag_event(b1, c, e) == tag_event(b2, c, e),
{
    let cs = c + 1;
    if cs < e && b1[cs] == '/' {
        lemma_first_match_agree(b1, b2, cs + 1, e, Stop::WhiteSpace);
        assert(b1.subrange(cs + 1, e) =~= b2.subrange(cs + 1, e));
    } else {
        lemma_first_match_agree(b1, b2, cs, e, Stop::WhiteSpace);
        lemma_first_match_bounds(b1, cs, e, Stop::WhiteSpace);
        let ne = first_match(b1, cs, e, Stop::WhiteSpace);
        assert(b1.subrange(cs, ne) =~= b2.subrange(cs, ne));
        lemma_attributes_agree(b1, b2, ne, e);
        if start_tag(b1, cs, e) is Ok {
            let attrs = start_tag(b1, cs, e)->Ok_0.1;
            assert(super::compat::attribute_texts(b1, attrs) =~= super::compat::attribute_texts(b2, attrs)) by {
                assert forall|j: int| 0 <= j < attrs.len() implies super::compat::attribute_texts(b1, attrs)[j]
                    == super::compat::attribute_texts(b2, attrs)[j] by {
                    let p = attrs[j];
                    assert(b1.subrange(p.0, p.1) =~= b2.subrange(p.0, p.1));
                    assert(b1.subrange(p.2, p.3) =~= b2.subrange(p.2, p.3));
                }
            }
        }
    }
}

/// Whether the tokenizer, reading `w` from `c`, finds a run of text that
/// the position `s` falls strictly inside.
pub open spec fn text_cut(w: Seq<char>, c: int, s: int) -> bool
    decreases w.len() - c,
{
    if c < 0 || c >= s || c >= w.len() {
        false
    } else if w[c] == '<' {
        let e = first_match(w, c, w.len() as int, Stop::Char('>'));
        if e >= w.len() || e >= s {
            false
        } else {
            proof {
                lemma_first_match_bounds(w, c, w.len() as int, Stop::Char('>'));
            }
            text_cut(w, e + 1, s)
        }
    } else {
        let t = first_match(w, c, w.len() as int, Stop::Char('<'));
        proof {
            lemma_first_match_bounds(w, c + 1, w.len() as int, Stop::Char('<'));
        }
        if t > s {
            true
        } else {
            text_cut(w, t, s)
        }
    }
}

/// Tokenizing from `c` the first `s` characters of `w`, where `s` falls
/// inside no run of text, finds the events that tokenizing `w` from `c`
/// finds up to where it stops, and going on in `w` from there finds the
/// rest.
proof fn lemma_scan_split(w: Seq<char>, s: int, c: int)
    requires
        0 <= c <= s <= w.len(),
        scan_events(w, c).2 is None,
        !text_cut(w, c, s),
    ensures
        ({
            let r1 = scan_events(w.subrange(0, s), c);
            &&& r1.2 is None
            &&& c <= r1.1 <= s
            &&& scan_events(w, c) == join(r1.0, scan_events(w, r1.1))
        }),
    decreases w.len() - c,
{
    let a = w.subrange(0, s);
    let n = w.len() as int;
    assert(agree(a, w, 0, s));
    if c == s {
        assert(Seq::<EventModel>::empty() + scan_events(w, c).0 =~= scan_events(w, c).0);
    } else if w[c] == '<' {
        assert(a[c] == '<');
        lemma_first_match_bounds(w, c, n, Stop::Char('>'));
        lemma_first_match_shorter(w, c, s, n, Stop::Char('>'));
        assert(agree(a, w, c, s));
        lemma_first_match_agree(a, w, c, s, Stop::Char('>'));
        let e = first_match(w, c, n, Stop::Char('>'));
        if e >= n || e >= s {
            assert(first_match(a, c, s, Stop::Char('>')) == s);
            assert(Seq::<EventModel>::empty() + scan_events(w, c).0 =~= scan_events(w, c).0);
        } else {
            assert(first_match(a, c, a.len() as int, Stop::Char('>')) == e);
            lemma_first_match_bounds(w, c + 1, n, Stop::Char('>'));
            assert(e == first_match(w, c + 1, n, Stop::Char('>')));
            assert(agree(a, w, c, e));
            lemma_tag_event_agree(a, w, c, e);
            let ev = tag_event(w, c, e)->Ok_0;
            lemma_scan_split(w, s, e + 1);
            let r1 = scan_events(a, e + 1);
            let rest = scan_events(w, r1.1);
            assert(seq![ev] + (r1.0 + rest.0) =~= (seq![ev] + r1.0) + rest.0);
        }
    } else {
        assert(a[c] == w[c]);
        lemma_first_match_bounds(w, c + 1, n, Stop::Char('<'));
        lemma_first_match_bounds(w, c, n, Stop::Char('<'));
        lemma_first_match_shorter(w, c, s, n, Stop::Char('<'));
        assert(agree(a, w, c, s));
        lemma_first_match_agree(a, w, c, s, Stop::Char('<'));
        let t = first_match(w, c, n, Stop::Char('<'));
        assert(t <= s);
        assert(first_match(a, c, a.len() as int, Stop::Char('<')) == t);
        assert(a.subrange(c, t) =~= w.subrange(c, t));
        lemma_first_match_bounds(a, c + 1, a.len() as int, Stop::Char('<'));
        lemma_scan_split(w, s, t);
        let r1 = scan_events(a, t);
        let rest = scan_events(w, r1.1);
        let ev = EventModel::Text(w.subrange(c, t));
        assert(seq![ev] + (r1.0 + rest.0) =~= (seq![ev] + r1.0) + rest.0);
    }
}

/// The events queued by a fresh tokenizer are the same whether it is given
/// a text in one write or as its first `s` characters and then the rest,
/// wherever `s` falls outside every run of text (inside a tag, or between
/// events), when the text is accepted whole: the first write queues what
/// tokenizing the first part finds and stops where that does, and the
/// second, tokenizing the whole text from there, queues the rest and stops
/// where tokenizing it in one go stops. A tag cut by `s` gives no event
/// until the rest of it arrives.
pub proof fn law_events_independent_of_split(w: Seq<char>, s: int)
    requires
        0 <= s <= w.len(),
        scan_events(w, 0).2 is None,
        !text_cut(w, 0, s),
    ensures
        ({
            let r1 = scan_events(w.subrange(0, s), 0);
            let r2 = scan_events(w, r1.1);
            &&& r1.2 is None
            &&& r2.2 is None
            &&& r1.0 + r2.0 == scan_events(w, 0).0
            &&& r2.1 == scan_events(w, 0).1
        }),
{
    lemma_scan_split(w, s, 0);
}

} // verus!
