//! Structural markup events.
//!
//! A document's markup reaches the scanner as an ordered sequence of
//! events, produced by the host's markdown tokenizer: text runs, raw HTML
//! runs (which carry the raw-passthrough markers and the custom directive
//! tags), paragraph markers, fenced-block markers, image markers, and a
//! catch-all for every other construct, carried as its literal text. The
//! serializer renders an event sequence back to text canonically.

use vstd::prelude::*;
use vstd::string::*;

use crate::text::{contains_seq, occurs_at};

verus! {

/// One structural markup event.
#[derive(Debug, Clone, PartialEq)]
pub enum Event {
    /// A plain text run.
    Text(String),
    /// A raw HTML run (inline or block).
    Html(String),
    /// Start of a paragraph.
    ParagraphStart,
    /// End of a paragraph.
    ParagraphEnd,
    /// Start of a fenced code block; the payload is its language tag.
    FenceStart(String),
    /// End of a fenced code block.
    FenceEnd,
    /// Start of an inline image; the payload is its target URL.
    ImageStart(String),
    /// End of an inline image; the payload is its target URL.
    ImageEnd(String),
    /// Any other construct, carried as its literal serialized text.
    Other(String),
}

/// View of `Event`.
#[verifier::ext_equal]
pub enum EventV {
    /// View of `Event::Text`.
    Text(Seq<char>),
    /// View of `Event::Html`.
    Html(Seq<char>),
    /// View of `Event::ParagraphStart`.
    ParagraphStart,
    /// View of `Event::ParagraphEnd`.
    ParagraphEnd,
    /// View of `Event::FenceStart`.
    FenceStart(Seq<char>),
    /// View of `Event::FenceEnd`.
    FenceEnd,
    /// View of `Event::ImageStart`.
    ImageStart(Seq<char>),
    /// View of `Event::ImageEnd`.
    ImageEnd(Seq<char>),
    /// View of `Event::Other`.
    Other(Seq<char>),
}

impl View for Event {
    type V = EventV;

    open spec fn view(&self) -> EventV {
        match self {
            Event::Text(s) => EventV::Text(s@),
            Event::Html(s) => EventV::Html(s@),
            Event::ParagraphStart => EventV::ParagraphStart,
            Event::ParagraphEnd => EventV::ParagraphEnd,
            Event::FenceStart(s) => EventV::FenceStart(s@),
            Event::FenceEnd => EventV::FenceEnd,
            Event::ImageStart(s) => EventV::ImageStart(s@),
            Event::ImageEnd(s) => EventV::ImageEnd(s@),
            Event::Other(s) => EventV::Other(s@),
        }
    }
}

/// The views of a sequence of events.
pub open spec fn events_view(s: Seq<Event>) -> Seq<EventV> {
    s.map_values(|e: Event| e@)
}

/// An event equal to the given one, character for character.
pub fn clone_event(e: &Event) -> (r: Event)
    ensures
        r@ == e@,
{
    match e {
        Event::Text(s) => Event::Text(s.clone()),
        Event::Html(s) => Event::Html(s.clone()),
        Event::ParagraphStart => Event::ParagraphStart,
        Event::ParagraphEnd => Event::ParagraphEnd,
        Event::FenceStart(s) => Event::FenceStart(s.clone()),
        Event::FenceEnd => Event::FenceEnd,
        Event::ImageStart(s) => Event::ImageStart(s.clone()),
        Event::ImageEnd(s) => Event::ImageEnd(s.clone()),
        Event::Other(s) => Event::Other(s.clone()),
    }
}

/// The text an event contributes to the canonical serialization.
pub open spec fn piece(e: EventV) -> Seq<char> {
    match e {
        EventV::Text(s) => s,
        EventV::Html(s) => s,
        EventV::ParagraphStart => Seq::empty(),
        EventV::ParagraphEnd => "\n\n"@,
        EventV::FenceStart(l) => "```"@ + l + "\n"@,
        EventV::FenceEnd => "```\n\n"@,
        EventV::ImageStart(_) => "!["@,
        EventV::ImageEnd(u) => "]("@ + u + ")"@,
        EventV::Other(s) => s,
    }
}

/// The canonical serialization of an event sequence.
pub open spec fn serialize_spec(es: Seq<EventV>) -> Seq<char>
    decreases es.len(),
{
    if es.len() == 0 {
        Seq::empty()
    } else {
        serialize_spec(es.drop_last()) + piece(es.last())
    }
}

/// Render an event sequence back to text, canonically.
pub fn serialize_events(events: &Vec<Event>) -> (r: String)
    ensures
        r@ == serialize_spec(events_view(events@)),
{
    let ghost ev = events_view(events@);
    let mut out = String::new();
    let n = events.len();
    assert(out@ =~= serialize_spec(ev.subrange(0, 0)));
    let mut i: usize = 0;
    while i < n
        invariant
            n == events@.len(),
            ev == events_view(events@),
            i <= n,
            out@ == serialize_spec(ev.subrange(0, i as int)),
        decreases n - i,
    {
        proof {
            assert(ev.subrange(0, i + 1).drop_last() =~= ev.subrange(0, i as int));
            assert(ev.subrange(0, i + 1).last() == ev[i as int]);
            assert(ev[i as int] == events@[i as int]@);
        }
        match &events[i] {
            Event::Text(s) => out.append(s.as_str()),
            Event::Html(s) => out.append(s.as_str()),
            Event::ParagraphStart => (),
            Event::ParagraphEnd => out.append("\n\n"),
            Event::FenceStart(l) => {
                out.append("```");
                out.append(l.as_str());
                out.append("\n");
            },
            Event::FenceEnd => out.append("```\n\n"),
            Event::ImageStart(_) => out.append("!["),
            Event::ImageEnd(u) => {
                out.append("](");
                out.append(u.as_str());
                out.append(")");
            },
            Event::Other(s) => out.append(s.as_str()),
        }
        assert(out@ =~= serialize_spec(ev.subrange(0, i + 1)));
        i += 1;
    }
    assert(ev.subrange(0, n as int) =~= ev);
    out
}

/// A text event's payload occurs in the serialization of its stream.
pub proof fn lemma_serialize_contains_text(es: Seq<EventV>, k: int)
    requires
        0 <= k < es.len(),
        es[k] is Text,
    ensures
        contains_seq(serialize_spec(es), es[k]->Text_0),
    decreases es.len(),
{
    let t = es[k]->Text_0;
    if k == es.len() - 1 {
        let off = serialize_spec(es.drop_last()).len() as int;
        assert(piece(es.last()) == t);
        assert(occurs_at(serialize_spec(es), t, off)) by {
            assert(serialize_spec(es).subrange(off, off + t.len() as int) =~= t);
        }
    } else {
        assert(es.drop_last()[k] == es[k]);
        lemma_serialize_contains_text(es.drop_last(), k);
        let i = choose|i: int| occurs_at(serialize_spec(es.drop_last()), t, i);
        assert(occurs_at(serialize_spec(es), t, i)) by {
            assert(serialize_spec(es).subrange(i, i + t.len() as int) =~= serialize_spec(
                es.drop_last(),
            ).subrange(i, i + t.len() as int));
        }
    }
}

} // verus!
