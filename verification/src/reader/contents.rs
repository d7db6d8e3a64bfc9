//! The events of a reader are cut out of the document.

use vstd::prelude::*;

use crate::bytes::{AMP, BANG, LT, QUESTION, SEMICOLON, SLASH};
use crate::errors::ErrorView;
use crate::events::EventView;
use crate::parser::scan::{lemma_stop, lemma_stop_inside, stop, stops, Scan};
use crate::reader::bang::bang_kind;
use crate::reader::laws::begun;
use crate::reader::model::{
    after_bytes, bang_step, end_step, mark_len, markup_step, next_step, pi_step, ref_step, settle,
    start_step, text_step, trimmed, Model, Step,
};
use crate::reader::state::{cdata_start, text};
use crate::reader::steps::{heads, lemma_bom, lemma_next_cases};
use crate::reader::ParseState;
use crate::utils::{has_prefix, leading_space, lemma_spaces, lemma_trim_end, lemma_words, word_len};

verus! {

/// The bytes that an event carries.
pub open spec fn content(event: EventView) -> Seq<u8> {
    match event {
        EventView::Start(tag) => tag.content,
        EventView::End(name) => name,
        EventView::Empty(tag) => tag.content,
        EventView::Text(text) => text.content,
        EventView::CData(text) => text.content,
        EventView::Comment(text) => text.content,
        EventView::Decl(content) => content,
        EventView::PI(pi) => pi.content,
        EventView::DocType(text) => text.content,
        EventView::GeneralRef(text) => text.content,
        EventView::Eof => Seq::empty(),
    }
}

/// Whether `part` is a part of the first `n` bytes of `s`.
pub open spec fn is_part(s: Seq<u8>, n: int, part: Seq<u8>) -> bool {
    exists|i: int| 0 <= i <= n - part.len() && #[trigger] s.skip(i).take(part.len() as int) == part
}

/// Whether the event that a step returns is cut out of the bytes that the step consumes.
#[verifier::opaque]
spec fn cuts(m: Model, step: Step) -> bool {
    step.result matches Ok(event) ==> {
        let n = step.model.state.offset - m.state.offset;
        0 <= n <= m.input.bytes.len() && is_part(m.input.bytes, n, content(event))
    }
}

proof fn lemma_part(s: Seq<u8>, n: int, i: int, part: Seq<u8>)
    requires
        0 <= i <= n - part.len(),
        n <= s.len(),
        part =~= s.subrange(i, i + part.len()),
    ensures
        is_part(s, n, part),
{
    assert(s.skip(i).take(part.len() as int) =~= part);
}

proof fn lemma_after_cuts(m: Model, k: int, step: Step)
    requires
        0 <= k <= m.input.bytes.len(),
        cuts(m.advance(k), step),
    ensures
        cuts(m, step),
{
    reveal(cuts);
    if let Ok(event) = step.result {
        let s = m.input.bytes;
        let part = content(event);
        let n = step.model.state.offset - m.state.offset;
        let i = choose|i: int|
            0 <= i <= n - k - part.len() && #[trigger] s.skip(k).skip(i).take(part.len() as int)
                == part;
        assert(s.skip(k).skip(i) =~= s.skip(k + i));
        assert(s.skip(k + i).take(part.len() as int) == part);
    }
}

proof fn lemma_settle_cuts(m: Model, step: Step)
    requires
        cuts(m, step),
    ensures
        cuts(m, settle(step)),
{
    reveal(cuts);
}

proof fn lemma_after_bytes_cuts(m: Model, kept: Seq<u8>, step: Step)
    requires
        cuts(m, step),
    ensures
        cuts(m, after_bytes(kept, step)),
{
    reveal(cuts);
}

proof fn lemma_start_cuts(m: Model)
    ensures
        cuts(m, start_step(m)),
{
    reveal(cuts);
    let s = m.input.bytes;
    lemma_stop_inside(Scan::Tag, s);
    if let Some(i) = stop(Scan::Tag, s) {
        lemma_part(s, i + 1, 0, s.take(i));
        if i > 0 {
            assert(s.take(i).drop_last() =~= s.take(i - 1));
            lemma_part(s, i + 1, 0, s.take(i - 1));
        }
    }
}

proof fn lemma_end_cuts(m: Model)
    requires
        m.input.bytes.len() > 0,
    ensures
        cuts(m, end_step(m)),
{
    let inside = m.advance(1);
    let s = inside.input.bytes;
    lemma_stop_inside(Scan::Tag, s);
    assert(cuts(inside, end_step(m))) by {
        reveal(cuts);
        if let Some(i) = stop(Scan::Tag, s) {
            let bytes = s.take(i);
            lemma_words(bytes);
            lemma_part(s, i + 1, 0, bytes);
            let n = word_len(bytes) as int;
            assert(bytes.take(n) =~= s.take(n));
            lemma_part(s, i + 1, 0, s.take(n));
        }
    }
    lemma_after_cuts(m, 1, end_step(m));
}

proof fn lemma_pi_cuts(m: Model)
    ensures
        cuts(m, pi_step(m)),
{
    reveal(cuts);
    let s = m.input.bytes;
    lemma_stop_inside(Scan::Pi, s);
    if let Some(i) = stop(Scan::Pi, s) {
        if i > 1 {
            let part = s.take(i).subrange(1, i - 1);
            assert(part =~= s.subrange(1, i - 1));
            lemma_part(s, i + 1, 1, part);
        }
    }
}

proof fn lemma_bang_cuts(m: Model)
    requires
        m.input.bytes.len() > 0,
    ensures
        cuts(m, bang_step(m)),
{
    reveal(cuts);
    let s = m.input.bytes;
    if s.len() > 1 && bang_kind(s[1]) is Some {
        let kind = bang_kind(s[1])->Some_0;
        lemma_stop(kind, s);
        if let Some(i) = stop(kind, s) {
            assert(stops(kind, s, i));
            let bytes = s.take(i);
            if kind == Scan::Comment {
                let part = bytes.subrange(3, i - 2);
                assert(part =~= s.subrange(3, i - 2));
                lemma_part(s, i + 1, 3, part);
            } else if kind == Scan::CData && has_prefix(bytes, cdata_start()) {
                assert(bytes.take(8)[7] == cdata_start()[7]);
                assert(bytes.take(8)[6] == cdata_start()[6]);
                let part = bytes.subrange(8, i - 2);
                assert(part =~= s.subrange(8, i - 2));
                lemma_part(s, i + 1, 8, part);
            } else if kind == Scan::DocType && bytes.len() >= 8 {
                let rest = bytes.skip(8);
                let k = leading_space(rest) as int;
                lemma_spaces(rest);
                let part = rest.skip(k);
                assert(part =~= s.subrange(8 + k, i));
                lemma_part(s, i + 1, 8 + k, part);
            }
        }
    }
}

proof fn lemma_markup_cuts(m: Model)
    ensures
        cuts(m, markup_step(m)),
{
    reveal(markup_step);
    let inside = m.goto(ParseState::InsideText);
    let s = inside.input.bytes;
    if s.len() == 0 {
        reveal(cuts);
    } else if s[0] == BANG {
        lemma_bang_cuts(inside);
    } else if s[0] == SLASH {
        lemma_end_cuts(inside);
    } else if s[0] == QUESTION {
        lemma_pi_cuts(inside);
    } else {
        lemma_start_cuts(inside);
    }
    reveal(cuts);
}

/// A text of the first `i` bytes, for which `n` bytes are consumed.
proof fn lemma_text_event_cuts(m: Model, n: int, i: int, step: Step)
    requires
        0 <= i <= n <= m.input.bytes.len(),
        step.model.state.offset == m.state.offset + n,
        step.result == Ok::<EventView, ErrorView>(
            EventView::Text(text(m.state, m.input.bytes.take(i))),
        ) || step.result == Ok::<EventView, ErrorView>(EventView::Eof) || step.result is Err,
    ensures
        cuts(m, step),
{
    reveal(cuts);
    let bytes = m.input.bytes.take(i);
    lemma_trim_end(bytes);
    lemma_part(m.input.bytes, n, 0, text(m.state, bytes).content);
    lemma_part(m.input.bytes, n, 0, Seq::empty());
}

proof fn lemma_ref_cuts(m: Model)
    ensures
        cuts(m, ref_step(m)),
{
    reveal(ref_step);
    let s = m.input.bytes;
    let step = ref_step(m);
    lemma_stop(Scan::Reference, s);
    match stop(Scan::Reference, s) {
        Some(i) => {
            assert(stops(Scan::Reference, s, i));
            if s[i] == AMP {
                lemma_text_event_cuts(m, i, i, step);
            } else if s[i] == SEMICOLON {
                lemma_part(s, i + 1, 1, s.subrange(1, i));
                reveal(cuts);
            } else {
                lemma_text_event_cuts(m, i + 1, i, step);
            }
        },
        None => {
            assert(s.take(s.len() as int) =~= s);
            if m.input.fault is None {
                lemma_text_event_cuts(m, s.len() as int, s.len() as int, step);
            } else {
                reveal(cuts);
            }
        },
    }
}

proof fn lemma_text_cuts(m: Model)
    ensures
        cuts(m, text_step(m)),
{
    reveal(text_step);
    let s = m.input.bytes;
    let step = text_step(m);
    lemma_stop_inside(Scan::Text, s);
    match stop(Scan::Text, s) {
        Some(i) => {
            if text(m.state, s.take(i)).content.len() > 0 {
                lemma_text_event_cuts(
                    m,
                    if s[i] == LT {
                        i + 1
                    } else {
                        i
                    },
                    i,
                    step,
                );
            } else if s[i] == LT {
                lemma_markup_cuts(m.advance(i + 1));
                lemma_after_cuts(m, i + 1, markup_step(m.advance(i + 1)));
                lemma_after_bytes_cuts(m, s.take(i), markup_step(m.advance(i + 1)));
            } else {
                lemma_ref_cuts(m.advance(i));
                lemma_after_cuts(m, i, ref_step(m.advance(i)));
                lemma_after_bytes_cuts(m, s.take(i), ref_step(m.advance(i)));
            }
        },
        None => {
            assert(s.take(s.len() as int) =~= s);
            if m.input.fault is None {
                lemma_text_event_cuts(m, s.len() as int, s.len() as int, step);
            } else {
                reveal(cuts);
            }
        },
    }
}

/// Nothing is made up: the content of an event that is read is a part of the bytes that are
/// consumed for it, as it stands in the document.
pub proof fn law_events_are_cut_out(m: Model, head: Seq<u8>)
    requires
        m.wf(),
        heads(m, head),
        m.state.state != ParseState::InsideEmpty,
    ensures
        ({
            let step = next_step(m, head);
            step.result matches Ok(event) ==> is_part(
                m.input.bytes,
                step.model.state.offset - m.state.offset,
                content(event),
            )
        }),
{
    lemma_next_cases(m, head);
    let start = begun(m, head);
    match start.state.state {
        ParseState::InsideRef => {
            lemma_ref_cuts(start);
            lemma_settle_cuts(start, ref_step(start));
        },
        ParseState::InsideText => {
            lemma_spaces(start.input.bytes);
            let n = trimmed(start);
            lemma_text_cuts(start.advance(n));
            lemma_after_cuts(start, n, text_step(start.advance(n)));
            lemma_settle_cuts(start, text_step(start.advance(n)));
        },
        ParseState::InsideMarkup => {
            lemma_markup_cuts(start);
            lemma_settle_cuts(start, markup_step(start));
        },
        _ => {
            lemma_part(start.input.bytes, 0, 0, Seq::empty());
        },
    }
    reveal(cuts);
    if m.state.state == ParseState::Init {
        lemma_bom(m, head);
        lemma_after_cuts(m, mark_len(m.state.detect, head), next_step(m, head));
    }
}

} // verus!
