//! The events of a reader tile the document.

use vstd::prelude::*;

use crate::bytes::{AMP, BANG, CLOSE_BRACKET, GT, HYPHEN, LT, QUESTION, SEMICOLON, SLASH};
use crate::errors::ErrorView;
use crate::events::EventView;
use crate::parser::scan::{lemma_stop, lemma_stop_inside, stop, stops, Scan};
use crate::reader::bang::bang_kind;
use crate::reader::model::{
    after_bom, bang_step, end_step, mark_len, markup_step, next_step, pi_step, ref_step, settle,
    start_step, started_step, text_step, trimmed, Model, Step,
};
use crate::reader::state::{cdata_start, comment_start, continues, starts_doctype};
use crate::reader::steps::{consumes, heads, keeps, lemma_bom, lemma_next_cases, lemma_next_step};
use crate::reader::to_end::untrimmed;
use crate::reader::ParseState;
use crate::utils::{
    has_prefix, leading_space, lemma_spaces, lemma_trim_end, lemma_words, whitespace, word_len,
};

verus! {

/// Whether `piece` is the piece of a document that the event stands for. `expanded` tells whether a
/// start event stands for an empty element.
pub open spec fn stands_for(event: EventView, expanded: bool, piece: Seq<u8>) -> bool {
    match event {
        EventView::Text(text) => piece == text.content,
        EventView::GeneralRef(text) => piece == seq![AMP] + text.content + seq![SEMICOLON],
        EventView::Start(tag) => piece == seq![LT] + tag.content + if expanded {
            seq![SLASH, GT]
        } else {
            seq![GT]
        },
        EventView::Empty(tag) => piece == seq![LT] + tag.content + seq![SLASH, GT],
        EventView::End(name) => {
            &&& has_prefix(piece, seq![LT, SLASH] + name)
            &&& piece.len() > name.len() + 2
            &&& piece.last() == GT
        },
        EventView::Comment(text) => piece == seq![LT] + comment_start() + text.content
            + seq![HYPHEN, HYPHEN, GT],
        EventView::CData(text) => piece == seq![LT] + cdata_start() + text.content
            + seq![CLOSE_BRACKET, CLOSE_BRACKET, GT],
        EventView::Decl(content) => piece == seq![LT, QUESTION] + content + seq![QUESTION, GT],
        EventView::PI(pi) => piece == seq![LT, QUESTION] + pi.content + seq![QUESTION, GT],
        EventView::DocType(text) => {
            let n = piece.len() - text.content.len() - 1;
            &&& n >= 9
            &&& piece[0] == LT
            &&& starts_doctype(piece.skip(1))
            &&& forall|j: int| 9 <= j < n ==> whitespace(#[trigger] piece[j])
            &&& piece.skip(n) == text.content + seq![GT]
        },
        EventView::Eof => piece.len() == 0,
    }
}

/// Whether `kept` are the bytes of the piece that are kept in the buffer: those between the
/// brackets of markup, and those of a reference without its `;`.
pub open spec fn buffers(event: EventView, kept: Seq<u8>, piece: Seq<u8>) -> bool {
    match event {
        EventView::Text(_) | EventView::Eof => piece == kept,
        EventView::GeneralRef(_) => piece == kept + seq![SEMICOLON],
        EventView::End(_) => piece == seq![LT, SLASH] + kept + seq![GT],
        _ => piece == seq![LT] + kept + seq![GT],
    }
}

/// Whether the event that a step returns stands for `lead` and the bytes up to the position after
/// the step.
#[verifier::opaque]
spec fn tiles(m: Model, lead: Seq<u8>, step: Step) -> bool {
    step.result matches Ok(event) ==> {
        let n = step.model.state.position() - m.state.offset;
        &&& 0 <= n <= m.input.bytes.len()
        &&& stands_for(
            event,
            step.model.state.state == ParseState::InsideEmpty,
            lead + m.input.bytes.take(n),
        )
        &&& buffers(event, step.kept, lead + m.input.bytes.take(n))
    }
}

proof fn lemma_start_tiles(m: Model)
    requires
        m.state.state == ParseState::InsideText,
    ensures
        tiles(m, seq![LT], start_step(m)),
{
    reveal(tiles);
    let s = m.input.bytes;
    lemma_stop(Scan::Tag, s);
    if let Some(i) = stop(Scan::Tag, s) {
        assert(stops(Scan::Tag, s, i));
        let bytes = s.take(i);
        let piece = seq![LT] + s.take(i + 1);
        assert(piece =~= seq![LT] + bytes + seq![GT]);
        if i > 0 && bytes.last() == SLASH {
            assert(piece =~= seq![LT] + bytes.drop_last() + seq![SLASH, GT]);
        }
    }
}

proof fn lemma_end_tiles(m: Model)
    requires
        m.state.state == ParseState::InsideText,
        m.input.bytes.len() > 0,
        m.input.bytes[0] == SLASH,
    ensures
        tiles(m, seq![LT], end_step(m)),
{
    reveal(tiles);
    let s = m.input.bytes;
    let inside = s.skip(1);
    lemma_stop(Scan::Tag, inside);
    if let Some(i) = stop(Scan::Tag, inside) {
        assert(stops(Scan::Tag, inside, i));
        let bytes = inside.take(i);
        let piece = seq![LT] + s.take(i + 2);
        lemma_words(bytes);
        assert(piece.last() == inside[i]);
        assert(piece =~= seq![LT, SLASH] + bytes + seq![GT]);
        assert forall|k: int| 0 <= k <= i implies has_prefix(
            piece,
            seq![LT, SLASH] + #[trigger] bytes.take(k),
        ) by {
            assert(piece.take(k + 2) =~= seq![LT, SLASH] + bytes.take(k));
        }
        assert(bytes.take(i) =~= bytes);
        assert(has_prefix(piece, seq![LT, SLASH] + bytes.take(i)));
        assert(has_prefix(piece, seq![LT, SLASH] + bytes.take(word_len(bytes) as int)));
    }
}

proof fn lemma_pi_tiles(m: Model)
    requires
        m.state.state == ParseState::InsideText,
        m.input.bytes.len() > 0,
        m.input.bytes[0] == QUESTION,
    ensures
        tiles(m, seq![LT], pi_step(m)),
{
    reveal(tiles);
    let s = m.input.bytes;
    lemma_stop(Scan::Pi, s);
    if let Some(i) = stop(Scan::Pi, s) {
        assert(stops(Scan::Pi, s, i));
        let bytes = s.take(i);
        assert(seq![LT] + s.take(i + 1) =~= seq![LT] + bytes + seq![GT]);
        if i > 1 {
            assert(seq![LT] + s.take(i + 1) =~= seq![LT, QUESTION] + bytes.subrange(1, i - 1)
                + seq![QUESTION, GT]);
        }
    }
}

proof fn lemma_comment_tiles(s: Seq<u8>, i: int)
    requires
        0 <= i < s.len(),
        stops(Scan::Comment, s, i),
        has_prefix(s.take(i), comment_start()),
    ensures
        seq![LT] + s.take(i + 1) == seq![LT] + comment_start() + s.take(i).subrange(3, i - 2)
            + seq![HYPHEN, HYPHEN, GT],
{
    let bytes = s.take(i);
    assert forall|j: int| 0 <= j < 3 implies #[trigger] s[j] == comment_start()[j] by {
        assert(bytes.take(3)[j] == s[j]);
    }
    assert(seq![LT] + s.take(i + 1) =~= seq![LT] + comment_start() + bytes.subrange(3, i - 2)
        + seq![HYPHEN, HYPHEN, GT]);
}

proof fn lemma_cdata_tiles(s: Seq<u8>, i: int)
    requires
        0 <= i < s.len(),
        stops(Scan::CData, s, i),
        has_prefix(s.take(i), cdata_start()),
    ensures
        seq![LT] + s.take(i + 1) == seq![LT] + cdata_start() + s.take(i).subrange(8, i - 2)
            + seq![CLOSE_BRACKET, CLOSE_BRACKET, GT],
{
    let bytes = s.take(i);
    assert forall|j: int| 0 <= j < 8 implies #[trigger] s[j] == cdata_start()[j] by {
        assert(bytes.take(8)[j] == s[j]);
    }
    assert(s[7] == cdata_start()[7]);
    assert(s[6] == cdata_start()[6]);
    assert(seq![LT] + s.take(i + 1) =~= seq![LT] + cdata_start() + bytes.subrange(8, i - 2)
        + seq![CLOSE_BRACKET, CLOSE_BRACKET, GT]);
}

proof fn lemma_doctype_tiles(s: Seq<u8>, i: int)
    requires
        0 <= i < s.len(),
        s[i] == GT,
        starts_doctype(s.take(i)),
    ensures
        ({
            let rest = s.take(i).skip(8);
            let content = rest.skip(leading_space(rest) as int);
            let piece = seq![LT] + s.take(i + 1);
            let n = piece.len() - content.len() - 1;
            &&& n >= 9
            &&& starts_doctype(piece.skip(1))
            &&& forall|j: int| 9 <= j < n ==> whitespace(#[trigger] piece[j])
            &&& piece.skip(n) == content + seq![GT]
        }),
{
    let bytes = s.take(i);
    let rest = bytes.skip(8);
    let content = rest.skip(leading_space(rest) as int);
    let piece = seq![LT] + s.take(i + 1);
    let n = piece.len() - content.len() - 1;
    lemma_spaces(rest);
    assert forall|j: int| 9 <= j < n implies whitespace(#[trigger] piece[j]) by {
        assert(piece[j] == rest[j - 9]);
    }
    assert forall|j: int| 0 <= j < 8 implies #[trigger] piece.skip(1)[j] == bytes[j] by {}
    assert(piece.skip(n) =~= content + seq![GT]);
}

proof fn lemma_bang_tiles(m: Model)
    requires
        m.state.state == ParseState::InsideText,
        m.input.bytes.len() > 0,
    ensures
        tiles(m, seq![LT], bang_step(m)),
{
    reveal(tiles);
    let s = m.input.bytes;
    if s.len() > 1 && bang_kind(s[1]) is Some {
        let kind = bang_kind(s[1])->Some_0;
        lemma_stop(kind, s);
        if let Some(i) = stop(kind, s) {
            assert(stops(kind, s, i));
            let bytes = s.take(i);
            assert(seq![LT] + s.take(i + 1) =~= seq![LT] + bytes + seq![GT]);
            if kind == Scan::Comment {
                if has_prefix(bytes, comment_start()) {
                    lemma_comment_tiles(s, i);
                }
            } else if kind == Scan::CData {
                if has_prefix(bytes, cdata_start()) {
                    lemma_cdata_tiles(s, i);
                }
            } else if starts_doctype(bytes) {
                lemma_doctype_tiles(s, i);
            }
        }
    }
}

proof fn lemma_markup_tiles(m: Model)
    ensures
        tiles(m, seq![LT], markup_step(m)),
{
    reveal(markup_step);
    let inside = m.goto(ParseState::InsideText);
    let s = inside.input.bytes;
    if s.len() == 0 {
        reveal(tiles);
    } else if s[0] == BANG {
        lemma_bang_tiles(inside);
    } else if s[0] == SLASH {
        lemma_end_tiles(inside);
    } else if s[0] == QUESTION {
        lemma_pi_tiles(inside);
    } else {
        lemma_start_tiles(inside);
    }
    reveal(tiles);
}

proof fn lemma_ref_tiles(m: Model)
    requires
        m.input.bytes.len() > 0 ==> m.input.bytes[0] == AMP,
        !m.state.config.trim_text_end,
    ensures
        tiles(m, Seq::empty(), ref_step(m)),
{
    reveal(ref_step);
    reveal(tiles);
    let s = m.input.bytes;
    lemma_stop(Scan::Reference, s);
    assert(forall|n: int| 0 <= n <= s.len() ==> Seq::empty() + #[trigger] s.take(n) =~= s.take(n));
    match stop(Scan::Reference, s) {
        Some(i) => {
            assert(stops(Scan::Reference, s, i));
            assert(Seq::empty() + s.take(i) =~= s.take(i));
            if s[i] == SEMICOLON {
                assert(Seq::empty() + s.take(i + 1) =~= seq![AMP] + s.subrange(1, i)
                    + seq![SEMICOLON]);
                assert(Seq::empty() + s.take(i + 1) =~= s.take(i) + seq![SEMICOLON]);
            }
        },
        None => {
            assert(Seq::empty() + s.take(s.len() as int) =~= s);
        },
    }
}

/// A step after some bytes were consumed, of which `lead` are the last.
proof fn lemma_after_tiles(m: Model, k: int, step: Step)
    requires
        0 <= k <= m.input.bytes.len(),
        tiles(m.advance(k), m.input.bytes.take(k), step),
    ensures
        tiles(m, Seq::empty(), step),
{
    reveal(tiles);
    if let Ok(_) = step.result {
        let s = m.input.bytes;
        let n = step.model.state.position() - m.state.offset - k;
        assert(s.take(k) + s.skip(k).take(n) =~= Seq::empty() + s.take(k + n));
    }
}

proof fn lemma_text_tiles(m: Model)
    requires
        m.state.state == ParseState::InsideText,
        !m.state.config.trim_text_end,
    ensures
        tiles(m, Seq::empty(), settle(text_step(m))),
{
    reveal(text_step);
    let s = m.input.bytes;
    lemma_stop(Scan::Text, s);
    match stop(Scan::Text, s) {
        Some(i) => {
            assert(stops(Scan::Text, s, i));
            if i > 0 {
                reveal(tiles);
                assert(Seq::empty() + s.take(i) =~= s.take(i));
            } else if s[0] == LT {
                lemma_markup_tiles(m.advance(1));
                lemma_no_eof(m.advance(1));
                assert(s.take(1) =~= seq![LT]);
                lemma_after_tiles(m, 1, markup_step(m.advance(1)));
                assert(s.take(0) + markup_step(m.advance(1)).kept =~= markup_step(
                    m.advance(1),
                ).kept);
                reveal(tiles);
            } else {
                assert(m.advance(0) =~= m) by {
                    assert(s.skip(0) =~= s);
                }
                lemma_ref_tiles(m);
                assert(s.take(0) + ref_step(m).kept =~= ref_step(m).kept);
                reveal(ref_step);
                reveal(tiles);
            }
        },
        None => {
            reveal(tiles);
            assert(Seq::empty() + s.take(s.len() as int) =~= s);
        },
    }
}

/// What a step of a reader that is not in its initial state stands for.
proof fn lemma_started_tiles(m: Model)
    requires
        m.wf(),
        m.state.state != ParseState::Init,
        m.state.config == untrimmed(m.state.config),
    ensures
        m.state.state == ParseState::InsideMarkup ==> tiles(m, seq![LT], started_step(m)),
        m.state.state == ParseState::InsideText || m.state.state == ParseState::InsideRef
            || m.state.state == ParseState::Done ==> tiles(m, Seq::empty(), started_step(m)),
{
    match m.state.state {
        ParseState::InsideRef => {
            lemma_ref_tiles(m);
            reveal(ref_step);
            reveal(tiles);
        },
        ParseState::InsideText => {
            assert(m.advance(trimmed(m)) =~= m) by {
                assert(m.input.bytes.skip(0) =~= m.input.bytes);
            }
            lemma_text_tiles(m);
        },
        ParseState::InsideMarkup => {
            lemma_markup_tiles(m);
            lemma_no_eof(m);
            reveal(tiles);
        },
        _ => {
            reveal(tiles);
            assert(Seq::<u8>::empty() + m.input.bytes.take(0) =~= Seq::empty());
        },
    }
}

/// Markup is never the end of the document.
proof fn lemma_no_eof(m: Model)
    ensures
        markup_step(m).result != Ok::<EventView, ErrorView>(EventView::Eof),
{
    reveal(markup_step);
}

/// The bytes that were consumed for a step, a byte order mark before them not included.
pub open spec fn consumed_by(m: Model, head: Seq<u8>) -> Seq<u8> {
    let n = next_step(m, head).model.state.position() - m.state.position();
    let mark = if m.state.state == ParseState::Init {
        mark_len(m.state.detect, head)
    } else {
        0
    };
    m.unread().subrange(mark, n)
}

/// If white space around text is not removed, as it is by default, the events tile the document.
/// Each stands for the bytes between the position before it and the position after it: a text is
/// these bytes, a reference runs from `&` to `;`, and markup from `<` to `>`. The only event that
/// stands for nothing is the end of an empty element that was expanded. What comes next starts
/// where the event ends. A reader that is given a buffer keeps in it what stands between the
/// brackets. (A byte order mark belongs to the first event.)
pub proof fn law_events_tile_the_document(m: Model, head: Seq<u8>)
    requires
        m.wf(),
        heads(m, head),
        m.state.config == untrimmed(m.state.config),
    ensures
        ({
            let step = next_step(m, head);
            let n = step.model.state.position() - m.state.position();
            &&& step.result matches Ok(event) ==> {
                &&& 0 <= n <= m.unread().len()
                &&& if m.state.state == ParseState::InsideEmpty {
                    n == 0 && event is End && step.kept.len() == 0
                } else {
                    stands_for(
                        event,
                        step.model.state.state == ParseState::InsideEmpty,
                        consumed_by(m, head),
                    ) && buffers(event, step.kept, consumed_by(m, head))
                }
            }
            &&& continues(step.result) ==> 0 <= n <= m.unread().len() && step.model.unread()
                == m.unread().skip(n)
        }),
{
    let step = next_step(m, head);
    let s = m.unread();
    let n = step.model.state.position() - m.state.position();
    lemma_next_cases(m, head);
    lemma_unread(m, head);
    if m.state.state == ParseState::Init {
        let start = after_bom(m, head);
        let k = mark_len(m.state.detect, head);
        lemma_bom(m, head);
        assert(start.wf()) by {
            reveal(keeps);
        }
        lemma_started_tiles(start);
        reveal(tiles);
        if let Ok(_) = step.result {
            assert(Seq::empty() + s.skip(k).take(n - k) =~= s.subrange(k, n));
        }
    } else {
        lemma_started_tiles(m);
        reveal(tiles);
        if let Ok(_) = step.result {
            let bytes = m.input.bytes;
            if m.state.state == ParseState::InsideMarkup {
                assert(seq![LT] + bytes.take(n - 1) =~= s.subrange(0, n));
            } else if m.state.state != ParseState::InsideEmpty {
                assert(Seq::empty() + bytes.take(n) =~= s.subrange(0, n));
            }
        }
    }
}

/// What is left of the document after an event.
proof fn lemma_unread(m: Model, head: Seq<u8>)
    requires
        m.wf(),
        heads(m, head),
    ensures
        ({
            let step = next_step(m, head);
            let n = step.model.state.position() - m.state.position();
            continues(step.result) ==> 0 <= n <= m.unread().len() && step.model.unread()
                == m.unread().skip(n)
        }),
{
    let step = next_step(m, head);
    lemma_next_step(m, head);
    reveal(keeps);
    reveal(consumes);
    if continues(step.result) {
        let n = step.model.state.position() - m.state.position();
        assert(step.model.unread() =~= m.unread().skip(n));
    }
}

/// Every event moves the position of the reader, except for the end of an empty element that was
/// expanded. (A reader that has seen `&` is at it, unless bytes were taken from its source in
/// between.)
pub proof fn law_every_event_moves(m: Model, head: Seq<u8>)
    requires
        m.wf(),
        heads(m, head),
        m.state.state == ParseState::InsideRef ==> m.input.bytes.len() > 0,
    ensures
        ({
            let step = next_step(m, head);
            continues(step.result) ==> if m.state.state == ParseState::InsideEmpty {
                &&& step.result is Ok && step.result->Ok_0 is End
                &&& step.model.state.position() == m.state.position()
                &&& step.model.state.state == ParseState::InsideText
            } else {
                step.model.state.position() > m.state.position()
            }
        }),
{
    lemma_next_step(m, head);
    reveal(consumes);
    lemma_next_cases(m, head);
    if m.input.bytes.len() == 0 {
        reveal(markup_step);
        reveal(text_step);
        if m.state.state == ParseState::Init {
            lemma_bom(m, head);
        }
        lemma_spaces(m.input.bytes);
        lemma_trim_end(Seq::empty());
        assert(m.input.bytes.skip(0) =~= m.input.bytes);
        assert(m.input.bytes =~= Seq::empty());
        lemma_stop_inside(Scan::Text, m.input.bytes);
    }
}

/// The reader after it was called `n` times for an event.
pub open spec fn after_events(m: Model, head: Seq<u8>, n: nat) -> Model
    decreases n,
{
    if n == 0 {
        m
    } else {
        after_events(next_step(m, head).model, head, (n - 1) as nat)
    }
}

/// A reader that is done stays so.
proof fn lemma_done_after_events(m: Model, head: Seq<u8>, n: nat)
    requires
        m.state.state == ParseState::Done,
    ensures
        after_events(m, head, n).state.state == ParseState::Done,
    decreases n,
{
    if n > 0 {
        lemma_next_cases(m, head);
        lemma_done_after_events(next_step(m, head).model, head, (n - 1) as nat);
    }
}

/// How often a reader can be called at most before it is done, the last call not included.
pub open spec fn most_calls(m: Model) -> nat {
    2 * m.unread().len() + if m.state.state == ParseState::InsideEmpty {
        1nat
    } else {
        0
    }
}

proof fn lemma_most_calls(m: Model, head: Seq<u8>, n: nat)
    requires
        m.wf(),
        heads(m, head),
        n > most_calls(m),
    ensures
        after_events(m, head, n).state.state == ParseState::Done,
    decreases n,
{
    let step = next_step(m, head);
    lemma_next_step(m, head);
    reveal(keeps);
    lemma_next_cases(m, head);
    if step.model.state.state == ParseState::Done {
        lemma_done_after_events(step.model, head, (n - 1) as nat);
    } else {
        if m.state.state == ParseState::InsideRef && m.input.bytes.len() == 0 {
            reveal(ref_step);
            lemma_stop_inside(Scan::Reference, m.input.bytes);
        }
        lemma_unread(m, head);
        law_every_event_moves(m, head);
        lemma_most_calls(step.model, head, (n - 1) as nat);
    }
}

/// Reading comes to an end soon: a reader with `n` bytes ahead is done after `2 * n + 1` calls at
/// most, whatever it returns. (It can return one event for every byte, and an expanded empty
/// element is two events.)
pub proof fn law_ends_in_time(m: Model, head: Seq<u8>)
    requires
        m.wf(),
        heads(m, head),
    ensures
        after_events(m, head, most_calls(m) + 1).state.state == ParseState::Done,
        m.state.state == ParseState::Init ==> after_events(
            m,
            head,
            2 * m.input.bytes.len() + 1,
        ).state.state == ParseState::Done,
{
    lemma_most_calls(m, head, most_calls(m) + 1);
}

} // verus!
