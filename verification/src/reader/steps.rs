//! What holds of every step of a reader.

use vstd::prelude::*;

use crate::bytes::{AMP, BANG, HYPHEN, LT, QUESTION, SEMICOLON, SLASH};
use crate::errors::{ErrorView, SyntaxError};
use crate::events::EventView;
use crate::parser::fast_element::unclosed_tag;
use crate::parser::pi::unclosed_pi;
use crate::parser::scan::{lemma_stop, lemma_stop_inside, stop, stops, Scan};
use crate::reader::bang::{bang_kind, unclosed_bang};
use crate::reader::model::{
    after_bom, after_bytes, bang_step, emit_step, end_step, fault_step, inside_text_step,
    invalid_bang_step, mark_len, markup_step, next_step, pi_step, ref_step, settle, start_step,
    started_step, text_step, trimmed, unclosed_step, Model, Step,
};
use crate::reader::source::{lemma_failed_input, lemma_skipped_input, tag_fits, Input};
use crate::reader::state::{
    continues, double_hyphen_from, emit_bang, emit_end, emit_question_mark, emit_start, text,
    Emitted, StateView,
};
use crate::reader::ParseState;
use crate::utils::{has_prefix, lemma_spaces, lemma_trim_end, lemma_words, word_len};

verus! {

/// How many steps a reader can still make before reading cannot go on.
pub open spec fn measure(m: Model) -> nat {
    3 * m.input.bytes.len() + match m.state.state {
        ParseState::Done => 0nat,
        ParseState::InsideEmpty => 2,
        _ => 1,
    }
}

/// Whether `head` can be what the source of the reader gives at once, if that matters.
pub open spec fn heads(m: Model, head: Seq<u8>) -> bool {
    m.state.state == ParseState::Init ==> has_prefix(m.input.bytes, head)
}

/// Whether the reader is between the two events of an empty element only just after the first.
pub open spec fn expands(step: Step) -> bool {
    step.model.state.state == ParseState::InsideEmpty ==> {
        &&& step.result matches Ok(EventView::Start(tag))
        &&& step.model.state.opened.last() == tag.name()
    }
}

/// What every step keeps: the reader stays one on which calls can be made, its settings stay as
/// they are, no bytes come back and no position gets smaller.
#[verifier::opaque]
pub open spec fn keeps(m: Model, step: Step) -> bool {
    let next = step.model;
    &&& next.wf()
    &&& next.state.config == m.state.config
    &&& next.state.detect == m.state.detect
    &&& next.input.retains == m.input.retains
    &&& next.input.extent() <= m.input.extent()
    &&& next.state.offset >= m.state.offset
    &&& next.state.position() >= m.state.position()
    &&& forall|n: nat| m.state.can_decode(n) ==> #[trigger] next.state.can_decode(n)
    &&& expands(step)
    &&& next.state.state != ParseState::Init
}

/// If reading can go on, only bytes from what lies ahead were consumed, and all of them count.
#[verifier::opaque]
pub open spec fn consumes(m: Model, step: Step) -> bool {
    continues(step.result) ==> {
        let n = step.model.state.offset - m.state.offset;
        &&& 0 <= n <= m.input.bytes.len()
        &&& step.model.input == m.input.skip(n)
        &&& measure(step.model) < measure(m)
        &&& reads_tag(m, step.result) ==> n > 0
        &&& m.state.state != ParseState::InsideEmpty && m.input.bytes.len() > 0
            ==> step.model.state.position() > m.state.position()
        &&& step.model.state.state == ParseState::InsideMarkup ==> n > 0 && m.input.bytes[n - 1]
            == LT
    }
}

/// Whether the result is a start or end tag that is read from what lies ahead.
pub open spec fn reads_tag(m: Model, result: Result<EventView, ErrorView>) -> bool {
    &&& result is Ok
    &&& result->Ok_0 is Start || result->Ok_0 is End && m.state.state != ParseState::InsideEmpty
}

/// If reading can go on, the reader came nearer to its end.
#[verifier::opaque]
pub open spec fn advances(m: Model, step: Step) -> bool {
    &&& continues(step.result) ==> {
        &&& measure(step.model) < measure(m)
        &&& step.model.state.offset + step.model.input.bytes.len() <= m.state.offset
            + m.input.bytes.len()
    }
    &&& reads_tag(m, step.result) ==> step.model.input.bytes.len() < m.input.bytes.len()
}

/// A reader that did not find the end of markup is done.
proof fn lemma_unclosed_step(m: Model, at: int, error: SyntaxError)
    requires
        m.wf(),
        m.state.state == ParseState::InsideText,
        0 <= at <= m.state.offset,
    ensures
        keeps(m, settle(unclosed_step(m, at, error))),
        consumes(m, unclosed_step(m, at, error)),
{
    reveal(keeps);
    reveal(consumes);
    lemma_skipped_input(m.input, m.input.bytes.len() as int);
    if let Some(fault) = m.input.fault {
        lemma_failed_input(m.input, fault, m.input.retains);
    }
}

/// What was emitted from a state leaves the settings as they are.
spec fn emits(st: StateView, emitted: Emitted) -> bool {
    &&& emitted.state.wf()
    &&& emitted.state.offset == st.offset
    &&& emitted.state.config == st.config
    &&& emitted.state.detect == st.detect
    &&& emitted.state.state == ParseState::InsideText || emitted.state.state
        == ParseState::InsideEmpty
    &&& emitted.state.state == ParseState::InsideEmpty ==> {
        &&& emitted.result matches Ok(EventView::Start(tag))
        &&& emitted.state.opened.last() == tag.name()
    }
    &&& forall|n: nat| st.can_decode(n) ==> #[trigger] emitted.state.can_decode(n)
}

/// Emitting an event after some bytes were consumed.
proof fn lemma_emit_step(m: Model, n: int, kept: Seq<u8>, emitted: Emitted)
    requires
        m.wf(),
        m.state.state == ParseState::InsideText,
        0 < n <= m.input.bytes.len(),
        emits(m.advance(n).state, emitted),
    ensures
        keeps(m, settle(emit_step(m.advance(n), kept, emitted))),
        consumes(m, emit_step(m.advance(n), kept, emitted)),
{
    reveal(keeps);
    reveal(consumes);
    let next = settle(emit_step(m.advance(n), kept, emitted)).model.state;
    assert forall|k: nat| m.state.can_decode(k) implies #[trigger] next.can_decode(k) by {
        assert(m.advance(n).state.can_decode(k));
        assert(emitted.state.can_decode(k));
    }
    lemma_skipped_input(m.input, n);
    assert(m.state.can_decode(m.input.extent()) ==> next.can_decode(m.input.extent()));
}

proof fn lemma_emit_start(st: StateView, name_len: nat, bytes: Seq<u8>)
    requires
        st.wf(),
        st.state == ParseState::InsideText,
        name_len <= bytes.len(),
        st.can_decode(bytes.len()),
    ensures
        emits(st, emit_start(st, name_len, bytes)),
{
    let next = emit_start(st, name_len, bytes).state;
    assert forall|j: int| 0 <= j < next.opened.len() implies next.can_decode(
        #[trigger] next.opened[j].len(),
    ) by {
        if j < st.opened.len() {
            assert(next.opened[j] == st.opened[j]);
        }
    }
}

proof fn lemma_emit_end(st: StateView, name_len: nat, bytes: Seq<u8>)
    requires
        st.wf(),
        st.state == ParseState::InsideText,
        st.offset >= bytes.len() + 3,
    ensures
        emits(st, emit_end(st, name_len, bytes)),
{
    let next = emit_end(st, name_len, bytes).state;
    assert forall|j: int| 0 <= j < next.opened.len() implies next.can_decode(
        #[trigger] next.opened[j].len(),
    ) by {
        assert(next.opened[j] == st.opened[j]);
    }
}

proof fn lemma_emit_question_mark(st: StateView, bytes: Seq<u8>)
    requires
        st.wf(),
        st.state == ParseState::InsideText,
        st.offset >= bytes.len() + 2,
    ensures
        emits(st, emit_question_mark(st, bytes)),
{
}

pub(crate) proof fn lemma_double_hyphen(s: Seq<u8>, from: int)
    requires
        0 <= from,
    ensures
        double_hyphen_from(s, from) matches Some(p) ==> {
            &&& from <= p < s.len() - 5
            &&& s[p + 3] == HYPHEN
            &&& s[p + 4] == HYPHEN
            &&& forall|q: int|
                from <= q < p ==> !(#[trigger] s[q + 3] == HYPHEN && s[q + 4] == HYPHEN)
        },
        double_hyphen_from(s, from) is None ==> forall|p: int|
            from <= p < s.len() - 5 ==> !(#[trigger] s[p + 3] == HYPHEN && s[p + 4] == HYPHEN),
    decreases s.len() - from,
{
    if from < s.len() - 5 && !(s[from + 3] == HYPHEN && s[from + 4] == HYPHEN) {
        lemma_double_hyphen(s, from + 1);
    }
}

proof fn lemma_emit_bang(st: StateView, kind: Scan, bytes: Seq<u8>)
    requires
        st.wf(),
        st.state == ParseState::InsideText,
        st.offset >= bytes.len() + 2,
    ensures
        emits(st, emit_bang(st, kind, bytes)),
{
    lemma_double_hyphen(bytes, 0);
}

/// A tag that is found ahead can be decoded.
pub(crate) proof fn lemma_tag_decodes(m: Model, p: int)
    requires
        m.wf(),
        0 <= p <= m.input.bytes.len(),
    ensures
        stop(Scan::Tag, m.input.bytes.skip(p)) matches Some(i) ==> i >= 0 && m.state.can_decode(
            i as nat,
        ),
        p == 0 ==> m.input.bytes.skip(p) == m.input.bytes,
{
    let s = m.input.bytes.skip(p);
    lemma_stop_inside(Scan::Tag, s);
    assert(p == 0 ==> s =~= m.input.bytes);
    if m.input.tags_fit() {
        reveal(Input::tags_fit);
        assert(tag_fits(s));
    }
}

proof fn lemma_start_step(m: Model)
    requires
        m.wf(),
        m.state.state == ParseState::InsideText,
        m.state.offset > 0,
    ensures
        keeps(m, settle(start_step(m))),
        consumes(m, start_step(m)),
{
    let s = m.input.bytes;
    lemma_stop_inside(Scan::Tag, s);
    match stop(Scan::Tag, s) {
        Some(i) => {
            let content = s.take(i);
            let st = m.advance(i + 1).state;
            lemma_words(content);
            lemma_tag_decodes(m, 0);
            lemma_emit_start(st, word_len(content), content);
            lemma_emit_step(m, i + 1, content, emit_start(st, word_len(content), content));
        },
        None => {
            lemma_unclosed_step(m, m.state.offset - 1, unclosed_tag(s));
        },
    }
}

/// A step after some bytes were consumed is a step before that.
proof fn lemma_after(m: Model, n: int, step: Step)
    requires
        m.wf(),
        m.state.state == ParseState::InsideText,
        0 <= n <= m.input.bytes.len(),
        keeps(m.advance(n), step),
        consumes(m.advance(n), step),
    ensures
        keeps(m, step),
        consumes(m, step),
{
    reveal(keeps);
    reveal(consumes);
    if continues(step.result) {
        let k = step.model.state.offset - m.state.offset;
        assert(m.advance(n).input.bytes.skip(k - n) =~= m.input.bytes.skip(k));
    }
}

/// What is kept in the buffer does not matter.
proof fn lemma_after_bytes(m: Model, kept: Seq<u8>, step: Step)
    requires
        keeps(m, settle(step)),
        consumes(m, step),
    ensures
        keeps(m, settle(after_bytes(kept, step))),
        consumes(m, after_bytes(kept, step)),
        consumes(m, settle(step)),
{
    reveal(keeps);
    reveal(consumes);
}

proof fn lemma_end_step(m: Model)
    requires
        m.wf(),
        m.state.state == ParseState::InsideText,
        m.state.offset > 0,
        m.input.bytes.len() > 0,
    ensures
        keeps(m, settle(end_step(m))),
        consumes(m, end_step(m)),
{
    let inside = m.advance(1);
    let s = inside.input.bytes;
    lemma_skipped_input(m.input, 1);
    lemma_stop_inside(Scan::Tag, s);
    match stop(Scan::Tag, s) {
        Some(i) => {
            let content = s.take(i);
            let st = inside.advance(i + 1).state;
            lemma_emit_end(st, word_len(content), content);
            lemma_emit_step(inside, i + 1, content, emit_end(st, word_len(content), content));
        },
        None => {
            lemma_unclosed_step(inside, m.state.offset - 1, unclosed_tag(s));
        },
    }
    lemma_settled(inside, end_step(m));
    lemma_after(m, 1, settle(end_step(m)));
    lemma_unsettled(m, end_step(m));
}

proof fn lemma_pi_step(m: Model)
    requires
        m.wf(),
        m.state.state == ParseState::InsideText,
        m.state.offset > 0,
    ensures
        keeps(m, settle(pi_step(m))),
        consumes(m, pi_step(m)),
{
    let s = m.input.bytes;
    lemma_stop_inside(Scan::Pi, s);
    match stop(Scan::Pi, s) {
        Some(i) => {
            let st = m.advance(i + 1).state;
            lemma_emit_question_mark(st, s.take(i));
            lemma_emit_step(m, i + 1, s.take(i), emit_question_mark(st, s.take(i)));
        },
        None => {
            lemma_unclosed_step(m, m.state.offset - 1, unclosed_pi(s));
        },
    }
}

proof fn lemma_invalid_bang_step(m: Model)
    requires
        m.wf(),
        m.state.state == ParseState::InsideText,
        m.state.offset > 0,
        m.input.bytes.len() > 0,
    ensures
        keeps(m, settle(invalid_bang_step(m))),
        consumes(m, invalid_bang_step(m)),
{
    reveal(keeps);
    reveal(consumes);
    lemma_skipped_input(m.input, 1);
}

proof fn lemma_bang_step(m: Model)
    requires
        m.wf(),
        m.state.state == ParseState::InsideText,
        m.state.offset > 0,
        m.input.bytes.len() > 0,
    ensures
        keeps(m, settle(bang_step(m))),
        consumes(m, bang_step(m)),
{
    let s = m.input.bytes;
    if s.len() == 1 && m.input.fault is Some {
        reveal(keeps);
        reveal(consumes);
        lemma_failed_input(m.input, m.input.fault->Some_0, m.input.retains);
    } else if s.len() == 1 || bang_kind(s[1]) is None {
        lemma_invalid_bang_step(m);
    } else {
        let kind = bang_kind(s[1])->Some_0;
        lemma_stop_inside(kind, s);
        match stop(kind, s) {
            Some(i) => {
                let st = m.advance(i + 1).state;
                lemma_emit_bang(st, kind, s.take(i));
                lemma_emit_step(m, i + 1, s.take(i), emit_bang(st, kind, s.take(i)));
            },
            None => {
                lemma_unclosed_step(m, m.state.offset - 1, unclosed_bang(kind));
            },
        }
    }
}

/// What a step of a reader after `<` keeps is what it keeps after it went to the `InsideText`
/// state.
proof fn lemma_goto_text(m: Model, step: Step)
    requires
        m.wf(),
        m.state.state != ParseState::Done,
        m.state.state != ParseState::InsideEmpty,
        keeps(m.goto(ParseState::InsideText), settle(step)),
        consumes(m.goto(ParseState::InsideText), step),
    ensures
        keeps(m, settle(step)),
        consumes(m, step),
{
    reveal(keeps);
    reveal(consumes);
}

proof fn lemma_empty_markup(m: Model)
    requires
        m.wf(),
        m.state.state == ParseState::InsideText,
        m.state.offset > 0,
        m.input.bytes.len() == 0,
    ensures
        keeps(m, settle(markup_step(m))),
        consumes(m, markup_step(m)),
{
    reveal(markup_step);
    reveal(keeps);
    reveal(consumes);
    if let Some(fault) = m.input.fault {
        lemma_failed_input(m.input, fault, m.input.retains);
    }
}

proof fn lemma_markup_step(m: Model)
    requires
        m.wf(),
        m.state.state != ParseState::Done,
        m.state.state != ParseState::InsideEmpty,
        m.state.offset > 0,
    ensures
        keeps(m, settle(markup_step(m))),
        consumes(m, markup_step(m)),
{
    reveal(markup_step);
    let inside = m.goto(ParseState::InsideText);
    assert(inside.goto(ParseState::InsideText) == inside);
    if inside.input.bytes.len() == 0 {
        lemma_empty_markup(inside);
    } else if inside.input.bytes[0] == BANG {
        lemma_bang_step(inside);
    } else if inside.input.bytes[0] == SLASH {
        lemma_end_step(inside);
    } else if inside.input.bytes[0] == QUESTION {
        lemma_pi_step(inside);
    } else {
        lemma_start_step(inside);
    }
    lemma_goto_text(m, markup_step(m));
}

/// A step that consumes some bytes, of which the last is `<` if markup follows and after which `&`
/// comes if a reference follows.
proof fn lemma_moved(m: Model, n: int, state: ParseState, error_offset: int, step: Step)
    requires
        m.wf(),
        m.state.state == ParseState::InsideText || m.state.state == ParseState::InsideRef,
        0 < n <= m.input.bytes.len(),
        state == ParseState::InsideMarkup ==> n > 1,
        error_offset == m.state.error_offset || error_offset == m.state.offset,
        step.model == m.advance(n).goto(state).error_at(error_offset),
        continues(step.result),
        !reads_tag(m, step.result),
        state == ParseState::InsideText || state == ParseState::InsideMarkup && m.input.bytes[n - 1]
            == LT || state == ParseState::InsideRef && n < m.input.bytes.len() && m.input.bytes[n]
            == AMP,
    ensures
        keeps(m, settle(step)),
        consumes(m, step),
{
    reveal(keeps);
    reveal(consumes);
    lemma_skipped_input(m.input, n);
    if n < m.input.bytes.len() {
        assert(m.input.bytes.skip(n)[0] == m.input.bytes[n]);
    }
}

proof fn lemma_ref_step(m: Model)
    requires
        m.wf(),
        m.state.state == ParseState::InsideText || m.state.state == ParseState::InsideRef,
    ensures
        keeps(m, settle(ref_step(m))),
        consumes(m, ref_step(m)),
{
    reveal(ref_step);
    let s = m.input.bytes;
    let step = ref_step(m);
    let at = if m.state.config.allow_dangling_amp {
        m.state.error_offset
    } else {
        m.state.offset
    };
    lemma_stop(Scan::Reference, s);
    match stop(Scan::Reference, s) {
        Some(i) => {
            assert(stops(Scan::Reference, s, i));
            if s[i] == AMP {
                lemma_moved(m, i, ParseState::InsideRef, at, step);
            } else if s[i] == SEMICOLON {
                lemma_moved(m, i + 1, ParseState::InsideText, m.state.error_offset, step);
            } else {
                lemma_moved(m, i + 1, ParseState::InsideMarkup, at, step);
            }
        },
        None => {
            reveal(keeps);
            reveal(consumes);
            lemma_skipped_input(m.input, s.len() as int);
            if let Some(fault) = m.input.fault {
                lemma_failed_input(m.input, fault, m.input.retains);
            }
        },
    }
}

proof fn lemma_last_text(m: Model, step: Step)
    requires
        m.wf(),
        m.state.state == ParseState::InsideText,
        match m.input.fault {
            Some(fault) => step == fault_step(m.drain(), fault, m.input.bytes),
            None => step.model == m.drain().goto(ParseState::Done) && !reads_tag(m, step.result),
        },
    ensures
        keeps(m, settle(step)),
        consumes(m, step),
{
    reveal(keeps);
    reveal(consumes);
    lemma_skipped_input(m.input, m.input.bytes.len() as int);
    if let Some(fault) = m.input.fault {
        lemma_failed_input(m.input, fault, m.input.retains);
    }
}

proof fn lemma_text_step(m: Model)
    requires
        m.wf(),
        m.state.state == ParseState::InsideText,
    ensures
        keeps(m, settle(text_step(m))),
        consumes(m, text_step(m)),
{
    reveal(text_step);
    let s = m.input.bytes;
    let step = text_step(m);
    lemma_stop(Scan::Text, s);
    match stop(Scan::Text, s) {
        Some(i) => {
            assert(stops(Scan::Text, s, i));
            lemma_skipped_input(m.input, i);
            lemma_skipped_input(m.input, i + 1);
            if text(m.state, s.take(i)).content.len() > 0 {
                lemma_text_len(m.state, s.take(i));
                if s[i] == LT {
                    lemma_moved(m, i + 1, ParseState::InsideMarkup, m.state.error_offset, step);
                } else {
                    lemma_moved(m, i, ParseState::InsideRef, m.state.error_offset, step);
                }
            } else if s[i] == LT {
                lemma_markup_step(m.advance(i + 1));
                lemma_passed_over(m, i + 1, s.take(i), markup_step(m.advance(i + 1)));
            } else {
                assert(s.skip(i)[0] == s[i]);
                lemma_ref_step(m.advance(i));
                lemma_passed_over(m, i, s.take(i), ref_step(m.advance(i)));
            }
        },
        None => {
            lemma_last_text(m, step);
        },
    }
}

/// A text is no longer than the bytes that it is made of.
proof fn lemma_text_len(st: StateView, bytes: Seq<u8>)
    ensures
        text(st, bytes).content.len() <= bytes.len(),
{
    lemma_trim_end(bytes);
}

/// A step after some text was passed over.
proof fn lemma_passed_over(m: Model, n: int, kept: Seq<u8>, step: Step)
    requires
        m.wf(),
        m.state.state == ParseState::InsideText,
        0 <= n <= m.input.bytes.len(),
        keeps(m.advance(n), settle(step)),
        consumes(m.advance(n), step),
    ensures
        keeps(m, settle(after_bytes(kept, step))),
        consumes(m, after_bytes(kept, step)),
{
    lemma_settled(m.advance(n), step);
    lemma_after(m, n, settle(step));
    lemma_unsettled(m, step);
    lemma_after_bytes(m, kept, step);
}

proof fn lemma_settled(m: Model, step: Step)
    requires
        consumes(m, step),
    ensures
        consumes(m, settle(step)),
{
    reveal(consumes);
}

proof fn lemma_unsettled(m: Model, step: Step)
    requires
        consumes(m, settle(step)),
    ensures
        consumes(m, step),
{
    reveal(consumes);
}

proof fn lemma_inside_text_step(m: Model)
    requires
        m.wf(),
        m.state.state == ParseState::InsideText,
    ensures
        keeps(m, inside_text_step(m)),
        consumes(m, inside_text_step(m)),
{
    let n = trimmed(m);
    let step = text_step(m.advance(n));
    lemma_spaces(m.input.bytes);
    lemma_skipped_input(m.input, n);
    lemma_text_step(m.advance(n));
    lemma_settled(m.advance(n), step);
    lemma_after(m, n, settle(step));
}

proof fn lemma_empty_step(m: Model)
    requires
        m.wf(),
        m.state.state == ParseState::InsideEmpty || m.state.state == ParseState::Done,
    ensures
        keeps(m, started_step(m)),
        consumes(m, started_step(m)),
{
    reveal(keeps);
    reveal(consumes);
    let next = started_step(m).model.state;
    assert forall|j: int| 0 <= j < next.opened.len() implies next.can_decode(
        #[trigger] next.opened[j].len(),
    ) by {
        assert(next.opened[j] == m.state.opened[j]);
    }
    assert(m.input.bytes.skip(0) =~= m.input.bytes);
}

pub(crate) proof fn lemma_started_step(m: Model)
    requires
        m.wf(),
        m.state.state != ParseState::Init,
    ensures
        keeps(m, started_step(m)),
        consumes(m, started_step(m)),
{
    match m.state.state {
        ParseState::InsideRef => {
            lemma_ref_step(m);
            lemma_settled(m, ref_step(m));
        },
        ParseState::InsideText => {
            lemma_inside_text_step(m);
        },
        ParseState::InsideMarkup => {
            lemma_markup_step(m);
            lemma_settled(m, markup_step(m));
        },
        _ => {
            lemma_empty_step(m);
        },
    }
}

/// A byte order mark is among the first bytes.
pub(crate) proof fn lemma_bom(m: Model, head: Seq<u8>)
    requires
        m.wf(),
        m.state.state == ParseState::Init,
        has_prefix(m.input.bytes, head),
    ensures
        ({
            let next = after_bom(m, head);
            let n = mark_len(m.state.detect, head);
            &&& 0 <= n <= 3
            &&& n <= m.input.bytes.len()
            &&& keeps(m, Step { model: next, kept: Seq::empty(), result: Ok(EventView::Eof) })
            &&& next.state.encoding == m.state.encoding || m.state.encoding.refinable()
                && next.state.encoding is BomDetected
        }),
{
    reveal(keeps);
    lemma_skipped_input(m.input, mark_len(m.state.detect, head));
}

/// A step after the first bytes were looked at is a step before that.
proof fn lemma_after_bom(m: Model, head: Seq<u8>, step: Step)
    requires
        m.wf(),
        m.state.state == ParseState::Init,
        has_prefix(m.input.bytes, head),
        keeps(after_bom(m, head), step),
        consumes(after_bom(m, head), step),
    ensures
        keeps(m, step),
        consumes(m, step),
{
    lemma_bom(m, head);
    reveal(keeps);
    reveal(consumes);
    if continues(step.result) {
        let n = mark_len(m.state.detect, head);
        let k = step.model.state.offset - m.state.offset;
        assert(m.input.bytes.skip(n).skip(k - n) =~= m.input.bytes.skip(k));
    }
}

proof fn lemma_advances(m: Model, step: Step)
    requires
        consumes(m, step),
    ensures
        advances(m, step),
{
    reveal(consumes);
    reveal(advances);
}

/// What holds of every step.
pub(crate) proof fn lemma_next_step(m: Model, head: Seq<u8>)
    requires
        m.wf(),
        heads(m, head),
    ensures
        keeps(m, next_step(m, head)),
        consumes(m, next_step(m, head)),
        advances(m, next_step(m, head)),
{
    reveal(next_step);
    if m.state.state == ParseState::Init {
        let next = after_bom(m, head);
        lemma_bom(m, head);
        assert(next.wf()) by {
            reveal(keeps);
        }
        lemma_started_step(next);
        lemma_after_bom(m, head, started_step(next));
    } else {
        lemma_started_step(m);
    }
    lemma_advances(m, next_step(m, head));
}

/// What a step consists of.
pub(crate) proof fn lemma_next_cases(m: Model, head: Seq<u8>)
    ensures
        next_step(m, head) == if m.state.state == ParseState::Init {
            started_step(after_bom(m, head))
        } else {
            started_step(m)
        },
{
    reveal(next_step);
}

/// What the source gives at once matters only at the start.
pub(crate) proof fn lemma_head(m: Model, head: Seq<u8>, other: Seq<u8>)
    requires
        m.state.state == ParseState::Init ==> head == other,
    ensures
        next_step(m, head) == next_step(m, other),
{
    reveal(next_step);
}

} // verus!
