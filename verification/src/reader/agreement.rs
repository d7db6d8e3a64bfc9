//! Readers that read the same document from different sources return the same events.

use vstd::prelude::*;

use crate::bytes::{BANG, LT, QUESTION, SLASH};
use crate::encoding::{bom_encoding, utf8_bom};
use crate::errors::{ErrorView, SyntaxError};
use crate::events::EventView;
use crate::parser::fast_element::unclosed_tag;
use crate::parser::pi::unclosed_pi;
use crate::parser::scan::{stop, Scan};
use crate::reader::bang::{bang_kind, unclosed_bang};
use crate::reader::laws::law_error_position;
use crate::reader::model::{
    after_bom, after_bytes, bang_step, emit_step, end_step, mark_len, markup_step, next_step,
    pi_step, ref_step, settle, start_encoding, start_step, started_step, text_step, trimmed,
    unclosed_step, Model, Step,
};
use crate::reader::source::{
    bytes_ahead, chunk_ahead, fault_ahead, lemma_slice_ahead, ByteReader, Fault, Fill, Input,
};
use crate::reader::state::{
    continues, emit_bang, emit_end, emit_question_mark, emit_start, text, Emitted, StateView,
};
use crate::reader::steps::{heads, keeps, lemma_next_cases, lemma_next_step, measure};
use crate::reader::to_end::{lemma_skip_step, nesting, skip_element, to_end, Nesting, Skipped};
use crate::reader::{ParseState, Reader};
use crate::utils::{has_prefix, word_len};

verus! {

/// Whether two readers have the same bytes ahead, which no error cuts, and are in the same state.
pub open spec fn same_document(a: Model, b: Model) -> bool {
    &&& a.input.bytes == b.input.bytes
    &&& a.input.fault is None
    &&& b.input.fault is None
    &&& a.state == b.state
}

/// Whether two states are the same, but for `k` bytes more that the second reader has behind it.
/// The last error can have been behind these bytes or before them.
pub open spec fn same_state(a: StateView, b: StateView, k: int) -> bool {
    &&& b == (StateView { offset: a.offset + k, error_offset: b.error_offset, ..a })
    &&& b.error_offset == a.error_offset || b.error_offset == a.error_offset + k
}

/// Whether two readers have the same bytes ahead, which no error cuts, and are in the same state,
/// but for `k` bytes more that the second has behind it.
pub open spec fn same_ahead(a: Model, b: Model, k: int) -> bool {
    &&& a.input.bytes == b.input.bytes
    &&& a.input.fault is None
    &&& b.input.fault is None
    &&& same_state(a.state, b.state, k)
}

/// Whether two steps return the same and leave the readers with the same bytes ahead if reading can
/// go on, and in the same state in any case, but for `k` bytes more behind the second.
#[verifier::opaque]
pub open spec fn same_step(a: Step, b: Step, k: int) -> bool {
    &&& a.result == b.result
    &&& a.kept == b.kept
    &&& same_state(a.model.state, b.model.state, k)
    &&& continues(a.result) ==> same_ahead(a.model, b.model, k)
}

/// Whether the same was emitted, but for `k` bytes more behind the second reader.
spec fn same_emitted(a: Emitted, b: Emitted, k: int) -> bool {
    a.result == b.result && same_state(a.state, b.state, k)
}

/// Emitting the same after the same bytes were consumed.
proof fn lemma_same_emit(a: Model, b: Model, k: int, n: int, kept: Seq<u8>, x: Emitted, y: Emitted)
    requires
        same_ahead(a, b, k),
        same_emitted(x, y, k),
    ensures
        same_step(emit_step(a.advance(n), kept, x), emit_step(b.advance(n), kept, y), k),
{
    reveal(same_step);
}

/// Not finding the end of the same markup.
proof fn lemma_same_unclosed(a: Model, b: Model, k: int, at: int, error: SyntaxError)
    requires
        same_ahead(a, b, k),
    ensures
        same_step(unclosed_step(a, at, error), unclosed_step(b, at + k, error), k),
{
    reveal(same_step);
}

proof fn lemma_same_start_emitted(a: StateView, b: StateView, k: int, bytes: Seq<u8>)
    requires
        same_state(a, b, k),
    ensures
        same_emitted(
            emit_start(a, word_len(bytes), bytes),
            emit_start(b, word_len(bytes), bytes),
            k,
        ),
{
}

proof fn lemma_same_start(a: Model, b: Model, k: int)
    requires
        same_ahead(a, b, k),
    ensures
        same_step(start_step(a), start_step(b), k),
{
    let s = a.input.bytes;
    match stop(Scan::Tag, s) {
        Some(i) => {
            let (x, y) = (a.advance(i + 1).state, b.advance(i + 1).state);
            let bytes = s.take(i);
            lemma_same_start_emitted(x, y, k, bytes);
            lemma_same_emit(
                a,
                b,
                k,
                i + 1,
                bytes,
                emit_start(x, word_len(bytes), bytes),
                emit_start(y, word_len(bytes), bytes),
            );
        },
        None => {
            lemma_same_unclosed(a, b, k, a.state.offset - 1, unclosed_tag(s));
        },
    }
}

proof fn lemma_same_end_emitted(a: StateView, b: StateView, k: int, bytes: Seq<u8>)
    requires
        same_state(a, b, k),
    ensures
        same_emitted(emit_end(a, word_len(bytes), bytes), emit_end(b, word_len(bytes), bytes), k),
{
}

proof fn lemma_same_end(a: Model, b: Model, k: int)
    requires
        same_ahead(a, b, k),
    ensures
        same_step(end_step(a), end_step(b), k),
{
    let (c, d) = (a.advance(1), b.advance(1));
    let s = c.input.bytes;
    match stop(Scan::Tag, s) {
        Some(i) => {
            let (x, y) = (c.advance(i + 1).state, d.advance(i + 1).state);
            let bytes = s.take(i);
            lemma_same_end_emitted(x, y, k, bytes);
            lemma_same_emit(
                c,
                d,
                k,
                i + 1,
                bytes,
                emit_end(x, word_len(bytes), bytes),
                emit_end(y, word_len(bytes), bytes),
            );
        },
        None => {
            lemma_same_unclosed(c, d, k, a.state.offset - 1, unclosed_tag(s));
        },
    }
}

proof fn lemma_same_pi_emitted(a: StateView, b: StateView, k: int, bytes: Seq<u8>)
    requires
        same_state(a, b, k),
    ensures
        same_emitted(emit_question_mark(a, bytes), emit_question_mark(b, bytes), k),
{
}

proof fn lemma_same_pi(a: Model, b: Model, k: int)
    requires
        same_ahead(a, b, k),
    ensures
        same_step(pi_step(a), pi_step(b), k),
{
    let s = a.input.bytes;
    match stop(Scan::Pi, s) {
        Some(i) => {
            let (x, y) = (a.advance(i + 1).state, b.advance(i + 1).state);
            let bytes = s.take(i);
            lemma_same_pi_emitted(x, y, k, bytes);
            lemma_same_emit(
                a,
                b,
                k,
                i + 1,
                bytes,
                emit_question_mark(x, bytes),
                emit_question_mark(y, bytes),
            );
        },
        None => {
            lemma_same_unclosed(a, b, k, a.state.offset - 1, unclosed_pi(s));
        },
    }
}

proof fn lemma_same_bang_emitted(a: StateView, b: StateView, k: int, kind: Scan, bytes: Seq<u8>)
    requires
        same_state(a, b, k),
    ensures
        same_emitted(emit_bang(a, kind, bytes), emit_bang(b, kind, bytes), k),
{
}

proof fn lemma_same_bang(a: Model, b: Model, k: int)
    requires
        same_ahead(a, b, k),
        a.input.bytes.len() > 0,
    ensures
        same_step(bang_step(a), bang_step(b), k),
{
    let s = a.input.bytes;
    if s.len() == 1 || bang_kind(s[1]) is None {
        reveal(same_step);
    } else {
        let kind = bang_kind(s[1])->Some_0;
        match stop(kind, s) {
            Some(i) => {
                let (x, y) = (a.advance(i + 1).state, b.advance(i + 1).state);
                let bytes = s.take(i);
                lemma_same_bang_emitted(x, y, k, kind, bytes);
                lemma_same_emit(
                    a,
                    b,
                    k,
                    i + 1,
                    bytes,
                    emit_bang(x, kind, bytes),
                    emit_bang(y, kind, bytes),
                );
            },
            None => {
                lemma_same_unclosed(a, b, k, a.state.offset - 1, unclosed_bang(kind));
            },
        }
    }
}

proof fn lemma_same_markup(a: Model, b: Model, k: int)
    requires
        same_ahead(a, b, k),
    ensures
        same_step(markup_step(a), markup_step(b), k),
{
    reveal(markup_step);
    let s = a.input.bytes;
    let c = a.goto(ParseState::InsideText);
    let d = b.goto(ParseState::InsideText);
    if s.len() == 0 {
        reveal(same_step);
    } else if s[0] == BANG {
        lemma_same_bang(c, d, k);
    } else if s[0] == SLASH {
        lemma_same_end(c, d, k);
    } else if s[0] == QUESTION {
        lemma_same_pi(c, d, k);
    } else {
        lemma_same_start(c, d, k);
    }
}

proof fn lemma_same_ref(a: Model, b: Model, k: int)
    requires
        same_ahead(a, b, k),
    ensures
        same_step(ref_step(a), ref_step(b), k),
{
    reveal(ref_step);
    reveal(same_step);
}

proof fn lemma_same_after_bytes(kept: Seq<u8>, a: Step, b: Step, k: int)
    requires
        same_step(a, b, k),
    ensures
        same_step(after_bytes(kept, a), after_bytes(kept, b), k),
{
    reveal(same_step);
}

proof fn lemma_same_settle(a: Step, b: Step, k: int)
    requires
        same_step(a, b, k),
    ensures
        same_step(settle(a), settle(b), k),
{
    reveal(same_step);
}

proof fn lemma_same_text(a: Model, b: Model, k: int)
    requires
        same_ahead(a, b, k),
    ensures
        same_step(text_step(a), text_step(b), k),
{
    reveal(text_step);
    let s = a.input.bytes;
    match stop(Scan::Text, s) {
        Some(i) => {
            if text(a.state, s.take(i)).content.len() > 0 {
                reveal(same_step);
            } else if s[i] == LT {
                lemma_same_markup(a.advance(i + 1), b.advance(i + 1), k);
                lemma_same_after_bytes(
                    s.take(i),
                    markup_step(a.advance(i + 1)),
                    markup_step(b.advance(i + 1)),
                    k,
                );
            } else {
                lemma_same_ref(a.advance(i), b.advance(i), k);
                lemma_same_after_bytes(
                    s.take(i),
                    ref_step(a.advance(i)),
                    ref_step(b.advance(i)),
                    k,
                );
            }
        },
        None => {
            reveal(same_step);
        },
    }
}

proof fn lemma_same_started(a: Model, b: Model, k: int)
    requires
        same_ahead(a, b, k),
        a.state.state != ParseState::Init,
    ensures
        same_step(started_step(a), started_step(b), k),
{
    match a.state.state {
        ParseState::InsideRef => {
            lemma_same_ref(a, b, k);
            lemma_same_settle(ref_step(a), ref_step(b), k);
        },
        ParseState::InsideText => {
            let n = trimmed(a);
            lemma_same_text(a.advance(n), b.advance(n), k);
            lemma_same_settle(text_step(a.advance(n)), text_step(b.advance(n)), k);
        },
        ParseState::InsideMarkup => {
            lemma_same_markup(a, b, k);
            lemma_same_settle(markup_step(a), markup_step(b), k);
        },
        _ => {
            reveal(same_step);
        },
    }
}

/// Whether the first bytes of two documents look the same, as far as a reader in the given state
/// looks at them.
pub open spec fn same_start(st: StateView, a: Seq<u8>, b: Seq<u8>) -> bool {
    &&& mark_len(st.detect, a) == mark_len(st.detect, b)
    &&& start_encoding(st, a) == start_encoding(st, b)
}

/// Whether a reader in the given state has to look at more than the first byte of a document, if
/// that is `first`: it can start a byte order mark, or show the encoding if that can be refined.
pub open spec fn looks_further(st: StateView, first: u8) -> bool {
    if st.detect {
        ||| first == 0xEF || first == 0xFE || first == 0xFF
        ||| st.encoding.refinable() && (first == 0x00 || first == LT)
    } else {
        first == 0xEF
    }
}

/// It does not matter how a source splits a document into chunks, provided that the first of them
/// has four bytes at least (or three, if the encoding cannot be refined), or is the whole document,
/// or the first byte shows that nothing has to be looked at. For a reader that does not detect
/// encodings that is every first byte but that of the byte order mark of UTF-8.
pub proof fn law_first_chunk_is_enough(st: StateView, s: Seq<u8>, head: Seq<u8>)
    requires
        has_prefix(s, head),
        head.len() >= 4 || head == s || head.len() >= 3 && !(st.detect && st.encoding.refinable())
            || s.len() > 0 && !looks_further(st, s[0]),
    ensures
        same_start(st, head, s),
{
    let n = head.len() as int;
    assert(forall|i: int| 0 <= i < n ==> head[i] == #[trigger] s.take(n)[i]);
    if n >= 2 {
        assert(head.take(2) =~= s.take(2));
    }
    if n >= 3 {
        assert(head.take(3) =~= s.take(3));
    }
    if n >= 4 {
        assert(head.take(4) =~= s.take(4));
    }
    if s.len() > 0 && !looks_further(st, s[0]) {
        lemma_no_mark(s);
        if n > 0 {
            lemma_no_mark(head);
        }
    }
}

/// The first byte of a document shows whether a byte order mark can follow.
proof fn lemma_no_mark(s: Seq<u8>)
    requires
        s.len() > 0,
    ensures
        s[0] != 0xEF ==> !has_prefix(s, utf8_bom()),
        s[0] != 0xEF && s[0] != 0xFE && s[0] != 0xFF ==> (bom_encoding(s) matches Some((_, n))
            ==> n == 0),
        s[0] != 0xEF && s[0] != 0xFE && s[0] != 0xFF && s[0] != 0x00 && s[0] != LT ==> bom_encoding(
            s,
        ) is None,
{
    assert forall|p: Seq<u8>| #[trigger] has_prefix(s, p) && p.len() > 0 implies s[0] == p[0] by {
        assert(s.take(p.len() as int)[0] == p[0]);
    }
}

/// Whether two readers are going to read the same, but for `k` bytes more behind the second.
spec fn alike(a: Model, a_head: Seq<u8>, b: Model, b_head: Seq<u8>, k: int) -> bool {
    if a.state.state == ParseState::Init {
        &&& b.state.state == ParseState::Init
        &&& same_ahead(after_bom(a, a_head), after_bom(b, b_head), k)
    } else {
        same_ahead(a, b, k)
    }
}

/// Readers that are going to read the same make the same step.
proof fn lemma_same_next(a: Model, a_head: Seq<u8>, b: Model, b_head: Seq<u8>, k: int)
    requires
        a.wf(),
        b.wf(),
        heads(a, a_head),
        heads(b, b_head),
        alike(a, a_head, b, b_head, k),
    ensures
        ({
            let x = next_step(a, a_head);
            let y = next_step(b, b_head);
            &&& same_step(x, y, k)
            &&& x.model.wf()
            &&& y.model.wf()
            &&& x.model.state.state != ParseState::Init
            &&& !continues(x.result) ==> x.model.state.state == ParseState::Done
        }),
{
    lemma_next_cases(a, a_head);
    lemma_next_cases(b, b_head);
    lemma_next_step(a, a_head);
    lemma_next_step(b, b_head);
    reveal(keeps);
    if a.state.state == ParseState::Init {
        lemma_same_started(after_bom(a, a_head), after_bom(b, b_head), k);
    } else {
        lemma_same_started(a, b, k);
    }
}

/// Readers that read the same document return the same event and come to the same state, whether
/// they read from a slice or from a source with a buffer, and however that source splits the
/// document.
pub proof fn law_same_event(a: Model, a_head: Seq<u8>, b: Model, b_head: Seq<u8>)
    requires
        same_document(a, b),
        a.state.state == ParseState::Init ==> same_start(a.state, a_head, b_head),
    ensures
        ({
            let x = next_step(a, a_head);
            let y = next_step(b, b_head);
            &&& x.result == y.result
            &&& x.kept == y.kept
            &&& x.model.state == y.model.state
            &&& continues(x.result) ==> same_document(x.model, y.model)
        }),
{
    lemma_next_cases(a, a_head);
    lemma_next_cases(b, b_head);
    if a.state.state == ParseState::Init {
        lemma_same_started(after_bom(a, a_head), after_bom(b, b_head), 0);
    } else {
        lemma_same_started(a, b, 0);
    }
    reveal(same_step);
}

/// The first `n` results of reading.
pub open spec fn results(m: Model, head: Seq<u8>, n: nat) -> Seq<Result<EventView, ErrorView>>
    decreases n,
{
    if n == 0 {
        Seq::empty()
    } else {
        let step = next_step(m, head);
        seq![step.result] + results(step.model, head, (n - 1) as nat)
    }
}

/// A reader that is done returns nothing but the end of the document.
proof fn lemma_done_results(m: Model, head: Seq<u8>, n: nat)
    requires
        m.state.state == ParseState::Done,
    ensures
        results(m, head, n) == Seq::new(
            n,
            |i: int| Ok::<EventView, ErrorView>(EventView::Eof),
        ),
    decreases n,
{
    if n > 0 {
        lemma_next_cases(m, head);
        lemma_done_results(m, head, (n - 1) as nat);
    }
    assert(results(m, head, n) =~= Seq::new(
        n,
        |i: int| Ok::<EventView, ErrorView>(EventView::Eof),
    ));
}

/// Readers that are going to read the same return the same.
proof fn lemma_same_results(a: Model, a_head: Seq<u8>, b: Model, b_head: Seq<u8>, n: nat, k: int)
    requires
        a.wf(),
        b.wf(),
        heads(a, a_head),
        heads(b, b_head),
        alike(a, a_head, b, b_head, k),
    ensures
        results(a, a_head, n) == results(b, b_head, n),
    decreases n,
{
    if n > 0 {
        let x = next_step(a, a_head);
        let y = next_step(b, b_head);
        lemma_same_next(a, a_head, b, b_head, k);
        reveal(same_step);
        if continues(x.result) {
            lemma_same_results(x.model, a_head, y.model, b_head, (n - 1) as nat, k);
        } else {
            lemma_done_results(x.model, a_head, (n - 1) as nat);
            lemma_done_results(y.model, b_head, (n - 1) as nat);
        }
    }
}

/// Readers that read the same document return the same events, from the first to the last.
pub proof fn law_same_events(a: Model, a_head: Seq<u8>, b: Model, b_head: Seq<u8>, n: nat)
    requires
        a.wf(),
        b.wf(),
        heads(a, a_head),
        heads(b, b_head),
        same_document(a, b),
        a.state.state == ParseState::Init ==> same_start(a.state, a_head, b_head),
    ensures
        results(a, a_head, n) == results(b, b_head, n),
{
    lemma_same_results(a, a_head, b, b_head, n, 0);
}

/// Whether reading up to an end tag gave the same, but for `k` bytes more behind the second reader.
spec fn same_skipped(x: Skipped, y: Skipped, k: int) -> bool {
    &&& y.result == match x.result {
        Ok(end) => Ok::<int, ErrorView>(end + k),
        Err(e) => Err(e),
    }
    &&& x.kept == y.kept
    &&& same_state(x.model.state, y.model.state, k)
    &&& x.model.state.state != ParseState::Done ==> same_ahead(x.model, y.model, k)
}

/// Readers that are going to read the same come to the same end tag.
proof fn lemma_same_skipped(
    a: Model,
    a_head: Seq<u8>,
    b: Model,
    b_head: Seq<u8>,
    name: Seq<u8>,
    depth: nat,
    k: int,
)
    requires
        a.wf(),
        b.wf(),
        heads(a, a_head),
        heads(b, b_head),
        alike(a, a_head, b, b_head, k),
        b.state.position() == a.state.position() + k,
    ensures
        same_skipped(
            skip_element(a, a_head, name, depth),
            skip_element(b, b_head, name, depth),
            k,
        ),
    decreases measure(a),
{
    let x = next_step(a, a_head);
    let y = next_step(b, b_head);
    lemma_same_next(a, a_head, b, b_head, k);
    lemma_skip_step(a, a_head);
    reveal(same_step);
    if let Ok(event) = x.result {
        match nesting(event, name) {
            Nesting::Deeper => lemma_same_skipped(
                x.model,
                a_head,
                y.model,
                b_head,
                name,
                depth + 1,
                k,
            ),
            Nesting::Shallower => if depth > 0 {
                lemma_same_skipped(
                    x.model,
                    a_head,
                    y.model,
                    b_head,
                    name,
                    (depth - 1) as nat,
                    k,
                );
            },
            Nesting::Same => lemma_same_skipped(
                x.model,
                a_head,
                y.model,
                b_head,
                name,
                depth,
                k,
            ),
            Nesting::Ended => {},
        }
    }
}

/// Readers that read the same document come to the same end tag, with the same result and in the
/// same state, whether they read from a slice or from a source with a buffer, and however that
/// source splits the document. As long as they are not done, they have the same ahead after that.
pub proof fn law_same_end_tag(
    a: Model,
    a_head: Seq<u8>,
    b: Model,
    b_head: Seq<u8>,
    name: Seq<u8>,
)
    requires
        a.wf(),
        b.wf(),
        heads(a, a_head),
        heads(b, b_head),
        same_document(a, b),
        a.state.state == ParseState::Init ==> same_start(a.state, a_head, b_head),
    ensures
        ({
            let x = to_end(a, a_head, name);
            let y = to_end(b, b_head, name);
            &&& x.result == y.result
            &&& x.kept == y.kept
            &&& x.model.state == y.model.state
            &&& x.model.state.state != ParseState::Done ==> same_document(x.model, y.model)
        }),
{
    lemma_same_skipped(a.untrimmed(), a_head, b.untrimmed(), b_head, name, 0, 0);
}

/// Readers that read the same document return the same, event by event or up to an end tag,
/// however their sources split the document, if its first byte shows that nothing else has to be
/// looked at. For readers that do not detect encodings that is every document but those that start
/// like the byte order mark of UTF-8.
pub proof fn law_cuts_do_not_matter(
    a: Model,
    a_head: Seq<u8>,
    b: Model,
    b_head: Seq<u8>,
    name: Seq<u8>,
    n: nat,
)
    requires
        a.wf(),
        b.wf(),
        heads(a, a_head),
        heads(b, b_head),
        same_document(a, b),
        a.input.bytes.len() > 0 ==> !looks_further(a.state, a.input.bytes[0]),
    ensures
        results(a, a_head, n) == results(b, b_head, n),
        to_end(a, a_head, name).result == to_end(b, b_head, name).result,
        to_end(a, a_head, name).model.state == to_end(b, b_head, name).model.state,
{
    let s = a.input.bytes;
    if a.state.state == ParseState::Init {
        if s.len() == 0 {
            assert(a_head =~= b_head);
        } else {
            law_first_chunk_is_enough(a.state, s, a_head);
            law_first_chunk_is_enough(a.state, s, b_head);
        }
    }
    law_same_events(a, a_head, b, b_head, n);
    law_same_end_tag(a, a_head, b, b_head, name);
}

/// A source gives the bytes of its chunks, one after another, up to the first error or the end. It
/// does not matter where they are cut and where the source is interrupted.
pub proof fn law_chunks_are_joined(a: Seq<u8>, b: Seq<u8>, fills: Seq<Fill>)
    requires
        a.len() > 0,
        b.len() > 0,
    ensures
        bytes_ahead(seq![Fill::Chunk(a)] + fills) == a + bytes_ahead(fills),
        fault_ahead(seq![Fill::Chunk(a)] + fills) == fault_ahead(fills),
        bytes_ahead(seq![Fill::Chunk(a), Fill::Chunk(b)] + fills) == bytes_ahead(
            seq![Fill::Chunk(a + b)] + fills,
        ),
        bytes_ahead(seq![Fill::Interrupted] + fills) == bytes_ahead(fills),
        fault_ahead(seq![Fill::Interrupted] + fills) == fault_ahead(fills),
        chunk_ahead(seq![Fill::Interrupted] + fills) == chunk_ahead(fills),
        chunk_ahead(seq![Fill::Chunk(a)] + fills) == a,
{
    let one = seq![Fill::Chunk(a)] + fills;
    let two = seq![Fill::Chunk(a), Fill::Chunk(b)] + fills;
    let joined = seq![Fill::Chunk(a + b)] + fills;
    let later = seq![Fill::Chunk(b)] + fills;
    let interrupted = seq![Fill::Interrupted] + fills;
    assert(one.drop_first() =~= fills);
    assert(two.drop_first() =~= later);
    assert(later.drop_first() =~= fills);
    assert(joined.drop_first() =~= fills);
    assert(interrupted.drop_first() =~= fills);
    assert(bytes_ahead(later) == b + bytes_ahead(fills));
    assert(bytes_ahead(two) == a + bytes_ahead(later));
    assert(bytes_ahead(two) =~= bytes_ahead(joined));
}

/// A source that fails gives nothing more before the error, and what comes after the error is not
/// read any more. A source that gives nothing is at its end.
pub proof fn law_errors_end_the_data(error: std::io::Error, fills: Seq<Fill>)
    ensures
        bytes_ahead(seq![Fill::Failed(error)] + fills).len() == 0,
        fault_ahead(seq![Fill::Failed(error)] + fills) == Some(Fault { error, rest: fills }),
        bytes_ahead(Seq::empty()).len() == 0,
        fault_ahead(Seq::empty()) is None,
{
    assert((seq![Fill::Failed(error)] + fills).drop_first() =~= fills);
}

/// A slice can be read as it is or as a source with a buffer. Either way it is the same document.
pub proof fn law_slice_is_a_source(reader: Reader<&[u8]>)
    ensures
        same_document(reader.model(), reader.stream_model()),
        chunk_ahead(reader.source().fills()) == reader.source()@,
{
    lemma_slice_ahead(reader.source());
}

/// A document with a byte order mark of UTF-8.
pub open spec fn marked(m: Model) -> Model {
    Model { input: Input { bytes: utf8_bom() + m.input.bytes, ..m.input }, ..m }
}

/// A byte order mark of UTF-8 makes no difference to a reader whose encoding cannot be refined,
/// such as one that reads a string: it returns the same events as for the document without the
/// mark. The mark counts in all positions.
pub proof fn law_utf8_bom_is_removed(m: Model, head: Seq<u8>, n: nat)
    requires
        m.wf(),
        marked(m).wf(),
        m.state.state == ParseState::Init,
        !m.state.detect || !m.state.encoding.refinable(),
        m.input.fault is None,
        has_prefix(m.input.bytes, head),
        mark_len(m.state.detect, head) == 0,
    ensures
        ({
            let with = next_step(marked(m), utf8_bom() + head);
            let without = next_step(m, head);
            &&& with.result == without.result
            &&& with.kept == without.kept
            &&& with.model.state.offset == without.model.state.offset + 3
            &&& with.model.state.position() == without.model.state.position() + 3
            &&& same_state(without.model.state, with.model.state, 3)
            &&& with.result is Ok ==> with.model.state.error_offset
                == without.model.state.error_offset
            &&& continues(with.result) ==> same_ahead(without.model, with.model, 3)
        }),
        results(marked(m), utf8_bom() + head, n) == results(m, head, n),
{
    let bom = utf8_bom();
    let s = bom + m.input.bytes;
    assert((bom + head).take(3) =~= bom);
    assert((bom + head).take(2) =~= seq![0xEFu8, 0xBBu8]);
    assert(seq![0xEFu8, 0xBBu8][0] != seq![0xFEu8, 0xFFu8][0]);
    assert(seq![0xEFu8, 0xBBu8][0] != seq![0xFFu8, 0xFEu8][0]);
    assert(after_bom(marked(m), bom + head).input.bytes =~= after_bom(m, head).input.bytes);
    assert(has_prefix(s, bom + head)) by {
        assert(s.take((bom + head).len() as int) =~= bom + m.input.bytes.take(head.len() as int));
    }
    lemma_same_next(m, head, marked(m), bom + head, 3);
    lemma_same_results(m, head, marked(m), bom + head, n, 3);
    law_error_position(m, head);
    law_error_position(marked(m), bom + head);
    reveal(same_step);
}

} // verus!
