//! What a reader does, stated over what lies ahead of it and its state.
//!
//! The steps that have many cases are opaque. Where their definition matters, reveal it.

use vstd::prelude::*;

use crate::bytes::{AMP, BANG, LT, QUESTION, SEMICOLON, SLASH};
use crate::encoding::{bom_encoding, utf8_bom};
use crate::errors::{Error, ErrorView, SyntaxError};
use crate::events::{Event, EventView, TextView};
use crate::parser::fast_element::unclosed_tag;
use crate::parser::pi::unclosed_pi;
use crate::parser::scan::{stop, Scan};
use crate::reader::bang::{bang_kind, unclosed_bang};
use crate::reader::source::{input_ahead, Fault, Input};
use crate::reader::state::{
    close_expanded_empty, continues, emit_bang, emit_dangling, emit_end, emit_question_mark,
    emit_start, outcome, text, Emitted, StateView,
};
use crate::reader::{EncodingView, ParseState};
use crate::utils::{has_prefix, leading_space, word_len};

verus! {

/// A reader: what lies ahead of it and its state.
#[verifier::ext_equal]
pub struct Model {
    pub input: Input,
    pub state: StateView,
}

impl Model {
    /// Whether the reader is one on which calls can be made: its state is one that a reader can be
    /// in, a reader that has seen `&` is at it (or its source has ended, if that is not a slice),
    /// the positions that are still to come fit in 64 bits and the names in what lies ahead can be
    /// decoded.
    pub open spec fn wf(self) -> bool {
        &&& self.state.wf()
        &&& self.state.state == ParseState::InsideRef && (self.input.retains
            || self.input.bytes.len() > 0) ==> self.input.bytes.len() > 0 && self.input.bytes[0]
            == AMP
        &&& self.state.state != ParseState::Done ==> self.state.offset + self.input.extent()
            <= u64::MAX
        &&& self.state.can_decode(self.input.extent()) || self.input.tags_fit()
    }

    /// The bytes of the document from the position of the reader on. The `<` that the reader has
    /// seen after a text is the first of them.
    pub open spec fn unread(self) -> Seq<u8> {
        if self.state.state == ParseState::InsideMarkup {
            seq![LT] + self.input.bytes
        } else {
            self.input.bytes
        }
    }

    /// The reader after it consumed `n` bytes.
    pub open spec fn advance(self, n: int) -> Model {
        Model {
            input: self.input.skip(n),
            state: StateView { offset: self.state.offset + n, ..self.state },
        }
    }

    /// The reader after it consumed all bytes.
    pub open spec fn drain(self) -> Model {
        self.advance(self.input.bytes.len() as int)
    }

    /// The reader in another state.
    pub open spec fn goto(self, state: ParseState) -> Model {
        Model { state: StateView { state, ..self.state }, ..self }
    }

    /// The reader with the last error at another offset.
    pub open spec fn error_at(self, error_offset: int) -> Model {
        Model { state: StateView { error_offset, ..self.state }, ..self }
    }

    /// The reader after its source failed.
    pub open spec fn fail(self, fault: Fault) -> Model {
        Model { input: input_ahead(fault.rest, self.input.retains), ..self }
    }
}

/// What one call of a reader does.
#[verifier::ext_equal]
pub struct Step {
    /// The reader after the call.
    pub model: Model,
    /// The bytes that the call keeps in the buffer that it was given, if it was given one.
    pub kept: Seq<u8>,
    /// What the call returns.
    pub result: Result<EventView, ErrorView>,
}

/// Whether a call brought a reader to `model` with the result `r` as the step says.
pub open spec fn takes(step: Step, model: Model, r: Result<Event, Error>) -> bool {
    step.model == model && step.result == outcome(r)
}

/// The step of a reader whose source failed.
pub open spec fn fault_step(m: Model, fault: Fault, kept: Seq<u8>) -> Step {
    Step { model: m.fail(fault), kept, result: Err(ErrorView::Io(fault.error)) }
}

/// The step that returns what was emitted.
pub open spec fn emit_step(m: Model, kept: Seq<u8>, emitted: Emitted) -> Step {
    Step { model: Model { state: emitted.state, ..m }, kept, result: emitted.result }
}

/// The step of a reader that did not find the end of markup. `at` is where the markup started.
pub open spec fn unclosed_step(m: Model, at: int, error: SyntaxError) -> Step {
    let kept = m.input.bytes;
    match m.input.fault {
        Some(fault) => fault_step(m.drain().error_at(at), fault, kept),
        None => Step {
            model: Model {
                input: if m.input.retains {
                    m.input
                } else {
                    m.drain().input
                },
                ..m.drain().error_at(at)
            },
            kept,
            result: Err(ErrorView::Syntax(error)),
        },
    }
}

/// The step of a reader at a start tag or a self-closed tag.
pub open spec fn start_step(m: Model) -> Step {
    let s = m.input.bytes;
    match stop(Scan::Tag, s) {
        Some(i) => {
            let content = s.take(i);
            let next = m.advance(i + 1);
            emit_step(next, content, emit_start(next.state, word_len(content), content))
        },
        None => unclosed_step(m, m.state.offset - 1, unclosed_tag(s)),
    }
}

/// The step of a reader at the `/` of an end tag.
pub open spec fn end_step(m: Model) -> Step {
    let inside = m.advance(1);
    let s = inside.input.bytes;
    match stop(Scan::Tag, s) {
        Some(i) => {
            let content = s.take(i);
            let next = inside.advance(i + 1);
            emit_step(next, content, emit_end(next.state, word_len(content), content))
        },
        None => unclosed_step(inside, m.state.offset - 1, unclosed_tag(s)),
    }
}

/// The step of a reader at the `?` of a processing instruction or an XML declaration.
pub open spec fn pi_step(m: Model) -> Step {
    let s = m.input.bytes;
    match stop(Scan::Pi, s) {
        Some(i) => {
            let content = s.take(i);
            let next = m.advance(i + 1);
            emit_step(next, content, emit_question_mark(next.state, content))
        },
        None => unclosed_step(m, m.state.offset - 1, unclosed_pi(s)),
    }
}

/// The step of a reader at a `!` after which no known markup follows. The `!` does not count as
/// read.
pub open spec fn invalid_bang_step(m: Model) -> Step {
    Step {
        model: Model {
            input: if m.input.retains {
                m.input
            } else {
                m.input.skip(1)
            },
            ..m.error_at(m.state.offset - 1)
        },
        kept: seq![BANG],
        result: Err(ErrorView::Syntax(SyntaxError::InvalidBangMarkup)),
    }
}

/// The step of a reader at the `!` of a comment, a CDATA section or a document type declaration.
pub open spec fn bang_step(m: Model) -> Step {
    let s = m.input.bytes;
    if s.len() == 1 {
        match m.input.fault {
            Some(fault) => fault_step(m.error_at(m.state.offset - 1), fault, s),
            None => invalid_bang_step(m),
        }
    } else {
        match bang_kind(s[1]) {
            Some(kind) => match stop(kind, s) {
                Some(i) => {
                    let content = s.take(i);
                    let next = m.advance(i + 1);
                    emit_step(next, content, emit_bang(next.state, kind, content))
                },
                None => unclosed_step(m, m.state.offset - 1, unclosed_bang(kind)),
            },
            None => invalid_bang_step(m),
        }
    }
}

/// The step of a reader after `<`.
#[verifier::opaque]
pub open spec fn markup_step(before: Model) -> Step {
    let m = before.goto(ParseState::InsideText);
    let s = m.input.bytes;
    if s.len() == 0 {
        match m.input.fault {
            Some(fault) => fault_step(m, fault, s),
            None => Step {
                model: m.error_at(m.state.offset - 1),
                kept: s,
                result: Err(ErrorView::Syntax(SyntaxError::UnclosedTag)),
            },
        }
    } else if s[0] == BANG {
        bang_step(m)
    } else if s[0] == SLASH {
        end_step(m)
    } else if s[0] == QUESTION {
        pi_step(m)
    } else {
        start_step(m)
    }
}

/// The step of a reader that read `bytes`, which start with an `&` that no `;` follows.
pub open spec fn dangling_step(m: Model, start: int, bytes: Seq<u8>) -> Step {
    emit_step(m, bytes, emit_dangling(m.state, start, bytes))
}

/// The step of a reader at `&`.
#[verifier::opaque]
pub open spec fn ref_step(m: Model) -> Step {
    let s = m.input.bytes;
    let start = m.state.offset;
    match stop(Scan::Reference, s) {
        Some(i) => if s[i] == AMP {
            dangling_step(m.advance(i).goto(ParseState::InsideRef), start, s.take(i))
        } else if s[i] == SEMICOLON {
            Step {
                model: m.advance(i + 1).goto(ParseState::InsideText),
                kept: s.take(i),
                result: Ok(
                    EventView::GeneralRef(
                        TextView { content: s.subrange(1, i), encoding: m.state.encoding.name() },
                    ),
                ),
            }
        } else {
            dangling_step(m.advance(i + 1).goto(ParseState::InsideMarkup), start, s.take(i))
        },
        None => match m.input.fault {
            Some(fault) => fault_step(m.drain(), fault, s),
            None => dangling_step(m.drain().goto(ParseState::Done), start, s),
        },
    }
}

/// The step, before which some bytes were kept.
pub open spec fn after_bytes(kept: Seq<u8>, step: Step) -> Step {
    Step { kept: kept + step.kept, ..step }
}

/// The step of a reader at text. White space at the start of the text was already removed if that
/// is configured. Text that is empty, or of which nothing is left after the white space at its end
/// is removed, is passed over.
#[verifier::opaque]
pub open spec fn text_step(m: Model) -> Step {
    let s = m.input.bytes;
    match stop(Scan::Text, s) {
        Some(i) => {
            let bytes = s.take(i);
            if text(m.state, bytes).content.len() > 0 {
                Step {
                    model: if s[i] == LT {
                        m.advance(i + 1).goto(ParseState::InsideMarkup)
                    } else {
                        m.advance(i).goto(ParseState::InsideRef)
                    },
                    kept: bytes,
                    result: Ok(EventView::Text(text(m.state, bytes))),
                }
            } else if s[i] == LT {
                after_bytes(bytes, markup_step(m.advance(i + 1)))
            } else {
                after_bytes(bytes, ref_step(m.advance(i)))
            }
        },
        None => match m.input.fault {
            Some(fault) => fault_step(m.drain(), fault, s),
            None => Step {
                model: m.drain().goto(ParseState::Done),
                kept: s,
                result: if text(m.state, s).content.len() == 0 {
                    Ok(EventView::Eof)
                } else {
                    Ok(EventView::Text(text(m.state, s)))
                },
            },
        },
    }
}

/// The step, after which the reader is done if reading cannot go on.
pub open spec fn settle(step: Step) -> Step {
    if continues(step.result) {
        step
    } else {
        Step { model: step.model.goto(ParseState::Done), ..step }
    }
}

/// The number of bytes of white space that are removed before text.
pub open spec fn trimmed(m: Model) -> int {
    if m.state.config.trim_text_start {
        leading_space(m.input.bytes) as int
    } else {
        0
    }
}

/// The step of a reader in the `InsideText` state.
pub open spec fn inside_text_step(m: Model) -> Step {
    settle(text_step(m.advance(trimmed(m))))
}

/// The step of a reader that is not in its initial state.
pub open spec fn started_step(m: Model) -> Step {
    match m.state.state {
        ParseState::InsideRef => settle(ref_step(m)),
        ParseState::InsideText => inside_text_step(m),
        ParseState::InsideMarkup => settle(markup_step(m)),
        ParseState::InsideEmpty => emit_step(m, Seq::empty(), close_expanded_empty(m.state)),
        _ => Step {
            model: m.goto(ParseState::Done),
            kept: Seq::empty(),
            result: Ok(EventView::Eof),
        },
    }
}

/// The length of the byte order mark that is removed from a document, where `head` is what of its
/// first bytes the source gave at once.
pub open spec fn mark_len(detect: bool, head: Seq<u8>) -> int {
    if detect {
        match bom_encoding(head) {
            Some((_, n)) => n as int,
            None => 0,
        }
    } else if has_prefix(head, utf8_bom()) {
        3
    } else {
        0
    }
}

/// The encoding after the first bytes of the document were looked at.
pub open spec fn start_encoding(st: StateView, head: Seq<u8>) -> EncodingView {
    match bom_encoding(head) {
        Some((encoding, _)) if st.detect && st.encoding.refinable() => EncodingView::BomDetected(
            encoding,
        ),
        _ => st.encoding,
    }
}

/// The reader after it looked at the first bytes of the document, where `head` is what of them the
/// source gave at once. A byte order mark is consumed.
pub open spec fn after_bom(m: Model, head: Seq<u8>) -> Model {
    let next = m.advance(mark_len(m.state.detect, head)).goto(ParseState::InsideText);
    Model { state: StateView { encoding: start_encoding(m.state, head), ..next.state }, ..next }
}

/// The step of a reader, where `head` is what the source gives at once.
#[verifier::opaque]
pub open spec fn next_step(m: Model, head: Seq<u8>) -> Step {
    if m.state.state == ParseState::Init {
        started_step(after_bom(m, head))
    } else {
        started_step(m)
    }
}

} // verus!
