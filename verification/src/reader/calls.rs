//! What holds of a reader after any calls.

use vstd::prelude::*;

use crate::bytes::LT;
use crate::errors::ErrorView;
use crate::reader::config::Config;
use crate::reader::laws::{is_markup_at, law_error_position, law_syntax_errors_are_at_markup};
use crate::reader::model::{next_step, Model};
use crate::reader::state::continues;
use crate::reader::steps::{consumes, heads, keeps, lemma_next_cases, lemma_next_step, measure};
use crate::reader::to_end::{lemma_skip_step, lemma_to_end, nesting, skip_element, to_end, Nesting};
use crate::reader::ParseState;

verus! {

/// A call of a method of a reader.
pub enum Call {
    /// Reading an event.
    Event,
    /// Reading up to the end tag with the given name, or the text up to it.
    ToEnd(Seq<u8>),
    /// Changing the configuration.
    Configure(Config),
}

/// The reader after a call.
pub open spec fn after_call(m: Model, head: Seq<u8>, call: Call) -> Model {
    match call {
        Call::Event => next_step(m, head).model,
        Call::ToEnd(name) => to_end(m, head, name).model,
        Call::Configure(config) => m.configured(config),
    }
}

/// The error that a call ends with, if it ends with one. (Text that cannot be decoded is an error
/// of its own, which leaves the reader as it is.)
pub open spec fn call_error(m: Model, head: Seq<u8>, call: Call) -> Option<ErrorView> {
    match call {
        Call::Event => match next_step(m, head).result {
            Ok(_) => None,
            Err(e) => Some(e),
        },
        Call::ToEnd(name) => match to_end(m, head, name).result {
            Ok(_) => None,
            Err(e) => Some(e),
        },
        Call::Configure(_) => None,
    }
}

/// The reader after some calls.
pub open spec fn after_calls(m: Model, head: Seq<u8>, calls: Seq<Call>) -> Model
    decreases calls.len(),
{
    if calls.len() == 0 {
        m
    } else {
        after_call(after_calls(m, head, calls.drop_last()), head, calls.last())
    }
}

/// The error that the last of the calls ends with, if it ends with one.
pub open spec fn last_error(m: Model, head: Seq<u8>, calls: Seq<Call>) -> Option<ErrorView> {
    if calls.len() == 0 {
        None
    } else {
        call_error(after_calls(m, head, calls.drop_last()), head, calls.last())
    }
}

/// Whether none of the calls ends with an error.
pub open spec fn no_errors(m: Model, head: Seq<u8>, calls: Seq<Call>) -> bool
    decreases calls.len(),
{
    calls.len() > 0 ==> {
        &&& last_error(m, head, calls) is None
        &&& no_errors(m, head, calls.drop_last())
    }
}

/// Whether a reader that was `start` is done, or has just consumed some of the bytes that lay
/// ahead, of which the last is `<` if markup follows.
spec fn follows(start: Model, m: Model) -> bool {
    let n = m.state.offset - start.state.offset;
    m.state.state == ParseState::Done || {
        &&& 0 <= n <= start.input.bytes.len()
        &&& m.input == start.input.skip(n)
        &&& m.state.state == ParseState::InsideMarkup ==> if n == 0 {
            start.state.state == ParseState::InsideMarkup
        } else {
            start.input.bytes[n - 1] == LT
        }
    }
}

/// A reader that reads an event still follows where it came from.
proof fn lemma_follows(start: Model, m: Model, head: Seq<u8>)
    requires
        m.wf(),
        heads(m, head),
        follows(start, m),
    ensures
        follows(start, next_step(m, head).model),
        !continues(next_step(m, head).result) ==> next_step(m, head).model.state.state
            == ParseState::Done,
{
    lemma_next_step(m, head);
    lemma_next_cases(m, head);
    reveal(consumes);
    let next = next_step(m, head).model;
    if m.state.state != ParseState::Done && continues(next_step(m, head).result) {
        let n = m.state.offset - start.state.offset;
        let k = next.state.offset - m.state.offset;
        assert(start.input.bytes.skip(n).skip(k) =~= start.input.bytes.skip(n + k));
    }
}

/// A `<` that stands ahead of a reader stood ahead of it before.
proof fn lemma_markup_before(start: Model, m: Model, at: int)
    requires
        follows(start, m),
        m.state.state != ParseState::Done,
        is_markup_at(m, at),
    ensures
        is_markup_at(start, at),
{
    let n = m.state.offset - start.state.offset;
    let i = at - m.state.offset;
    if i >= 0 {
        assert(m.input.bytes[i] == start.input.bytes[n + i]);
    }
}

/// What reading up to an end tag promises of the position of the last error, if it started at
/// `start`.
proof fn lemma_skip_errors(start: Model, m: Model, head: Seq<u8>, name: Seq<u8>, depth: nat)
    requires
        m.wf(),
        heads(m, head),
        follows(start, m),
    ensures
        ({
            let skipped = skip_element(m, head, name, depth);
            let at = skipped.model.state.error_offset;
            &&& follows(start, skipped.model)
            &&& skipped.model.state.position() >= m.state.position()
            &&& skipped.model.state.state != ParseState::Init
            &&& skipped.result is Ok ==> at == m.state.error_offset
            &&& skipped.result is Err && skipped.result->Err_0 is Syntax ==> is_markup_at(start, at)
        }),
    decreases measure(m),
{
    let step = next_step(m, head);
    lemma_skip_step(m, head);
    lemma_next_step(m, head);
    reveal(keeps);
    lemma_follows(start, m, head);
    law_error_position(m, head);
    match step.result {
        Ok(event) => match nesting(event, name) {
            Nesting::Deeper => lemma_skip_errors(start, step.model, head, name, depth + 1),
            Nesting::Shallower => if depth > 0 {
                lemma_skip_errors(start, step.model, head, name, (depth - 1) as nat);
            },
            Nesting::Same => lemma_skip_errors(start, step.model, head, name, depth),
            Nesting::Ended => {},
        },
        Err(e) => if e is Syntax {
            law_syntax_errors_are_at_markup(m, head);
            lemma_next_cases(m, head);
            lemma_markup_before(start, m, step.model.state.error_offset);
        },
    }
}

/// Reading up to an end tag keeps what reading events promises of the positions: that of the reader
/// does not go back and that of the last error is never behind it, it moves only when an error is
/// returned, and after an error in the syntax it is that of the `<` of the markup that is wrong.
pub proof fn law_error_position_of_to_end(m: Model, head: Seq<u8>, name: Seq<u8>)
    requires
        m.wf(),
        heads(m, head),
    ensures
        ({
            let skipped = to_end(m, head, name);
            let at = skipped.model.state.error_offset;
            &&& 0 <= at <= skipped.model.state.position()
            &&& skipped.model.state.position() >= m.state.position()
            &&& skipped.result is Ok ==> at == m.state.error_offset
            &&& skipped.result is Err && skipped.result->Err_0 is Syntax ==> is_markup_at(m, at)
        }),
{
    lemma_to_end(m, head, name);
    assert(m.input.bytes.skip(0) =~= m.input.bytes);
    lemma_skip_errors(m, m.untrimmed(), head, name, 0);
}

/// What holds after a call.
proof fn lemma_call(start: Model, m: Model, head: Seq<u8>, call: Call)
    requires
        m.wf(),
        heads(m, head),
        follows(start, m),
    ensures
        ({
            let next = after_call(m, head, call);
            let error = call_error(m, head, call);
            &&& next.wf()
            &&& next.state.state != ParseState::Init || next.input == m.input
            &&& heads(next, head)
            &&& follows(start, next)
            &&& error is None ==> next.state.error_offset == m.state.error_offset
            &&& error is Some && error->Some_0 is Syntax ==> is_markup_at(
                start,
                next.state.error_offset,
            )
        }),
{
    match call {
        Call::Event => {
            lemma_next_step(m, head);
            reveal(keeps);
            lemma_follows(start, m, head);
            law_error_position(m, head);
            let step = next_step(m, head);
            if step.result is Err && step.result->Err_0 is Syntax {
                law_syntax_errors_are_at_markup(m, head);
                lemma_next_cases(m, head);
                lemma_markup_before(start, m, step.model.state.error_offset);
            }
        },
        Call::ToEnd(name) => {
            lemma_to_end(m, head, name);
            lemma_skip_errors(start, m.untrimmed(), head, name, 0);
        },
        Call::Configure(_) => {},
    }
}

/// What holds after some calls.
proof fn lemma_calls(m: Model, head: Seq<u8>, calls: Seq<Call>)
    requires
        m.wf(),
        heads(m, head),
    ensures
        ({
            let next = after_calls(m, head, calls);
            let error = last_error(m, head, calls);
            &&& next.wf()
            &&& heads(next, head)
            &&& follows(m, next)
            &&& no_errors(m, head, calls) ==> next.state.error_offset == m.state.error_offset
            &&& error is Some && error->Some_0 is Syntax ==> is_markup_at(
                m,
                next.state.error_offset,
            )
        }),
    decreases calls.len(),
{
    if calls.len() == 0 {
        assert(m.input.bytes.skip(0) =~= m.input.bytes);
    } else {
        lemma_calls(m, head, calls.drop_last());
        lemma_call(m, after_calls(m, head, calls.drop_last()), head, calls.last());
    }
}

/// However a new reader was called, the position of the last error is never behind the position of
/// the reader. It is 0 if no call has returned an error yet, and if the last call returned an error
/// in the syntax, it is the index of the `<` of the markup that is wrong.
pub proof fn law_error_position_after_calls(m: Model, head: Seq<u8>, calls: Seq<Call>)
    requires
        m.wf(),
        heads(m, head),
        m.state.state == ParseState::Init,
        m.state.offset == 0,
    ensures
        ({
            let next = after_calls(m, head, calls);
            let at = next.state.error_offset;
            let error = last_error(m, head, calls);
            &&& next.wf()
            &&& 0 <= at <= next.state.position()
            &&& no_errors(m, head, calls) ==> at == 0
            &&& error is Some && error->Some_0 is Syntax ==> at < m.input.bytes.len()
                && m.input.bytes[at] == LT
        }),
{
    lemma_calls(m, head, calls);
}

} // verus!
