//! What reading up to the end tag of an element does.

use vstd::prelude::*;

use crate::errors::{missed_end, Error, ErrorView};
use crate::events::{Event, EventView};
use crate::name::QName;
use crate::reader::steps::{advances, heads, keeps, lemma_next_step, measure, reads_tag};
use crate::reader::config::Config;
use crate::reader::model::{next_step, Model};
use crate::reader::state::StateView;
use crate::reader::{ParseState, Span};
use crate::utils::same_bytes;

verus! {

/// What reading up to an end tag does.
#[verifier::ext_equal]
pub struct Skipped {
    /// The reader after that.
    pub model: Model,
    /// The bytes that are kept of the last event that was read.
    pub kept: Seq<u8>,
    /// The position before the end tag.
    pub result: Result<int, ErrorView>,
}

/// How an event changes the number of open elements with some name.
#[derive(Clone, Copy, Debug, PartialEq, Eq, Structural)]
pub enum Nesting {
    /// The event opens an element with the name.
    Deeper,
    /// The event closes an element with the name.
    Shallower,
    /// The event does neither.
    Same,
    /// The event is the end of the document.
    Ended,
}

/// How an event changes the number of open elements with the given name.
pub open spec fn nesting(event: EventView, name: Seq<u8>) -> Nesting {
    match event {
        EventView::Start(tag) => if tag.name() == name {
            Nesting::Deeper
        } else {
            Nesting::Same
        },
        EventView::End(found) => if found == name {
            Nesting::Shallower
        } else {
            Nesting::Same
        },
        EventView::Eof => Nesting::Ended,
        _ => Nesting::Same,
    }
}

/// Tells how an event changes the number of open elements with the given name.
pub fn event_nesting(event: &Event, name: QName) -> (r: Nesting)
    ensures
        r == nesting(event@, name@),
{
    match event {
        Event::Start(e) => if same_bytes(e.name().0, name.0) {
            Nesting::Deeper
        } else {
            Nesting::Same
        },
        Event::End(e) => if same_bytes(e.name().0, name.0) {
            Nesting::Shallower
        } else {
            Nesting::Same
        },
        Event::Eof => Nesting::Ended,
        _ => Nesting::Same,
    }
}

/// Reads up to the end tag with the given name, where `depth` elements with that name are open
/// whose end tags come before it. `head` is what the source gives at once.
pub open spec fn skip_element(m: Model, head: Seq<u8>, name: Seq<u8>, depth: nat) -> Skipped
    decreases measure(m),
    when m.wf() && heads(m, head)
    via skip_element_ends
{
    let step = next_step(m, head);
    match step.result {
        Err(e) => Skipped { model: step.model, kept: step.kept, result: Err(e) },
        Ok(event) => match nesting(event, name) {
            Nesting::Ended => Skipped {
                model: step.model,
                kept: step.kept,
                result: Err(missed_end(name, step.model.state.encoding.name())),
            },
            Nesting::Deeper => skip_element(step.model, head, name, depth + 1),
            Nesting::Shallower => if depth == 0 {
                Skipped { model: step.model, kept: step.kept, result: Ok(m.state.position()) }
            } else {
                skip_element(step.model, head, name, (depth - 1) as nat)
            },
            Nesting::Same => skip_element(step.model, head, name, depth),
        },
    }
}

#[via_fn]
proof fn skip_element_ends(m: Model, head: Seq<u8>, name: Seq<u8>, depth: nat) {
    lemma_next_step(m, head);
    reveal(advances);
}

/// What holds after one event was read on the way to an end tag.
pub(crate) proof fn lemma_skip_step(m: Model, head: Seq<u8>)
    requires
        m.wf(),
        heads(m, head),
    ensures
        ({
            let step = next_step(m, head);
            &&& step.model.wf()
            &&& step.result is Ok ==> step.model.state.state != ParseState::Init
            &&& step.result is Ok && step.result->Ok_0 !is Eof ==> measure(step.model) < measure(m)
            &&& reads_tag(m, step.result) ==> step.model.input.bytes.len() < m.input.bytes.len()
            &&& step.result is Ok && step.result->Ok_0 !is Eof ==> step.model.input.bytes.len()
                <= m.input.bytes.len()
            &&& m.state.state == ParseState::Done ==> step.result == Ok::<EventView, ErrorView>(
                EventView::Eof,
            )
            &&& step.model.state.config == m.state.config
            &&& forall|n: nat| m.state.can_decode(n) ==> #[trigger] step.model.state.can_decode(n)
        }),
{
    lemma_next_step(m, head);
    reveal(keeps);
    reveal(advances);
    if m.state.state == ParseState::Done {
        reveal(next_step);
    }
}

impl Model {
    /// The reader with another configuration.
    pub open spec fn configured(self, config: Config) -> Model {
        Model { state: StateView { config, ..self.state }, ..self }
    }

    /// The reader without removing white space around text.
    pub open spec fn untrimmed(self) -> Model {
        self.configured(untrimmed(self.state.config))
    }
}

/// The configuration without removing white space around text.
pub open spec fn untrimmed(config: Config) -> Config {
    Config { trim_text_start: false, trim_text_end: false, ..config }
}

/// Reads up to the end tag with the given name, without removing white space around text, so that
/// the position before the end tag is that of its `<`.
pub open spec fn to_end(m: Model, head: Seq<u8>, name: Seq<u8>) -> Skipped {
    let skipped = skip_element(m.untrimmed(), head, name, 0);
    Skipped { model: skipped.model.configured(m.state.config), ..skipped }
}

/// The position before an end tag lies between the position at which reading started and the end of
/// what lay ahead.
pub(crate) proof fn lemma_span(m: Model, head: Seq<u8>, name: Seq<u8>, depth: nat)
    requires
        m.wf(),
        heads(m, head),
    ensures
        skip_element(m, head, name, depth).result matches Ok(end) ==> {
            &&& m.state.position() <= end
            &&& end < m.state.offset + m.input.bytes.len() || {
                &&& m.state.state == ParseState::InsideEmpty
                &&& m.state.opened.last() == name
                &&& depth == 0
                &&& end == m.state.position()
            }
        },
    decreases measure(m),
{
    let step = next_step(m, head);
    lemma_next_step(m, head);
    reveal(keeps);
    reveal(advances);
    if m.state.state == ParseState::InsideEmpty {
        reveal(next_step);
    }
    if let Ok(event) = step.result {
        match nesting(event, name) {
            Nesting::Deeper => lemma_span(step.model, head, name, depth + 1),
            Nesting::Shallower => if depth > 0 {
                lemma_span(step.model, head, name, (depth - 1) as nat);
            },
            Nesting::Same => lemma_span(step.model, head, name, depth),
            Nesting::Ended => {},
        }
    }
}

/// Whether `r` is what is returned if reading started at the position `start`.
pub open spec fn spans(start: int, result: Result<int, ErrorView>, r: Result<Span, Error>) -> bool {
    match r {
        Ok(span) => span.start == start && result == Ok::<int, ErrorView>(span.end as int),
        Err(e) => result == Err::<int, ErrorView>(e@),
    }
}

/// What holds after reading up to an end tag from an element.
proof fn lemma_skipped(m: Model, head: Seq<u8>, name: Seq<u8>, depth: nat)
    requires
        m.wf(),
        heads(m, head),
    ensures
        ({
            let next = skip_element(m, head, name, depth).model;
            &&& next.wf()
            &&& next.state.config == m.state.config
            &&& forall|n: nat| m.state.can_decode(n) ==> #[trigger] next.state.can_decode(n)
        }),
    decreases measure(m),
{
    let step = next_step(m, head);
    lemma_skip_step(m, head);
    if let Ok(event) = step.result {
        match nesting(event, name) {
            Nesting::Deeper => lemma_skipped(step.model, head, name, depth + 1),
            Nesting::Shallower => if depth > 0 {
                lemma_skipped(step.model, head, name, (depth - 1) as nat);
            },
            Nesting::Same => lemma_skipped(step.model, head, name, depth),
            Nesting::Ended => {},
        }
    }
}

/// What holds after reading up to an end tag: the settings are as they were before, and the bytes
/// up to the end tag are among those that lay ahead.
pub proof fn lemma_to_end(m: Model, head: Seq<u8>, name: Seq<u8>)
    requires
        m.wf(),
        heads(m, head),
    ensures
        ({
            let skipped = to_end(m, head, name);
            &&& skipped.model.wf()
            &&& skipped.model.state.config == m.state.config
            &&& skipped.result matches Ok(end) ==> 0 <= end - m.state.position()
                <= m.input.bytes.len()
            &&& forall|n: nat|
                m.state.can_decode(n) ==> #[trigger] skipped.model.state.can_decode(n)
        }),
{
    let quiet = m.untrimmed();
    lemma_skipped(quiet, head, name, 0);
    lemma_span(quiet, head, name, 0);
    let next = skip_element(quiet, head, name, 0).model.state;
    let last = to_end(m, head, name).model.state;
    assert forall|n: nat| m.state.can_decode(n) implies #[trigger] last.can_decode(n) by {
        assert(quiet.state.can_decode(n));
        assert(next.can_decode(n));
    }
}

} // verus!
