//! Which end tag is read up to.

use vstd::prelude::*;

use crate::encoding::decoded_or_empty;
use crate::errors::{ErrorView, IllFormedView};
use crate::events::EventView;
use crate::reader::agreement::results;
use crate::reader::config::Config;
use crate::reader::model::{next_step, Model};
use crate::reader::steps::{heads, measure};
use crate::reader::tiling::after_events;
use crate::reader::to_end::{lemma_skip_step, nesting, skip_element, to_end, Nesting};

verus! {

/// How many of the results are start events with the given name.
pub open spec fn starts(results: Seq<Result<EventView, ErrorView>>, name: Seq<u8>) -> nat
    decreases results.len(),
{
    if results.len() == 0 {
        0
    } else {
        starts(results.drop_first(), name) + match results[0] {
            Ok(EventView::Start(tag)) if tag.name() == name => 1nat,
            _ => 0,
        }
    }
}

/// How many of the results are end events with the given name.
pub open spec fn ends(results: Seq<Result<EventView, ErrorView>>, name: Seq<u8>) -> nat
    decreases results.len(),
{
    if results.len() == 0 {
        0
    } else {
        ends(results.drop_first(), name) + match results[0] {
            Ok(EventView::End(found)) if found == name => 1nat,
            _ => 0,
        }
    }
}

/// Whether all results are events before the end of the document.
pub open spec fn all_events(results: Seq<Result<EventView, ErrorView>>) -> bool {
    forall|i: int|
        0 <= i < results.len() ==> (#[trigger] results[i]) is Ok && results[i]->Ok_0 !is Eof
}

/// Whether the last of the results is the end event that belongs to a start event with the given
/// name before all of them, if `open` more elements with the name are open inside of it: no end
/// event before closes more elements with the name than were opened, and all of them are closed
/// before the last.
pub open spec fn is_matching_end(
    results: Seq<Result<EventView, ErrorView>>,
    name: Seq<u8>,
    open: nat,
) -> bool {
    let n = results.len() - 1;
    &&& n >= 0
    &&& all_events(results)
    &&& results[n] == Ok::<EventView, ErrorView>(EventView::End(name))
    &&& forall|k: int|
        0 <= k <= n ==> starts(#[trigger] results.take(k), name) + open >= ends(
            results.take(k),
            name,
        )
    &&& starts(results.take(n), name) + open == ends(results.take(n), name)
}

/// One more result before the others.
proof fn lemma_front(
    first: Result<EventView, ErrorView>,
    others: Seq<Result<EventView, ErrorView>>,
    name: Seq<u8>,
    k: int,
)
    requires
        0 <= k <= others.len(),
    ensures
        ({
            let all = seq![first] + others;
            &&& starts(all.take(k + 1), name) == starts(others.take(k), name) + match first {
                Ok(EventView::Start(tag)) if tag.name() == name => 1nat,
                _ => 0,
            }
            &&& ends(all.take(k + 1), name) == ends(others.take(k), name) + match first {
                Ok(EventView::End(found)) if found == name => 1nat,
                _ => 0,
            }
            &&& starts(all.take(0), name) == 0
            &&& ends(all.take(0), name) == 0
        }),
{
    let all = seq![first] + others;
    assert(all.take(k + 1).drop_first() =~= others.take(k));
}

/// How many elements with the name are open after an event.
spec fn open_after(event: EventView, name: Seq<u8>, open: nat) -> nat {
    match nesting(event, name) {
        Nesting::Deeper => open + 1,
        Nesting::Shallower => (open - 1) as nat,
        _ => open,
    }
}

/// Whether the event is the end event that is looked for.
spec fn closes(event: EventView, name: Seq<u8>, open: nat) -> bool {
    event == EventView::End(name) && open == 0
}

/// An event that is not the one that is looked for, before the others.
proof fn lemma_passed(
    event: EventView,
    others: Seq<Result<EventView, ErrorView>>,
    name: Seq<u8>,
    open: nat,
)
    requires
        !closes(event, name, open),
        event !is Eof,
    ensures
        is_matching_end(
            seq![Ok::<EventView, ErrorView>(event)] + others,
            name,
            open,
        ) <==> is_matching_end(others, name, open_after(event, name, open)),
{
    let first = Ok::<EventView, ErrorView>(event);
    let all = seq![first] + others;
    let n = others.len() as int;
    let next = open_after(event, name, open);
    lemma_front(first, others, name, 0);
    if n > 0 {
        lemma_front(first, others, name, n - 1);
    }
    if is_matching_end(all, name, open) {
        if n == 0 {
            assert(all[0] == first);
            assert(all.take(0) =~= Seq::empty());
        } else {
            assert forall|i: int| 0 <= i < n implies (#[trigger] others[i]) is Ok
                && others[i]->Ok_0 !is Eof by {
                assert(others[i] == all[i + 1]);
            }
            assert forall|k: int| 0 <= k <= n - 1 implies starts(#[trigger] others.take(k), name)
                + next >= ends(others.take(k), name) by {
                lemma_front(first, others, name, k);
                assert(starts(all.take(k + 1), name) + open >= ends(all.take(k + 1), name));
            }
            assert(all[n] == others[n - 1]);
        }
    }
    if is_matching_end(others, name, next) {
        assert forall|i: int| 0 <= i <= n implies (#[trigger] all[i]) is Ok && all[i]->Ok_0
            !is Eof by {
            if i > 0 {
                assert(all[i] == others[i - 1]);
            }
        }
        assert forall|k: int| 0 <= k <= n implies starts(#[trigger] all.take(k), name) + open
            >= ends(all.take(k), name) by {
            if k > 0 {
                lemma_front(first, others, name, k - 1);
                assert(starts(others.take(k - 1), name) + next >= ends(others.take(k - 1), name));
            }
        }
        assert(all[n] == others[n - 1]);
    }
}

/// The end event that is looked for, at once.
proof fn lemma_found(others: Seq<Result<EventView, ErrorView>>, name: Seq<u8>)
    ensures
        is_matching_end(
            seq![Ok::<EventView, ErrorView>(EventView::End(name))] + others,
            name,
            0,
        ) <==> others.len() == 0,
{
    let first = Ok::<EventView, ErrorView>(EventView::End(name));
    let all = seq![first] + others;
    lemma_front(first, others, name, 0);
    if others.len() > 0 {
        if is_matching_end(all, name, 0) {
            assert(starts(all.take(1), name) >= ends(all.take(1), name));
            assert(others.take(0) =~= Seq::empty());
            assert(false);
        }
    } else {
        assert(all[0] == first);
        assert(all.take(0) =~= Seq::empty());
    }
}

proof fn lemma_results_len(m: Model, head: Seq<u8>, n: nat)
    ensures
        results(m, head, n).len() == n,
    decreases n,
{
    if n > 0 {
        lemma_results_len(next_step(m, head).model, head, (n - 1) as nat);
    }
}

/// If an end tag is found, it is the matching one.
proof fn lemma_matches(m: Model, head: Seq<u8>, name: Seq<u8>, open: nat) -> (n: nat)
    requires
        m.wf(),
        heads(m, head),
    ensures
        ({
            let skipped = skip_element(m, head, name, open);
            skipped.result matches Ok(end) ==> {
                &&& is_matching_end(results(m, head, n + 1), name, open)
                &&& end == after_events(m, head, n).state.position()
                &&& skipped.model == after_events(m, head, n + 1)
            }
        }),
    decreases measure(m),
{
    let step = next_step(m, head);
    lemma_skip_step(m, head);
    reveal_with_fuel(after_events, 2);
    reveal_with_fuel(results, 2);
    match step.result {
        Err(_) => 0,
        Ok(event) => {
            if event is Eof {
                0
            } else if closes(event, name, open) {
                lemma_found(Seq::empty(), name);
                assert(results(m, head, 1) =~= seq![step.result] + Seq::empty());
                0
            } else {
                let k = lemma_matches(step.model, head, name, open_after(event, name, open));
                let others = results(step.model, head, k + 1);
                lemma_passed(event, others, name, open);
                k + 1
            }
        },
    }
}

/// If a matching end tag is read, it is found.
proof fn lemma_matched(m: Model, head: Seq<u8>, name: Seq<u8>, open: nat, n: nat)
    requires
        m.wf(),
        heads(m, head),
        is_matching_end(results(m, head, n + 1), name, open),
    ensures
        skip_element(m, head, name, open).result == Ok::<int, ErrorView>(
            after_events(m, head, n).state.position(),
        ),
        skip_element(m, head, name, open).model == after_events(m, head, n + 1),
    decreases n,
{
    let step = next_step(m, head);
    let others = results(step.model, head, n);
    lemma_skip_step(m, head);
    lemma_results_len(step.model, head, n);
    reveal_with_fuel(after_events, 2);
    reveal_with_fuel(results, 2);
    assert(results(m, head, n + 1) == seq![step.result] + others);
    assert(results(m, head, n + 1)[0] == step.result);
    let event = step.result->Ok_0;
    if closes(event, name, open) {
        lemma_found(others, name);
    } else {
        lemma_passed(event, others, name, open);
        assert(others.len() > 0);
        lemma_matched(step.model, head, name, open_after(event, name, open), (n - 1) as nat);
    }
}

/// If something else comes before the matching end tag, that is the result.
proof fn lemma_unmatched(m: Model, head: Seq<u8>, name: Seq<u8>, open: nat, n: nat)
    requires
        m.wf(),
        heads(m, head),
        all_events(results(m, head, n)),
        forall|k: nat| k < n ==> !is_matching_end(#[trigger] results(m, head, k + 1), name, open),
    ensures
        ({
            let last = after_events(m, head, n);
            let skipped = skip_element(m, head, name, open);
            &&& next_step(last, head).result matches Err(e) ==> skipped.result == Err::<
                int,
                ErrorView,
            >(e) && skipped.model == after_events(m, head, n + 1)
            &&& next_step(last, head).result == Ok::<EventView, ErrorView>(EventView::Eof)
                ==> skipped.result == Err::<int, ErrorView>(
                ErrorView::IllFormed(
                    IllFormedView::MissingEndTag(
                        decoded_or_empty(skipped.model.state.encoding.name(), name),
                    ),
                ),
            ) && skipped.model == after_events(m, head, n + 1)
        }),
    decreases n,
{
    let step = next_step(m, head);
    lemma_skip_step(m, head);
    reveal_with_fuel(after_events, 2);
    reveal_with_fuel(results, 2);
    if n > 0 {
        let others = results(step.model, head, (n - 1) as nat);
        assert(results(m, head, n) == seq![step.result] + others);
        assert(results(m, head, n)[0] == step.result);
        let event = step.result->Ok_0;
        let next = open_after(event, name, open);
        if closes(event, name, open) {
            lemma_found(Seq::empty(), name);
            assert(results(m, head, 1) =~= seq![step.result] + Seq::empty());
            assert(!is_matching_end(results(m, head, 0 + 1), name, open));
        }
        assert forall|i: int| 0 <= i < others.len() implies (#[trigger] others[i]) is Ok
            && others[i]->Ok_0 !is Eof by {
            assert(others[i] == results(m, head, n)[i + 1]);
        }
        assert forall|k: nat| k < n - 1 implies !is_matching_end(
            #[trigger] results(step.model, head, k + 1),
            name,
            next,
        ) by {
            lemma_passed(event, results(step.model, head, k + 1), name, open);
            assert(!is_matching_end(results(m, head, (k + 1) + 1), name, open));
        }
        lemma_unmatched(step.model, head, name, next, (n - 1) as nat);
    }
}

/// The reader without removing white space around text.
pub open spec fn quiet(m: Model) -> Model {
    m.configured(Config { trim_text_start: false, trim_text_end: false, ..m.state.config })
}

/// Reading up to an end tag reads up to the matching one, however the reader is configured: among
/// the events before it as many elements with the name are opened as are closed, and up to none of
/// these events more are closed than were opened. What is returned is the position before that end
/// tag, and the reader is where it comes to by reading these events one by one.
pub proof fn law_reads_to_the_matching_end(m: Model, head: Seq<u8>, name: Seq<u8>) -> (n: nat)
    requires
        m.wf(),
        heads(m, head),
    ensures
        ({
            let skipped = to_end(m, head, name);
            skipped.result matches Ok(end) ==> {
                &&& is_matching_end(results(quiet(m), head, n + 1), name, 0)
                &&& end == after_events(quiet(m), head, n).state.position()
                &&& skipped.model == after_events(quiet(m), head, n + 1).configured(m.state.config)
            }
        }),
{
    assert(quiet(m) == m.untrimmed());
    lemma_matches(quiet(m), head, name, 0)
}

/// If the events include the matching end tag, reading up to it succeeds and comes to exactly that
/// tag, whatever comes after it.
pub proof fn law_finds_the_matching_end(m: Model, head: Seq<u8>, name: Seq<u8>, n: nat)
    requires
        m.wf(),
        heads(m, head),
        is_matching_end(results(quiet(m), head, n + 1), name, 0),
    ensures
        to_end(m, head, name).result == Ok::<int, ErrorView>(
            after_events(quiet(m), head, n).state.position(),
        ),
        to_end(m, head, name).model == after_events(quiet(m), head, n + 1).configured(
            m.state.config,
        ),
{
    assert(quiet(m) == m.untrimmed());
    lemma_matched(quiet(m), head, name, 0, n);
}

/// If reading fails before the matching end tag, reading up to it fails with that error, and if the
/// document ends before it, the error names the end tag that is missing.
pub proof fn law_fails_before_the_matching_end(m: Model, head: Seq<u8>, name: Seq<u8>, n: nat)
    requires
        m.wf(),
        heads(m, head),
        all_events(results(quiet(m), head, n)),
        forall|k: nat|
            k < n ==> !is_matching_end(#[trigger] results(quiet(m), head, k + 1), name, 0),
    ensures
        ({
            let result = next_step(after_events(quiet(m), head, n), head).result;
            let skipped = to_end(m, head, name);
            &&& result matches Err(e) ==> skipped.result == Err::<int, ErrorView>(e)
            &&& result == Ok::<EventView, ErrorView>(EventView::Eof) ==> skipped.result == Err::<
                int,
                ErrorView,
            >(
                ErrorView::IllFormed(
                    IllFormedView::MissingEndTag(
                        decoded_or_empty(skipped.model.state.encoding.name(), name),
                    ),
                ),
            )
            &&& result is Err || result->Ok_0 is Eof ==> skipped.model == after_events(
                quiet(m),
                head,
                n + 1,
            ).configured(m.state.config)
        }),
{
    assert(quiet(m) == m.untrimmed());
    lemma_unmatched(quiet(m), head, name, 0, n);
}

} // verus!
