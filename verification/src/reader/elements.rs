//! What reading up to the end of an element promises.

use vstd::prelude::*;

use crate::bytes::{LT, SLASH};
use crate::encoding::decoded_or_empty;
use crate::errors::{ErrorView, IllFormedView};
use crate::events::EventView;
use crate::parser::scan::{lemma_stop, lemma_stop_inside, stop, Scan};
use crate::reader::laws::law_tags_nest;
use crate::reader::model::{end_step, markup_step, next_step, ref_step, text_step, Model};
use crate::reader::steps::{consumes, heads, keeps, lemma_next_cases, lemma_next_step, measure};
use crate::reader::to_end::{
    lemma_skip_step, lemma_to_end, nesting, skip_element, to_end, untrimmed, Nesting,
};
use crate::reader::ParseState;
use crate::utils::{has_prefix, lemma_words, word_len};

verus! {

/// How many of the names are `name`.
pub open spec fn occurrences(names: Seq<Seq<u8>>, name: Seq<u8>) -> nat
    decreases names.len(),
{
    if names.len() == 0 {
        0
    } else if names.last() == name {
        occurrences(names.drop_last(), name) + 1
    } else {
        occurrences(names.drop_last(), name)
    }
}

/// If end names are checked, an end tag closes the element `name` only after all elements inside of
/// it are closed.
proof fn lemma_closes(
    m: Model,
    head: Seq<u8>,
    outer: Seq<Seq<u8>>,
    name: Seq<u8>,
    inner: Seq<Seq<u8>>,
)
    requires
        m.wf(),
        heads(m, head),
        m.state.config.check_end_names,
        m.state.opened == outer.push(name) + inner,
    ensures
        ({
            let skipped = skip_element(m, head, name, occurrences(inner, name));
            skipped.result is Ok ==> skipped.model.state.opened == outer
        }),
    decreases measure(m),
{
    let depth = occurrences(inner, name);
    let step = next_step(m, head);
    lemma_skip_step(m, head);
    law_tags_nest(m, head);
    if let Ok(event) = step.result {
        let opened = step.model.state.opened;
        match event {
            EventView::Start(tag) => {
                let more = inner.push(tag.name());
                assert(more.drop_last() =~= inner);
                assert(opened =~= outer.push(name) + more);
                lemma_closes(step.model, head, outer, name, more);
            },
            EventView::End(found) => {
                if inner.len() > 0 {
                    assert(m.state.opened.last() == inner.last());
                    assert(opened =~= outer.push(name) + inner.drop_last());
                    lemma_closes(step.model, head, outer, name, inner.drop_last());
                } else {
                    assert(m.state.opened.last() == name);
                    assert(opened =~= outer);
                }
            },
            EventView::Eof => {},
            _ => {
                lemma_closes(step.model, head, outer, name, inner);
            },
        }
    }
}

/// If end names are checked, reading up to the end of the element that was opened last closes
/// exactly that element, also where elements with the same name are nested in it.
pub proof fn law_closes_the_element(m: Model, head: Seq<u8>)
    requires
        m.wf(),
        heads(m, head),
        m.state.config.check_end_names,
        m.state.opened.len() > 0,
    ensures
        ({
            let skipped = to_end(m, head, m.state.opened.last());
            skipped.result is Ok ==> skipped.model.state.opened == m.state.opened.drop_last()
        }),
{
    let outer = m.state.opened.drop_last();
    let name = m.state.opened.last();
    let inner = Seq::<Seq<u8>>::empty();
    assert(m.state.opened =~= outer.push(name) + inner);
    lemma_closes(m.untrimmed(), head, outer, name, inner);
}

/// Whether the end tag with the given name stands at the start of `s`.
pub open spec fn at_end_tag(s: Seq<u8>, name: Seq<u8>) -> bool {
    &&& s.len() >= 2
    &&& s[0] == LT
    &&& s[1] == SLASH
    &&& has_prefix(s.skip(2), name)
}

/// An end tag that is read starts with `/` and its name.
proof fn lemma_end_tag(m: Model)
    requires
        m.input.bytes.len() > 0,
        m.input.bytes[0] == SLASH,
    ensures
        end_step(m).result matches Ok(EventView::End(name)) ==> has_prefix(
            m.input.bytes.skip(1),
            name,
        ),
{
    let s = m.advance(1).input.bytes;
    lemma_stop_inside(Scan::Tag, s);
    if let Some(i) = stop(Scan::Tag, s) {
        let content = s.take(i);
        lemma_words(content);
        let n = word_len(content) as int;
        assert(s.take(n) =~= content.take(n));
    }
}

proof fn lemma_end_markup(m: Model)
    ensures
        markup_step(m).result matches Ok(EventView::End(name)) ==> {
            &&& m.input.bytes.len() > 0
            &&& m.input.bytes[0] == SLASH
            &&& has_prefix(m.input.bytes.skip(1), name)
        },
{
    reveal(markup_step);
    let inside = m.goto(ParseState::InsideText);
    if inside.input.bytes.len() > 0 && inside.input.bytes[0] == SLASH {
        lemma_end_tag(inside);
    }
}

/// Where an end tag is read from, if white space around text is not removed.
proof fn lemma_end_event(m: Model, head: Seq<u8>)
    requires
        m.state.state != ParseState::Init,
        m.state.state != ParseState::InsideEmpty,
        m.state.config == untrimmed(m.state.config),
    ensures
        next_step(m, head).result matches Ok(EventView::End(name)) ==> {
            ||| m.state.state == ParseState::InsideMarkup && at_end_tag(
                seq![LT] + m.input.bytes,
                name,
            )
            ||| m.state.state == ParseState::InsideText && at_end_tag(m.input.bytes, name)
        },
{
    lemma_next_cases(m, head);
    let s = m.input.bytes;
    match m.state.state {
        ParseState::InsideRef => {
            reveal(ref_step);
        },
        ParseState::InsideText => {
            reveal(text_step);
            lemma_stop(Scan::Text, s);
            assert(s.skip(0) =~= s);
            assert(m.advance(0) =~= m);
            if let Some(i) = stop(Scan::Text, s) {
                if i == 0 && s[0] == LT {
                    lemma_end_markup(m.advance(1));
                    if s.len() >= 2 {
                        assert(s.skip(1).skip(1) =~= s.skip(2));
                    }
                } else {
                    reveal(ref_step);
                }
            }
        },
        ParseState::InsideMarkup => {
            lemma_end_markup(m);
            if s.len() >= 1 {
                assert((seq![LT] + s).skip(2) =~= s.skip(1));
            }
        },
        _ => {},
    }
}

/// The position to which reading up to an end tag comes is that of the end tag, where `s` are the
/// bytes from the position `from` on, at which reading started.
proof fn lemma_ends_at_tag(
    s: Seq<u8>,
    from: int,
    m: Model,
    head: Seq<u8>,
    name: Seq<u8>,
    depth: nat,
)
    requires
        m.wf(),
        m.state.state != ParseState::Init,
        m.state.config == untrimmed(m.state.config),
        from <= m.state.offset <= from + s.len(),
        m.input.bytes == s.skip(m.state.offset - from),
        m.state.state == ParseState::InsideMarkup ==> m.state.offset > from && s[m.state.offset
            - from - 1] == LT,
    ensures
        skip_element(m, head, name, depth).result matches Ok(end) ==> {
            ||| from <= end <= from + s.len() && at_end_tag(s.skip(end - from), name)
            ||| m.state.state == ParseState::InsideEmpty && m.state.opened.last() == name && depth
                == 0 && end == m.state.offset
        },
    decreases measure(m),
{
    let step = next_step(m, head);
    lemma_skip_step(m, head);
    lemma_next_step(m, head);
    reveal(keeps);
    reveal(consumes);
    let next = step.model;
    if let Ok(event) = step.result {
        if event is Eof {
        } else {
            let n = next.state.offset - m.state.offset;
            assert(m.input.bytes.skip(n) =~= s.skip(next.state.offset - from));
            match nesting(event, name) {
                Nesting::Deeper => lemma_ends_at_tag(s, from, next, head, name, depth + 1),
                Nesting::Shallower => {
                    if depth > 0 {
                        lemma_ends_at_tag(s, from, next, head, name, (depth - 1) as nat);
                    } else if m.state.state == ParseState::InsideEmpty {
                        lemma_next_cases(m, head);
                    } else {
                        lemma_end_event(m, head);
                        let p = m.state.position() - from;
                        if m.state.state == ParseState::InsideMarkup {
                            assert(s.skip(p) =~= seq![LT] + m.input.bytes);
                        }
                    }
                },
                Nesting::Same => lemma_ends_at_tag(s, from, next, head, name, depth),
                Nesting::Ended => {},
            }
        }
    }
}

/// Once the first event was read, reading up to the end tag gives the position of its `<`. For an
/// empty element that was expanded that is the position after the tag. The content that is left of
/// the element is what lies between.
pub proof fn law_spans_the_content(m: Model, head: Seq<u8>, name: Seq<u8>)
    requires
        m.wf(),
        m.state.state != ParseState::Init,
    ensures
        to_end(m, head, name).result matches Ok(end) ==> {
            let n = end - m.state.position();
            &&& 0 <= n <= m.unread().len()
            &&& at_end_tag(m.unread().skip(n), name) || m.state.state == ParseState::InsideEmpty
                && m.state.opened.last() == name && n == 0
        },
{
    let from = m.state.position();
    assert(m.unread().skip(m.state.offset - from) =~= m.input.bytes);
    lemma_to_end(m, head, name);
    lemma_ends_at_tag(m.unread(), from, m.untrimmed(), head, name, 0);
}

/// If the document ends before the end tag, that is a violation of well-formedness which names the
/// end tag.
pub proof fn law_missing_end_tag(m: Model, head: Seq<u8>, name: Seq<u8>)
    requires
        m.wf(),
        heads(m, head),
        next_step(m.untrimmed(), head).result == Ok::<EventView, ErrorView>(EventView::Eof),
    ensures
        to_end(m, head, name).result matches Err(e) && e == ErrorView::IllFormed(
            IllFormedView::MissingEndTag(
                decoded_or_empty(to_end(m, head, name).model.state.encoding.name(), name),
            ),
        ),
{
}

} // verus!
