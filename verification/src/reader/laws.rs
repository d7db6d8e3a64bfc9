//! What every reader promises.

use vstd::prelude::*;

use crate::bytes::{AMP, BANG, HYPHEN, LT, QUESTION, SLASH};
use crate::errors::ErrorView;
use crate::events::{declared_encoding, EventView};
use crate::parser::scan::{lemma_stop, lemma_stop_inside, stop, stops, Scan};
use crate::reader::bang::bang_kind;
use crate::reader::config::Config;
use crate::reader::model::{
    after_bom, after_bytes, bang_step, end_step, markup_step, next_step, pi_step, ref_step, settle,
    start_step, started_step, text_step, trimmed, Model, Step,
};
use crate::reader::state::{continues, double_hyphen_from, text, StateView};
use crate::reader::steps::{
    advances, consumes, heads, keeps, lemma_bom, lemma_double_hyphen, lemma_next_cases,
    lemma_next_step, measure,
};
use crate::reader::{EncodingView, ParseState};
use crate::utils::{lemma_spaces, lemma_trim_end, lemma_words, whitespace, word_len};

verus! {

/// How the elements that are open change with an event. A start tag opens an element, an end tag
/// closes the one that was opened last, and the names of the two are the same if that is checked.
pub open spec fn nests(
    config: Config,
    before: Seq<Seq<u8>>,
    after: Seq<Seq<u8>>,
    event: EventView,
) -> bool {
    match event {
        EventView::Start(tag) => after == before.push(tag.name()),
        EventView::End(name) => if before.len() > 0 {
            &&& after == before.drop_last()
            &&& config.check_end_names ==> name == before.last()
        } else {
            after == before && config.allow_unmatched_ends
        },
        _ => after == before,
    }
}

/// The encoding after a result, if it was `before`. It changes only with an XML declaration that
/// declares an encoding that is known, and only if it can be refined.
pub open spec fn encoding_after(
    before: EncodingView,
    result: Result<EventView, ErrorView>,
) -> EncodingView {
    match result {
        Ok(EventView::Decl(content)) => match declared_encoding(content) {
            Some(name) if before.refinable() => EncodingView::XmlDetected(name),
            _ => before,
        },
        _ => before,
    }
}

/// Whether the content of a comment neither contains `--` nor ends with `-`.
pub open spec fn valid_comment(content: Seq<u8>) -> bool {
    forall|p: int|
        0 <= p < content.len() && #[trigger] content[p] == HYPHEN ==> p + 1 < content.len()
            && content[p + 1] != HYPHEN
}

/// Whether the content of a text event is not empty, contains no markup, contains `&` only at its
/// start and only where that is allowed, and is trimmed as it is configured.
pub open spec fn valid_text(config: Config, content: Seq<u8>) -> bool {
    &&& content.len() > 0
    &&& forall|j: int| 0 <= j < content.len() ==> #[trigger] content[j] != LT
    &&& forall|j: int| 0 < j < content.len() ==> #[trigger] content[j] != AMP
    &&& content[0] == AMP ==> config.allow_dangling_amp
    &&& config.trim_text_start ==> !whitespace(content[0])
    &&& config.trim_text_end ==> !whitespace(content.last())
}

/// Whether there is no white space in a name.
pub open spec fn no_space(name: Seq<u8>) -> bool {
    forall|j: int| 0 <= j < name.len() ==> !whitespace(#[trigger] name[j])
}

/// Whether `name` is the first word of `content`: it contains no white space, and it is all of
/// `content` or white space follows it.
pub open spec fn is_first_word(name: Seq<u8>, content: Seq<u8>) -> bool {
    &&& no_space(name)
    &&& name.len() <= content.len()
    &&& content.take(name.len() as int) == name
    &&& name.len() < content.len() ==> whitespace(content[name.len() as int])
}

/// What the result of a step says about the state before it and the state after it.
#[verifier::opaque]
spec fn tells(before: StateView, step: Step) -> bool {
    let after = step.model.state;
    let config = before.config;
    &&& after.encoding == encoding_after(before.encoding, step.result)
    &&& after.state == ParseState::InsideEmpty ==> config.expand_empty_elements
    &&& step.result matches Ok(event) ==> {
        &&& after.error_offset == before.error_offset
        &&& nests(config, before.opened, after.opened, event)
        &&& event is Empty ==> !config.expand_empty_elements
        &&& event matches EventView::Start(tag) ==> is_first_word(tag.name(), tag.content)
        &&& event matches EventView::Empty(tag) ==> is_first_word(tag.name(), tag.content)
        &&& event matches EventView::End(name) ==> (config.trim_markup_names_in_closing_tags
            && before.state != ParseState::InsideEmpty ==> no_space(name))
        &&& event matches EventView::Comment(comment) ==> (config.check_comments ==> valid_comment(
            comment.content,
        ))
        &&& event matches EventView::Text(text) ==> valid_text(config, text.content)
    }
}

/// Whether two states differ at most in what does not matter to [`tells`].
spec fn alike(a: StateView, b: StateView) -> bool {
    &&& a.error_offset == b.error_offset
    &&& a.config == b.config
    &&& a.opened == b.opened
    &&& a.encoding == b.encoding
    &&& (a.state == ParseState::InsideEmpty) == (b.state == ParseState::InsideEmpty)
}

proof fn lemma_alike(a: StateView, b: StateView, step: Step)
    requires
        alike(a, b),
        tells(a, step),
    ensures
        tells(b, step),
{
    reveal(tells);
}

proof fn lemma_settle_tells(st: StateView, step: Step)
    requires
        tells(st, step),
    ensures
        tells(st, settle(step)),
{
    reveal(tells);
}

proof fn lemma_after_bytes_tells(st: StateView, kept: Seq<u8>, step: Step)
    requires
        tells(st, step),
    ensures
        tells(st, after_bytes(kept, step)),
{
    reveal(tells);
}

/// A step that fails and leaves the encoding as it is.
proof fn lemma_error_tells(st: StateView, step: Step)
    requires
        step.result is Err,
        step.model.state.encoding == st.encoding,
        step.model.state.state != ParseState::InsideEmpty,
    ensures
        tells(st, step),
{
    reveal(tells);
}

proof fn lemma_start_tells(m: Model)
    requires
        m.state.state == ParseState::InsideText,
    ensures
        tells(m.state, start_step(m)),
{
    let s = m.input.bytes;
    match stop(Scan::Tag, s) {
        Some(i) => {
            let bytes = s.take(i);
            let n = word_len(bytes) as int;
            lemma_words(bytes);
            if bytes.len() > 0 && bytes.last() == SLASH {
                let content = bytes.drop_last();
                if n < bytes.len() {
                    assert(n < content.len());
                    assert(content.take(n) =~= bytes.take(n));
                    assert(content[n] == bytes[n]);
                } else {
                    assert(content.take(content.len() as int) =~= content);
                }
            }
            reveal(tells);
        },
        None => {
            lemma_error_tells(m.state, start_step(m));
        },
    }
}

proof fn lemma_end_tells(m: Model)
    requires
        m.state.state == ParseState::InsideText,
    ensures
        tells(m.state, end_step(m)),
{
    let s = m.advance(1).input.bytes;
    match stop(Scan::Tag, s) {
        Some(i) => {
            lemma_words(s.take(i));
            reveal(tells);
        },
        None => {
            lemma_error_tells(m.state, end_step(m));
        },
    }
}

proof fn lemma_pi_tells(m: Model)
    requires
        m.state.state == ParseState::InsideText,
    ensures
        tells(m.state, pi_step(m)),
{
    let s = m.input.bytes;
    match stop(Scan::Pi, s) {
        Some(i) => {
            reveal(tells);
        },
        None => {
            lemma_error_tells(m.state, pi_step(m));
        },
    }
}

/// A comment that was checked is valid.
proof fn lemma_checked_comment(s: Seq<u8>)
    requires
        s.len() >= 5,
        s[s.len() - 2] == HYPHEN,
        double_hyphen_from(s, 0) is None,
    ensures
        valid_comment(s.subrange(3, s.len() - 2)),
{
    lemma_double_hyphen(s, 0);
    let content = s.subrange(3, s.len() - 2);
    assert forall|p: int| 0 <= p < content.len() && #[trigger] content[p] == HYPHEN implies p + 1
        < content.len() && content[p + 1] != HYPHEN by {
        assert(s[p + 3] == content[p]);
        if p + 1 < content.len() {
            assert(s[p + 4] == content[p + 1]);
        }
    }
}

proof fn lemma_bang_tells(m: Model)
    requires
        m.state.state == ParseState::InsideText,
        m.input.bytes.len() > 0,
    ensures
        tells(m.state, bang_step(m)),
{
    let s = m.input.bytes;
    if s.len() == 1 || bang_kind(s[1]) is None {
        lemma_error_tells(m.state, bang_step(m));
    } else {
        let kind = bang_kind(s[1])->Some_0;
        match stop(kind, s) {
            Some(i) => {
                lemma_stop(kind, s);
                assert(stops(kind, s, i));
                if kind == Scan::Comment && double_hyphen_from(s.take(i), 0) is None {
                    lemma_checked_comment(s.take(i));
                }
                reveal(tells);
            },
            None => {
                lemma_error_tells(m.state, bang_step(m));
            },
        }
    }
}

proof fn lemma_markup_tells(m: Model)
    requires
        m.state.state != ParseState::InsideEmpty,
    ensures
        tells(m.state, markup_step(m)),
{
    reveal(markup_step);
    let inside = m.goto(ParseState::InsideText);
    let s = inside.input.bytes;
    if s.len() == 0 {
        lemma_error_tells(inside.state, markup_step(m));
    } else if s[0] == BANG {
        lemma_bang_tells(inside);
    } else if s[0] == SLASH {
        lemma_end_tells(inside);
    } else if s[0] == QUESTION {
        lemma_pi_tells(inside);
    } else {
        lemma_start_tells(inside);
    }
    lemma_alike(inside.state, m.state, markup_step(m));
}

/// A text that is cut out of the document is valid.
proof fn lemma_valid_text(st: StateView, bytes: Seq<u8>)
    requires
        text(st, bytes).content.len() > 0,
        forall|j: int| 0 <= j < bytes.len() ==> #[trigger] bytes[j] != LT,
        forall|j: int| 0 < j < bytes.len() ==> #[trigger] bytes[j] != AMP,
        bytes[0] == AMP ==> st.config.allow_dangling_amp,
        st.config.trim_text_start ==> !whitespace(bytes[0]),
    ensures
        valid_text(st.config, text(st, bytes).content),
{
    lemma_trim_end(bytes);
    let content = text(st, bytes).content;
    assert forall|j: int| 0 <= j < content.len() implies #[trigger] content[j] == bytes[j] by {}
}

proof fn lemma_ref_tells(m: Model)
    requires
        m.state.state == ParseState::InsideText || m.state.state == ParseState::InsideRef,
        m.input.bytes.len() > 0,
        m.input.bytes[0] == AMP,
    ensures
        tells(m.state, ref_step(m)),
{
    reveal(ref_step);
    reveal(tells);
    let s = m.input.bytes;
    lemma_stop(Scan::Reference, s);
    let bytes = match stop(Scan::Reference, s) {
        Some(i) => s.take(i),
        None => s,
    };
    assert forall|j: int| 0 <= j < bytes.len() implies #[trigger] bytes[j] != LT by {
        assert(bytes[j] == s[j]);
        assert(!stops(Scan::Reference, s, j));
    }
    assert forall|j: int| 0 < j < bytes.len() implies #[trigger] bytes[j] != AMP by {
        assert(bytes[j] == s[j]);
        assert(!stops(Scan::Reference, s, j));
    }
    lemma_trim_end(bytes);
    assert(bytes[0] == AMP);
    assert(!whitespace(bytes[0]));
    if m.state.config.allow_dangling_amp {
        lemma_valid_text(m.state, bytes);
    }
}

proof fn lemma_text_tells(m: Model)
    requires
        m.state.state == ParseState::InsideText,
        m.state.config.trim_text_start && m.input.bytes.len() > 0 ==> !whitespace(m.input.bytes[0]),
    ensures
        tells(m.state, text_step(m)),
{
    reveal(text_step);
    let s = m.input.bytes;
    lemma_stop(Scan::Text, s);
    let bytes = match stop(Scan::Text, s) {
        Some(i) => s.take(i),
        None => s,
    };
    assert forall|j: int| 0 <= j < bytes.len() implies #[trigger] bytes[j] != LT && bytes[j]
        != AMP by {
        assert(bytes[j] == s[j]);
        assert(!stops(Scan::Text, s, j));
    }
    lemma_trim_end(bytes);
    if text(m.state, bytes).content.len() > 0 {
        lemma_valid_text(m.state, bytes);
        reveal(tells);
    } else if let Some(i) = stop(Scan::Text, s) {
        assert(stops(Scan::Text, s, i));
        if s[i] == LT {
            let inside = m.advance(i + 1);
            lemma_markup_tells(inside);
            lemma_alike(inside.state, m.state, markup_step(inside));
            lemma_after_bytes_tells(m.state, bytes, markup_step(inside));
        } else {
            let inside = m.advance(i);
            assert(inside.input.bytes[0] == s[i]);
            lemma_ref_tells(inside);
            lemma_alike(inside.state, m.state, ref_step(inside));
            lemma_after_bytes_tells(m.state, bytes, ref_step(inside));
        }
    } else {
        reveal(tells);
    }
}

proof fn lemma_started_tells(m: Model)
    requires
        m.wf(),
        m.state.state != ParseState::Init,
        m.state.state == ParseState::InsideRef ==> m.input.bytes.len() > 0,
    ensures
        tells(m.state, started_step(m)),
{
    match m.state.state {
        ParseState::InsideRef => {
            lemma_ref_tells(m);
            lemma_settle_tells(m.state, ref_step(m));
        },
        ParseState::InsideText => {
            lemma_spaces(m.input.bytes);
            let n = trimmed(m);
            let inside = m.advance(n);
            lemma_text_tells(inside);
            lemma_settle_tells(inside.state, text_step(inside));
            lemma_alike(inside.state, m.state, settle(text_step(inside)));
        },
        ParseState::InsideMarkup => {
            lemma_markup_tells(m);
            lemma_settle_tells(m.state, markup_step(m));
        },
        _ => {
            reveal(tells);
        },
    }
}

/// The reader after it looked at the first bytes of the document.
pub open spec fn begun(m: Model, head: Seq<u8>) -> Model {
    if m.state.state == ParseState::Init {
        after_bom(m, head)
    } else {
        m
    }
}

proof fn lemma_tells(m: Model, head: Seq<u8>)
    requires
        m.wf(),
        heads(m, head),
        m.state.state == ParseState::InsideRef ==> m.input.bytes.len() > 0,
    ensures
        tells(begun(m, head).state, next_step(m, head)),
        alike(StateView { encoding: m.state.encoding, ..begun(m, head).state }, m.state),
{
    lemma_next_cases(m, head);
    if m.state.state == ParseState::Init {
        let inside = after_bom(m, head);
        lemma_bom(m, head);
        assert(inside.wf()) by {
            reveal(keeps);
        }
        lemma_started_tells(inside);
    } else {
        lemma_started_tells(m);
    }
}

/// Reading never breaks a reader: a reader on which calls can be made stays such a reader, whatever
/// it reads, and keeps its configuration.
pub proof fn law_stays_usable(m: Model, head: Seq<u8>)
    requires
        m.wf(),
        heads(m, head),
    ensures
        next_step(m, head).model.wf(),
        next_step(m, head).model.state.config == m.state.config,
{
    lemma_next_step(m, head);
    reveal(keeps);
}

/// The position of the last error is never behind the position of the reader. It moves only when an
/// error is returned, so it is 0 as long as there was none.
pub proof fn law_error_position(m: Model, head: Seq<u8>)
    requires
        m.wf(),
        heads(m, head),
    ensures
        ({
            let step = next_step(m, head);
            &&& 0 <= step.model.state.error_offset <= step.model.state.position()
            &&& step.result is Ok ==> step.model.state.error_offset == m.state.error_offset
        }),
{
    lemma_next_step(m, head);
    reveal(keeps);
    if m.state.state == ParseState::InsideRef && m.input.bytes.len() == 0 {
        lemma_next_cases(m, head);
        reveal(ref_step);
    } else {
        lemma_tells(m, head);
        reveal(tells);
    }
}

/// The position of the reader never goes back.
pub proof fn law_position_grows(m: Model, head: Seq<u8>)
    requires
        m.wf(),
        heads(m, head),
    ensures
        next_step(m, head).model.state.position() >= m.state.position(),
{
    lemma_next_step(m, head);
    reveal(keeps);
}

/// As long as reading can go on, what is consumed are the bytes ahead, one after another, and the
/// offset counts all of them.
pub proof fn law_counts_bytes(m: Model, head: Seq<u8>)
    requires
        m.wf(),
        heads(m, head),
    ensures
        ({
            let step = next_step(m, head);
            let n = step.model.state.offset - m.state.offset;
            continues(step.result) ==> 0 <= n <= m.input.bytes.len() && step.model.input
                == m.input.skip(n)
        }),
{
    lemma_next_step(m, head);
    reveal(consumes);
}

/// Reading comes to an end: there is a measure that every event makes smaller.
pub proof fn law_comes_to_an_end(m: Model, head: Seq<u8>)
    requires
        m.wf(),
        heads(m, head),
    ensures
        continues(next_step(m, head).result) ==> measure(next_step(m, head).model) < measure(m),
{
    lemma_next_step(m, head);
    reveal(advances);
}

/// A reader that is done stays so forever: it returns nothing but the end of the document.
pub proof fn law_done_forever(m: Model, head: Seq<u8>)
    requires
        m.state.state == ParseState::Done,
    ensures
        next_step(m, head).model == m,
        next_step(m, head).result == Ok::<EventView, ErrorView>(EventView::Eof),
{
    lemma_next_cases(m, head);
}

/// A reader is done after the end of the document and after every error but a violation of
/// well-formedness, after which reading can go on.
pub proof fn law_done_after(m: Model, head: Seq<u8>)
    requires
        m.wf(),
        heads(m, head),
    ensures
        ({
            let step = next_step(m, head);
            &&& step.result == Ok::<EventView, ErrorView>(EventView::Eof) ==> step.model.state.state
                == ParseState::Done
            &&& step.result is Err && step.result->Err_0 is Io ==> step.model.state.state
                == ParseState::Done
            &&& step.result is Err && step.result->Err_0 !is IllFormed ==> step.model.state.state
                == ParseState::Done
        }),
{
    lemma_next_cases(m, head);
}

/// A reader leaves its initial state with the first call and never returns to it.
pub proof fn law_never_initial_again(m: Model, head: Seq<u8>)
    requires
        m.wf(),
        heads(m, head),
    ensures
        next_step(m, head).model.state.state != ParseState::Init,
{
    lemma_next_step(m, head);
    reveal(keeps);
}

/// Start and end tags nest: a start tag opens an element, an end tag closes the element that was
/// opened last, with literally the same name if that is checked, and an end tag without an open
/// element is returned only if that is allowed. Nothing else opens or closes an element.
pub proof fn law_tags_nest(m: Model, head: Seq<u8>)
    requires
        m.wf(),
        heads(m, head),
    ensures
        next_step(m, head).result matches Ok(event) ==> nests(
            m.state.config,
            m.state.opened,
            next_step(m, head).model.state.opened,
            event,
        ),
{
    if m.state.state == ParseState::InsideRef && m.input.bytes.len() == 0 {
        lemma_next_cases(m, head);
        reveal(ref_step);
    } else {
        lemma_tells(m, head);
        reveal(tells);
    }
}

/// The name of every start tag and of every self-closed tag is the first word of its content.
pub proof fn law_names_are_first_words(m: Model, head: Seq<u8>)
    requires
        m.wf(),
        heads(m, head),
    ensures
        next_step(m, head).result matches Ok(EventView::Start(tag)) ==> is_first_word(
            tag.name(),
            tag.content,
        ),
        next_step(m, head).result matches Ok(EventView::Empty(tag)) ==> is_first_word(
            tag.name(),
            tag.content,
        ),
{
    if m.state.state == ParseState::InsideRef && m.input.bytes.len() == 0 {
        lemma_next_cases(m, head);
        reveal(ref_step);
    } else {
        lemma_tells(m, head);
        reveal(tells);
    }
}

/// If the names in closing tags are trimmed, the name of an end tag that is read contains no white
/// space.
pub proof fn law_end_names_are_trimmed(m: Model, head: Seq<u8>)
    requires
        m.wf(),
        heads(m, head),
        m.state.config.trim_markup_names_in_closing_tags,
        m.state.state != ParseState::InsideEmpty,
    ensures
        next_step(m, head).result matches Ok(EventView::End(name)) ==> no_space(name),
{
    if m.state.state == ParseState::InsideRef && m.input.bytes.len() == 0 {
        lemma_next_cases(m, head);
        reveal(ref_step);
    } else {
        lemma_tells(m, head);
        reveal(tells);
    }
}

/// If empty elements are expanded, none is returned as such, and the start event that stands for
/// one is followed at once by the end event with the same name, for which no bytes are consumed and
/// which closes the element. If they are not expanded, a start event is never made up.
pub proof fn law_expands_empty_elements(m: Model, head: Seq<u8>, next_head: Seq<u8>)
    requires
        m.wf(),
        heads(m, head),
    ensures
        ({
            let step = next_step(m, head);
            let next = next_step(step.model, next_head);
            &&& m.state.config.expand_empty_elements ==> !(step.result is Ok && step.result->Ok_0
                is Empty)
            &&& !m.state.config.expand_empty_elements ==> step.model.state.state
                != ParseState::InsideEmpty
            &&& step.model.state.state == ParseState::InsideEmpty ==> {
                &&& step.result matches Ok(EventView::Start(tag))
                &&& next.result == Ok::<EventView, ErrorView>(EventView::End(tag.name()))
                &&& next.model.input == step.model.input
                &&& next.model.state.offset == step.model.state.offset
                &&& next.model.state.opened == m.state.opened
                &&& next.model.state.state == ParseState::InsideText
            }
        }),
{
    let step = next_step(m, head);
    lemma_next_step(m, head);
    reveal(keeps);
    if m.state.state == ParseState::InsideRef && m.input.bytes.len() == 0 {
        lemma_next_cases(m, head);
        reveal(ref_step);
    } else {
        lemma_tells(m, head);
        reveal(tells);
        lemma_next_cases(step.model, next_head);
        if step.model.state.state == ParseState::InsideEmpty {
            let tag = step.result->Ok_0->Start_0;
            assert(m.state.opened.push(tag.name()).drop_last() =~= m.state.opened);
        }
    }
}

/// If comments are checked, a comment that is returned neither contains `--` nor ends with `-`.
pub proof fn law_comments_are_valid(m: Model, head: Seq<u8>)
    requires
        m.wf(),
        heads(m, head),
        m.state.config.check_comments,
    ensures
        next_step(m, head).result matches Ok(EventView::Comment(comment)) ==> valid_comment(
            comment.content,
        ),
{
    if m.state.state == ParseState::InsideRef && m.input.bytes.len() == 0 {
        lemma_next_cases(m, head);
        reveal(ref_step);
    } else {
        lemma_tells(m, head);
        reveal(tells);
    }
}

/// A text that is returned is not empty, contains no `<`, contains `&` at most as its first byte
/// and only if dangling ampersands are allowed, and neither starts nor ends with white space where
/// that is trimmed. (A reader that has seen `&` is at it, unless bytes were taken from its source
/// in between.)
pub proof fn law_texts_are_valid(m: Model, head: Seq<u8>)
    requires
        m.wf(),
        heads(m, head),
        m.state.state == ParseState::InsideRef ==> m.input.bytes.len() > 0,
    ensures
        next_step(m, head).result matches Ok(EventView::Text(text)) ==> valid_text(
            m.state.config,
            text.content,
        ),
{
    lemma_tells(m, head);
    reveal(tells);
}

/// The encoding of the document is what the first bytes of the document show, until an XML
/// declaration declares another. An encoding that was set explicitly or declared by the document
/// never changes.
pub proof fn law_encoding_is_refined(m: Model, head: Seq<u8>)
    requires
        m.wf(),
        heads(m, head),
    ensures
        ({
            let step = next_step(m, head);
            let encoding = step.model.state.encoding;
            &&& encoding == encoding_after(begun(m, head).state.encoding, step.result)
            &&& !m.state.encoding.refinable() ==> encoding == m.state.encoding
        }),
{
    if m.state.state == ParseState::InsideRef && m.input.bytes.len() == 0 {
        lemma_next_cases(m, head);
        reveal(ref_step);
    } else {
        lemma_tells(m, head);
        reveal(tells);
        if m.state.state == ParseState::Init {
            lemma_bom(m, head);
        }
    }
}

/// Whether the step does not fail because of the syntax, or the error is at the given offset.
#[verifier::opaque]
spec fn errs_at(step: Step, at: int) -> bool {
    step.result is Err && step.result->Err_0 is Syntax ==> step.model.state.error_offset == at
}

proof fn lemma_start_errs(m: Model)
    ensures
        errs_at(start_step(m), m.state.offset - 1),
{
    reveal(errs_at);
}

proof fn lemma_end_errs(m: Model)
    ensures
        errs_at(end_step(m), m.state.offset - 1),
{
    reveal(errs_at);
}

proof fn lemma_pi_errs(m: Model)
    ensures
        errs_at(pi_step(m), m.state.offset - 1),
{
    reveal(errs_at);
    lemma_stop_inside(Scan::Pi, m.input.bytes);
}

proof fn lemma_bang_errs(m: Model)
    requires
        m.input.bytes.len() > 0,
    ensures
        errs_at(bang_step(m), m.state.offset - 1),
{
    reveal(errs_at);
    let s = m.input.bytes;
    if s.len() > 1 && bang_kind(s[1]) is Some {
        lemma_stop_inside(bang_kind(s[1])->Some_0, s);
    }
}

proof fn lemma_markup_errs(m: Model)
    ensures
        errs_at(markup_step(m), m.state.offset - 1),
{
    reveal(markup_step);
    let inside = m.goto(ParseState::InsideText);
    let s = inside.input.bytes;
    if s.len() == 0 {
        reveal(errs_at);
    } else if s[0] == BANG {
        lemma_bang_errs(inside);
    } else if s[0] == SLASH {
        lemma_end_errs(inside);
    } else if s[0] == QUESTION {
        lemma_pi_errs(inside);
    } else {
        lemma_start_errs(inside);
    }
}

/// Where the markup starts that the next step of a reader reads, if it reads markup.
pub open spec fn markup_start(m: Model) -> Option<int> {
    match m.state.state {
        ParseState::InsideMarkup => Some(m.state.offset - 1),
        ParseState::InsideText => {
            let rest = m.input.bytes.skip(trimmed(m));
            match stop(Scan::Text, rest) {
                Some(i) if rest[i] == LT => Some(m.state.offset + trimmed(m) + i),
                _ => None,
            }
        },
        _ => None,
    }
}

/// Whether `<` stands at the given offset, ahead of the reader or just behind it.
pub open spec fn is_markup_at(m: Model, at: int) -> bool {
    let i = at - m.state.offset;
    ||| 0 <= i < m.input.bytes.len() && m.input.bytes[i] == LT
    ||| i == -1 && m.state.state == ParseState::InsideMarkup
}

/// All errors in the syntax are reported at the `<` of the markup that is wrong.
pub proof fn law_syntax_errors_are_at_markup(m: Model, head: Seq<u8>)
    requires
        m.wf(),
        heads(m, head),
    ensures
        ({
            let step = next_step(m, head);
            step.result is Err && step.result->Err_0 is Syntax ==> {
                &&& markup_start(begun(m, head)) == Some(step.model.state.error_offset)
                &&& is_markup_at(m, step.model.state.error_offset)
            }
        }),
{
    lemma_next_cases(m, head);
    let start = begun(m, head);
    if m.state.state == ParseState::Init {
        lemma_bom(m, head);
    }
    match start.state.state {
        ParseState::InsideRef => {
            reveal(ref_step);
        },
        ParseState::InsideText => {
            lemma_spaces(start.input.bytes);
            lemma_text_errs(start.advance(trimmed(start)));
        },
        ParseState::InsideMarkup => {
            lemma_markup_errs(start);
            reveal(errs_at);
        },
        _ => {},
    }
}

proof fn lemma_text_errs(m: Model)
    ensures
        ({
            let step = text_step(m);
            step.result is Err && step.result->Err_0 is Syntax ==> {
                &&& stop(Scan::Text, m.input.bytes) matches Some(i)
                &&& 0 <= i < m.input.bytes.len()
                &&& m.input.bytes[i] == LT
                &&& step.model.state.error_offset == m.state.offset + i
            }
        }),
{
    reveal(text_step);
    let s = m.input.bytes;
    lemma_stop_inside(Scan::Text, s);
    if let Some(i) = stop(Scan::Text, s) {
        if text(m.state, s.take(i)).content.len() == 0 {
            if s[i] == LT {
                lemma_markup_errs(m.advance(i + 1));
                reveal(errs_at);
            } else {
                reveal(ref_step);
            }
        }
    }
}

} // verus!
