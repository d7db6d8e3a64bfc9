//! What is read from a document that is written in a certain way.

use vstd::prelude::*;

use crate::attributes::{
    all_space, all_valid, attributes_bytes, law_attribute_is_found, law_attribute_is_missing,
    Written,
};
use crate::bytes::{
    AMP, BANG, CLOSE_BRACKET, GT, HYPHEN, LT, OPEN_BRACKET, QUESTION, SEMICOLON, SLASH,
};
use crate::encoding::{bom_encoding, decoded_or_empty, decoding, label_encoding, utf8_bom};
use crate::errors::{ErrorView, IllFormedView, SyntaxError};
use crate::events::{declared_encoding, encoding_key, EventView, TextView};
use crate::parser::fast_element::unclosed_tag;
use crate::parser::grammar::{
    items_bytes, law_doctype_ends, law_doctype_is_unclosed, law_doctype_with_subset_ends,
    law_tag_ends, law_tag_is_unclosed, law_value_is_unclosed, no_comment_end, no_instruction_end,
    parts_bytes, subset_bytes, valid_before, valid_items, valid_parts, without, SubsetItem, TagPart,
};
use crate::parser::pi::{xml_declaration, xml_name};
use crate::parser::scan::{lemma_stop_at, lemma_stop_nowhere, stop, stops, Scan};
use crate::reader::bang::{bang_kind, unclosed_bang};
use crate::reader::laws::{
    is_first_word, law_encoding_is_refined, law_names_are_first_words, law_stays_usable,
    valid_comment,
};
use crate::reader::model::{
    after_bom, markup_step, next_step, ref_step, settle, text_step, trimmed, Model,
};
use crate::reader::source::{input_ahead, lemma_skipped_input, Input};
use crate::reader::state::{
    cdata_start, comment_start, doctype_start, double_hyphen_from, starts_doctype, text, upper,
    StateView,
};
use crate::reader::steps::{lemma_double_hyphen, lemma_next_cases};
use crate::reader::{EncodingView, ParseState};
use crate::utils::{
    has_prefix, lemma_leading_space, lemma_spaces, lemma_trim_end, lemma_word_len, lemma_words,
    trim_end, whitespace, word_len,
};

verus! {

/// Whether a reader that has begun to read the document is going to read `doc` next.
pub open spec fn reads(m: Model, doc: Seq<u8>) -> bool {
    &&& m.wf()
    &&& m.state.state == ParseState::InsideText || m.state.state == ParseState::InsideMarkup
        || m.state.state == ParseState::InsideRef
    &&& m.unread() == doc
}

/// Whether a reader goes on with `rest` after an event or an error. It is done only if nothing is
/// left.
pub open spec fn goes_on(next: Model, rest: Seq<u8>) -> bool {
    &&& next.unread() == rest
    &&& reads(next, rest) || next.state.state == ParseState::Done && rest.len() == 0
}

/// The reader after the `<` of markup, of which the bytes after it are `s`.
spec fn inside(m: Model, s: Seq<u8>) -> Model {
    Model {
        input: Input { bytes: s, ..m.input },
        state: StateView {
            offset: m.state.position() + 1,
            state: ParseState::InsideText,
            ..m.state
        },
    }
}

/// In which state the reader is does not matter to markup.
proof fn lemma_markup_state(m: Model)
    ensures
        markup_step(m) == markup_step(m.goto(ParseState::InsideText)),
{
    reveal(markup_step);
    let n = m.goto(ParseState::InsideText);
    assert(n.goto(ParseState::InsideText) =~= n);
}

/// What is next is markup if `<` is next.
proof fn lemma_markup(m: Model, head: Seq<u8>, s: Seq<u8>)
    requires
        reads(m, seq![LT] + s),
    ensures
        next_step(m, head).result == markup_step(inside(m, s)).result,
        next_step(m, head).model == settle(markup_step(inside(m, s))).model,
{
    let doc = seq![LT] + s;
    assert(doc[0] == LT);
    lemma_next_cases(m, head);
    if m.state.state == ParseState::InsideMarkup {
        assert(m.input.bytes =~= m.unread().skip(1));
        assert(doc.skip(1) =~= s);
        assert(m.goto(ParseState::InsideText) =~= inside(m, s));
        lemma_markup_state(m);
    } else {
        assert(m.input.bytes == doc);
        lemma_leading_space(doc, 0);
        assert(m.advance(0) =~= m) by {
            assert(doc.skip(0) =~= doc);
        }
        lemma_stop_at(Scan::Text, doc, 0);
        lemma_trim_end(doc.take(0));
        assert(m.advance(1) =~= inside(m, s)) by {
            assert(doc.skip(1) =~= s);
        }
        reveal(text_step);
    }
}

/// What is next is a reference if `&` is next.
proof fn lemma_reference(m: Model, head: Seq<u8>)
    requires
        reads(m, m.unread()),
        m.unread().len() > 0,
        m.unread()[0] == AMP,
    ensures
        m.input.bytes == m.unread(),
        m.state.position() == m.state.offset,
        next_step(m, head).result == ref_step(m).result,
        next_step(m, head).model == settle(ref_step(m)).model,
{
    let doc = m.input.bytes;
    lemma_next_cases(m, head);
    if m.state.state == ParseState::InsideText {
        lemma_leading_space(doc, 0);
        assert(m.advance(0) =~= m) by {
            assert(doc.skip(0) =~= doc);
        }
        lemma_stop_at(Scan::Text, doc, 0);
        lemma_trim_end(doc.take(0));
        reveal(text_step);
    }
}

/// A reader that has begun to read stays usable.
proof fn lemma_usable(m: Model, head: Seq<u8>)
    requires
        reads(m, m.unread()),
    ensures
        next_step(m, head).model.wf(),
{
    law_stays_usable(m, head);
}

/// Whether bytes between the brackets of a tag are those of a start tag or a self-closed tag.
pub open spec fn is_start(content: Seq<u8>) -> bool {
    content.len() > 0 ==> content[0] != BANG && content[0] != SLASH && content[0] != QUESTION
}

/// A start tag and a self-closed tag are read up to the first `>` outside of quoted values. A tag
/// is self-closed if its last byte is `/`, which does not belong to its content. The name is the
/// first word of the content. What comes next is what follows the tag.
pub proof fn law_reads_start_tags(m: Model, head: Seq<u8>, parts: Seq<TagPart>, rest: Seq<u8>)
    requires
        valid_parts(parts),
        is_start(parts_bytes(parts)),
        reads(m, seq![LT] + parts_bytes(parts) + seq![GT] + rest),
    ensures
        ({
            let bytes = parts_bytes(parts);
            let slash = bytes.len() > 0 && bytes.last() == SLASH;
            let content = if slash {
                bytes.drop_last()
            } else {
                bytes
            };
            let step = next_step(m, head);
            let next = step.model.state;
            &&& if slash && !m.state.config.expand_empty_elements {
                &&& step.result matches Ok(EventView::Empty(tag))
                &&& tag.content == content
                &&& is_first_word(tag.name(), content)
                &&& next.opened == m.state.opened
            } else {
                &&& step.result matches Ok(EventView::Start(tag))
                &&& tag.content == content
                &&& is_first_word(tag.name(), content)
                &&& next.opened == m.state.opened.push(tag.name())
            }
            &&& (next.state == ParseState::InsideEmpty) == (slash
                && m.state.config.expand_empty_elements)
            &&& step.model.unread() == rest
            &&& next.state != ParseState::InsideEmpty ==> goes_on(step.model, rest)
            &&& next.state != ParseState::Done
            &&& next.position() == m.state.position() + bytes.len() + 2
        }),
{
    let bytes = parts_bytes(parts);
    let s = bytes + seq![GT] + rest;
    assert(seq![LT] + bytes + seq![GT] + rest =~= seq![LT] + s);
    lemma_markup(m, head, s);
    lemma_usable(m, head);
    law_tag_ends(parts, rest);
    assert(bytes.len() > 0 ==> s[0] == bytes[0]);
    reveal(markup_step);
    let i = bytes.len() as int;
    assert(inside(m, s).goto(ParseState::InsideText) =~= inside(m, s));
    assert(s.take(i) =~= bytes);
    assert(s.skip(i + 1) =~= rest);
    law_names_are_first_words(m, head);
    lemma_usable(m, head);
}

/// An end tag is read up to the first `>` outside of quoted values. Its name is the first word of
/// what stands between, or all of that if names are not trimmed. It closes the element that was
/// opened last, if there is one; it is an error if that has another name and names are checked, or
/// if there is none and that is not allowed, and the error is at the tag.
pub proof fn law_reads_end_tags(
    m: Model,
    head: Seq<u8>,
    parts: Seq<TagPart>,
    name: Seq<u8>,
    rest: Seq<u8>,
)
    requires
        valid_parts(parts),
        reads(m, seq![LT, SLASH] + parts_bytes(parts) + seq![GT] + rest),
        if m.state.config.trim_markup_names_in_closing_tags {
            is_first_word(name, parts_bytes(parts))
        } else {
            name == parts_bytes(parts)
        },
    ensures
        ({
            let step = next_step(m, head);
            let next = step.model.state;
            let opened = m.state.opened;
            let encoding = m.state.encoding.name();
            &&& step.result == if opened.len() > 0 && m.state.config.check_end_names && name
                != opened.last() {
                Err::<EventView, ErrorView>(
                    ErrorView::IllFormed(
                        IllFormedView::MismatchedEndTag {
                            expected: decoded_or_empty(encoding, opened.last()),
                            found: decoded_or_empty(encoding, name),
                        },
                    ),
                )
            } else if opened.len() == 0 && !m.state.config.allow_unmatched_ends {
                Err(
                    ErrorView::IllFormed(
                        IllFormedView::UnmatchedEndTag(decoded_or_empty(encoding, name)),
                    ),
                )
            } else {
                Ok(EventView::End(name))
            }
            &&& next.opened == if opened.len() > 0 {
                opened.drop_last()
            } else {
                opened
            }
            &&& next.error_offset == if step.result is Err {
                m.state.position()
            } else {
                m.state.error_offset
            }
            &&& goes_on(step.model, rest)
            &&& next.position() == m.state.position() + parts_bytes(parts).len() + 3
        }),
{
    let bytes = parts_bytes(parts);
    let t = bytes + seq![GT] + rest;
    let s = seq![SLASH] + t;
    assert(seq![LT, SLASH] + bytes + seq![GT] + rest =~= seq![LT] + s);
    lemma_markup(m, head, s);
    lemma_usable(m, head);
    law_tag_ends(parts, rest);
    reveal(markup_step);
    let i = bytes.len() as int;
    assert(inside(m, s).goto(ParseState::InsideText) =~= inside(m, s));
    assert(s.skip(1) =~= t);
    assert(t.take(i) =~= bytes);
    assert(t.skip(i + 1) =~= rest);
    lemma_words(bytes);
    if m.state.config.trim_markup_names_in_closing_tags {
        lemma_first_word(name, bytes);
    }
}

/// There is only one first word.
proof fn lemma_first_word(name: Seq<u8>, content: Seq<u8>)
    requires
        is_first_word(name, content),
    ensures
        name == content.take(word_len(content) as int),
{
    let n = name.len() as int;
    assert forall|j: int| 0 <= j < n implies !whitespace(#[trigger] content[j]) by {
        assert(content.take(n)[j] == name[j]);
    }
    lemma_word_len(content, n);
}

/// A comment is read up to the first `-->` after `<!--`, and what stands between is its content. If
/// comments are checked, it is an error if `--` stands in the content or `-` at its end, and the
/// error is at the first `--`.
pub proof fn law_reads_comments(m: Model, head: Seq<u8>, content: Seq<u8>, rest: Seq<u8>)
    requires
        no_comment_end(content),
        reads(
            m,
            seq![LT, BANG, HYPHEN, HYPHEN] + content + seq![HYPHEN, HYPHEN, GT] + rest,
        ),
    ensures
        ({
            let step = next_step(m, head);
            let at = step.model.state.error_offset - m.state.position();
            let doc = m.unread();
            &&& if valid_comment(content) || !m.state.config.check_comments {
                step.result == Ok::<EventView, ErrorView>(
                    EventView::Comment(TextView { content, encoding: m.state.encoding.name() }),
                )
            } else {
                &&& step.result == Err::<EventView, ErrorView>(
                    ErrorView::IllFormed(IllFormedView::DoubleHyphenInComment),
                )
                &&& 4 <= at < content.len() + 4
                &&& doc[at] == HYPHEN && doc[at + 1] == HYPHEN
                &&& forall|j: int|
                    4 <= j < at ==> !(#[trigger] doc[j] == HYPHEN && doc[j + 1] == HYPHEN)
            }
            &&& step.model.state.opened == m.state.opened
            &&& goes_on(step.model, rest)
            &&& step.model.state.position() == m.state.position() + content.len() + 7
        }),
{
    let doc = seq![LT, BANG, HYPHEN, HYPHEN] + content + seq![HYPHEN, HYPHEN, GT] + rest;
    let bytes = comment_start() + content + seq![HYPHEN, HYPHEN];
    let s = bytes + seq![GT] + rest;
    let i = bytes.len() as int;
    assert(doc =~= seq![LT] + s);
    lemma_markup(m, head, s);
    lemma_usable(m, head);
    assert forall|j: int| 0 <= j < i implies !stops(Scan::Comment, s, j) by {
        if 5 <= j < content.len() + 3 {
            assert(s[j] == content[j - 3]);
            assert(s[j - 1] == content[j - 4]);
            assert(s[j - 2] == content[j - 5]);
        }
    }
    assert(s[i] == GT);
    assert(s[i - 1] == HYPHEN);
    assert(s[i - 2] == HYPHEN);
    lemma_stop_at(Scan::Comment, s, i);
    reveal(markup_step);
    assert(inside(m, s).goto(ParseState::InsideText) =~= inside(m, s));
    assert(s.take(i) =~= bytes);
    assert(s.skip(i + 1) =~= rest);
    assert(s[0] == BANG);
    assert(s[1] == HYPHEN);
    assert(bytes.take(3) =~= comment_start());
    assert(bytes.subrange(3, i - 2) =~= content);
    lemma_double_hyphen(bytes, 0);
    match double_hyphen_from(bytes, 0) {
        Some(p) => {
            assert(doc[p + 4] == bytes[p + 3]);
            assert(doc[p + 5] == bytes[p + 4]);
            assert(content[p] == bytes[p + 3]);
            assert(p + 1 < content.len() ==> content[p + 1] == bytes[p + 4]);
            assert forall|j: int| 4 <= j < p + 4 implies !(#[trigger] doc[j] == HYPHEN && doc[j + 1]
                == HYPHEN) by {
                let q = j - 4;
                assert(doc[j] == bytes[q + 3]);
                assert(doc[j + 1] == bytes[q + 4]);
            }
        },
        None => {
            assert forall|p: int|
                0 <= p < content.len() && #[trigger] content[p] == HYPHEN implies p + 1
                < content.len() && content[p + 1] != HYPHEN by {
                assert(bytes[p + 3] == content[p]);
                if p + 1 < content.len() {
                    assert(bytes[p + 4] == content[p + 1]);
                }
            }
        },
    }
}

/// Whether `]]>` is not in `s`.
pub open spec fn no_cdata_end(s: Seq<u8>) -> bool {
    forall|j: int|
        2 <= j < s.len() ==> !(#[trigger] s[j] == GT && s[j - 1] == CLOSE_BRACKET && s[j - 2]
            == CLOSE_BRACKET)
}

/// The bytes of `<![CDATA[`.
pub open spec fn cdata_open() -> Seq<u8> {
    seq![LT, BANG, OPEN_BRACKET, 0x43u8, 0x44u8, 0x41u8, 0x54u8, 0x41u8, OPEN_BRACKET]
}

/// A CDATA section is read up to the first `]]>` after `<![CDATA[`, and what stands between is its
/// content.
pub proof fn law_reads_cdata(m: Model, head: Seq<u8>, content: Seq<u8>, rest: Seq<u8>)
    requires
        no_cdata_end(content),
        reads(m, cdata_open() + content + seq![CLOSE_BRACKET, CLOSE_BRACKET, GT] + rest),
    ensures
        ({
            let step = next_step(m, head);
            &&& step.result == Ok::<EventView, ErrorView>(
                EventView::CData(TextView { content, encoding: m.state.encoding.name() }),
            )
            &&& step.model.state.opened == m.state.opened
            &&& goes_on(step.model, rest)
            &&& step.model.state.position() == m.state.position() + content.len() + 12
        }),
{
    let doc = cdata_open() + content + seq![CLOSE_BRACKET, CLOSE_BRACKET, GT] + rest;
    let bytes = cdata_start() + content + seq![CLOSE_BRACKET, CLOSE_BRACKET];
    let s = bytes + seq![GT] + rest;
    let i = bytes.len() as int;
    assert(doc =~= seq![LT] + s);
    lemma_markup(m, head, s);
    lemma_usable(m, head);
    assert forall|j: int| 0 <= j < i implies !stops(Scan::CData, s, j) by {
        if 8 <= j < content.len() + 8 {
            assert(s[j] == content[j - 8]);
            if j >= 10 {
                assert(s[j - 1] == content[j - 9]);
                assert(s[j - 2] == content[j - 10]);
            } else {
                assert(s[j - 2] == cdata_start()[j - 2]);
            }
        } else if j < 8 {
            assert(s[j] == cdata_start()[j]);
        }
    }
    assert(s[i] == GT);
    assert(s[i - 1] == CLOSE_BRACKET);
    assert(s[i - 2] == CLOSE_BRACKET);
    lemma_stop_at(Scan::CData, s, i);
    reveal(markup_step);
    assert(inside(m, s).goto(ParseState::InsideText) =~= inside(m, s));
    assert(s.take(i) =~= bytes);
    assert(s.skip(i + 1) =~= rest);
    assert(s[0] == BANG);
    assert(s[1] == OPEN_BRACKET);
    assert(bytes.take(8) =~= cdata_start());
    assert(bytes.subrange(8, i - 2) =~= content);
}

/// Whether the content of a processing instruction is that of an XML declaration: it is `xml`, or
/// starts with `xml` and white space.
pub open spec fn declares_xml(content: Seq<u8>) -> bool {
    &&& content.len() >= 3
    &&& content[0] == 0x78 && content[1] == 0x6D && content[2] == 0x6C
    &&& content.len() > 3 ==> whitespace(content[3])
}

/// Whether bytes can be the content of a processing instruction.
pub open spec fn valid_instruction(content: Seq<u8>) -> bool {
    no_instruction_end(content) && (content.len() > 0 ==> content[0] != GT)
}

proof fn lemma_declares_xml(content: Seq<u8>)
    ensures
        xml_declaration(content) == declares_xml(content),
{
    if content.len() >= 3 {
        let t = content.take(3);
        assert(t[0] == content[0] && t[1] == content[1] && t[2] == content[2]);
        if declares_xml(content) {
            assert(t =~= xml_name());
        }
        if t == xml_name() {
            assert(xml_name()[0] == 0x78 && xml_name()[1] == 0x6D && xml_name()[2] == 0x6C);
        }
    }
}

/// A processing instruction is read up to the first `?>` after `<?`, and what stands between is its
/// content, of which the target is the first word. If the target is `xml`, it is an XML
/// declaration.
pub proof fn law_reads_instructions(m: Model, head: Seq<u8>, content: Seq<u8>, rest: Seq<u8>)
    requires
        valid_instruction(content),
        reads(m, seq![LT, QUESTION] + content + seq![QUESTION, GT] + rest),
    ensures
        ({
            let step = next_step(m, head);
            &&& if declares_xml(content) {
                step.result == Ok::<EventView, ErrorView>(EventView::Decl(content))
            } else {
                &&& step.result matches Ok(EventView::PI(pi))
                &&& pi.content == content
                &&& is_first_word(content.take(pi.name_len as int), content)
                &&& pi.encoding == m.state.encoding.name()
                &&& step.model.state.encoding == m.state.encoding
            }
            &&& step.model.state.opened == m.state.opened
            &&& goes_on(step.model, rest)
            &&& step.model.state.position() == m.state.position() + content.len() + 4
        }),
{
    let doc = seq![LT, QUESTION] + content + seq![QUESTION, GT] + rest;
    let bytes = seq![QUESTION] + content + seq![QUESTION];
    let s = bytes + seq![GT] + rest;
    let i = bytes.len() as int;
    assert(doc =~= seq![LT] + s);
    lemma_markup(m, head, s);
    lemma_usable(m, head);
    lemma_instruction_ends(content, rest);
    reveal(markup_step);
    assert(inside(m, s).goto(ParseState::InsideText) =~= inside(m, s));
    assert(s.take(i) =~= bytes);
    assert(s.skip(i + 1) =~= rest);
    assert(s[0] == QUESTION);
    assert(bytes.last() == QUESTION);
    assert(bytes.subrange(1, i - 1) =~= content);
    lemma_declares_xml(content);
    lemma_words(content);
}

proof fn lemma_instruction_ends(content: Seq<u8>, rest: Seq<u8>)
    requires
        valid_instruction(content),
    ensures
        stop(
            Scan::Pi,
            seq![QUESTION] + content + seq![QUESTION] + seq![GT] + rest,
        ) == Some(content.len() as int + 2),
{
    let s = seq![QUESTION] + content + seq![QUESTION] + seq![GT] + rest;
    let i = content.len() as int + 2;
    assert forall|j: int| 0 <= j < i implies !stops(Scan::Pi, s, j) by {
        if 1 <= j < content.len() + 1 {
            assert(s[j] == content[j - 1]);
            if j >= 2 {
                assert(s[j - 1] == content[j - 2]);
            }
        }
    }
    assert(s[i] == GT);
    assert(s[i - 1] == QUESTION);
    lemma_stop_at(Scan::Pi, s, i);
}

/// The bytes of `xml` and attributes.
pub open spec fn declaration_bytes(attributes: Seq<Written>, tail: Seq<u8>) -> Seq<u8> {
    seq![0x78u8, 0x6Du8, 0x6Cu8] + attributes_bytes(attributes) + tail
}

/// The bytes of `encoding`.
pub open spec fn encoding_word() -> Seq<u8> {
    seq![0x65u8, 0x6Eu8, 0x63u8, 0x6Fu8, 0x64u8, 0x69u8, 0x6Eu8, 0x67u8]
}

/// An XML declaration sets the encoding to that which the value of its first attribute `encoding`
/// names, whatever attributes and white space come before and after it, if the encoding can be
/// refined and the named one is known. Otherwise the encoding stays.
pub proof fn law_declaration_sets_the_encoding(
    m: Model,
    head: Seq<u8>,
    attributes: Seq<Written>,
    tail: Seq<u8>,
    i: int,
    rest: Seq<u8>,
)
    requires
        all_valid(attributes),
        0 <= i < attributes.len(),
        attributes[0].space.len() > 0,
        attributes[i].key == encoding_word(),
        forall|j: int| 0 <= j < i ==> (#[trigger] attributes[j]).key != encoding_word(),
        valid_instruction(declaration_bytes(attributes, tail)),
        reads(
            m,
            seq![LT, QUESTION] + declaration_bytes(attributes, tail) + seq![QUESTION, GT] + rest,
        ),
    ensures
        ({
            let step = next_step(m, head);
            let label = attributes[i].value;
            &&& step.result == Ok::<EventView, ErrorView>(
                EventView::Decl(declaration_bytes(attributes, tail)),
            )
            &&& declared_encoding(declaration_bytes(attributes, tail)) == label_encoding(label)
            &&& step.model.state.encoding == match label_encoding(label) {
                Some(name) if m.state.encoding is Implicit || m.state.encoding is BomDetected =>
                EncodingView::XmlDetected(name),
                _ => m.state.encoding,
            }
        }),
{
    let content = declaration_bytes(attributes, tail);
    let others = attributes_bytes(attributes) + tail;
    assert(content.skip(3) =~= others);
    assert(attributes[0].valid());
    assert(content[3] == attributes[0].space[0]);
    assert(encoding_word() =~= encoding_key());
    law_attribute_is_found(attributes, tail, encoding_word(), i);
    law_reads_instructions(m, head, content, rest);
    law_encoding_is_refined(m, head);
}

/// An XML declaration without an attribute `encoding` leaves the encoding as it is.
pub proof fn law_declaration_keeps_the_encoding(
    m: Model,
    head: Seq<u8>,
    attributes: Seq<Written>,
    tail: Seq<u8>,
    rest: Seq<u8>,
)
    requires
        all_valid(attributes),
        all_space(tail),
        forall|j: int|
            0 <= j < attributes.len() ==> (#[trigger] attributes[j]).key != encoding_word(),
        valid_instruction(declaration_bytes(attributes, tail)),
        reads(
            m,
            seq![LT, QUESTION] + declaration_bytes(attributes, tail) + seq![QUESTION, GT] + rest,
        ),
    ensures
        declared_encoding(declaration_bytes(attributes, tail)) is None,
        next_step(m, head).model.state.encoding == m.state.encoding,
{
    let content = declaration_bytes(attributes, tail);
    assert(content.skip(3) =~= attributes_bytes(attributes) + tail);
    assert(encoding_word() =~= encoding_key());
    law_attribute_is_missing(attributes, tail, encoding_word());
    law_reads_instructions(m, head, content, rest);
    law_encoding_is_refined(m, head);
}

/// Whether `word` is `DOCTYPE` in upper, lower or mixed case.
pub open spec fn is_doctype_word(word: Seq<u8>) -> bool {
    let name = seq![0x44u8, 0x4Fu8, 0x43u8, 0x54u8, 0x59u8, 0x50u8, 0x45u8];
    &&& word.len() == 7
    &&& forall|i: int| 0 <= i < 7 ==> #[trigger] word[i] == name[i] || word[i] == name[i] + 0x20
}

/// What a document type declaration of the given bytes emits.
proof fn lemma_doctype(
    m: Model,
    head: Seq<u8>,
    word: Seq<u8>,
    space: Seq<u8>,
    content: Seq<u8>,
    rest: Seq<u8>,
)
    requires
        is_doctype_word(word),
        all_space(space),
        content.len() > 0 ==> !whitespace(content[0]),
        ({
            let bytes = seq![BANG] + word + space + content;
            &&& stop(Scan::DocType, bytes + seq![GT] + rest) == Some(bytes.len() as int)
            &&& reads(m, seq![LT] + bytes + seq![GT] + rest)
        }),
    ensures
        ({
            let step = next_step(m, head);
            let end = m.state.position() + word.len() + space.len() + content.len() + 3;
            &&& if content.len() > 0 {
                step.result == Ok::<EventView, ErrorView>(
                    EventView::DocType(TextView { content, encoding: m.state.encoding.name() }),
                )
            } else {
                &&& step.result == Err::<EventView, ErrorView>(
                    ErrorView::IllFormed(IllFormedView::MissingDoctypeName),
                )
                &&& step.model.state.error_offset == end - 1
            }
            &&& step.model.state.opened == m.state.opened
            &&& goes_on(step.model, rest)
            &&& step.model.state.position() == end
        }),
{
    let bytes = seq![BANG] + word + space + content;
    let s = bytes + seq![GT] + rest;
    let i = bytes.len() as int;
    assert(seq![LT] + bytes + seq![GT] + rest =~= seq![LT] + s);
    lemma_markup(m, head, s);
    lemma_usable(m, head);
    reveal(markup_step);
    assert(inside(m, s).goto(ParseState::InsideText) =~= inside(m, s));
    assert(s.take(i) =~= bytes);
    assert(s.skip(i + 1) =~= rest);
    assert(s[0] == BANG);
    assert(s[1] == word[0]);
    assert forall|j: int| 0 <= j < 8 implies upper(#[trigger] bytes[j]) == doctype_start()[j] by {
        if j > 0 {
            assert(bytes[j] == word[j - 1]);
        }
    }
    let after = bytes.skip(8);
    assert(after =~= space + content);
    assert forall|j: int| 0 <= j < space.len() implies whitespace(#[trigger] after[j]) by {
        assert(after[j] == space[j]);
    }
    lemma_leading_space(after, space.len() as int);
    assert(after.skip(space.len() as int) =~= content);
}

/// A document type declaration with an internal subset is one event up to the first `>` after the
/// subset, whatever declarations, comments and processing instructions the subset contains. Its
/// content is what follows `<!DOCTYPE` and white space.
pub proof fn law_reads_doctypes_with_subset(
    m: Model,
    head: Seq<u8>,
    word: Seq<u8>,
    space: Seq<u8>,
    before: Seq<u8>,
    items: Seq<SubsetItem>,
    after: Seq<u8>,
    rest: Seq<u8>,
)
    requires
        is_doctype_word(word),
        all_space(space),
        before.len() > 0 ==> !whitespace(before[0]),
        valid_before(seq![BANG] + word + space + before),
        valid_items(items),
        without(after, GT),
        reads(
            m,
            seq![LT, BANG] + word + space + subset_bytes(before, items, after) + seq![GT] + rest,
        ),
    ensures
        ({
            let content = subset_bytes(before, items, after);
            let step = next_step(m, head);
            &&& step.result == Ok::<EventView, ErrorView>(
                EventView::DocType(TextView { content, encoding: m.state.encoding.name() }),
            )
            &&& step.model.state.opened == m.state.opened
            &&& goes_on(step.model, rest)
            &&& step.model.state.position() == m.state.position() + word.len() + space.len()
                + content.len() + 3
        }),
{
    let content = subset_bytes(before, items, after);
    let start = seq![BANG] + word + space + before;
    let bytes = seq![BANG] + word + space + content;
    law_doctype_with_subset_ends(start, items, after, rest);
    assert(bytes =~= subset_bytes(start, items, after));
    assert(seq![LT, BANG] + word + space + content + seq![GT] + rest =~= seq![LT] + bytes + seq![GT]
        + rest);
    assert(content[0] == if before.len() > 0 {
        before[0]
    } else {
        OPEN_BRACKET
    });
    lemma_doctype(m, head, word, space, content, rest);
}

/// A document type declaration without an internal subset is one event up to its `>`. Its content
/// is what follows `<!DOCTYPE` and white space; if that is nothing, the name is missing, and the
/// error is where it is expected.
pub proof fn law_reads_doctypes(
    m: Model,
    head: Seq<u8>,
    word: Seq<u8>,
    space: Seq<u8>,
    content: Seq<u8>,
    rest: Seq<u8>,
)
    requires
        is_doctype_word(word),
        all_space(space),
        content.len() > 0 ==> !whitespace(content[0]),
        valid_before(seq![BANG] + word + space + content),
        reads(m, seq![LT, BANG] + word + space + content + seq![GT] + rest),
    ensures
        ({
            let step = next_step(m, head);
            let end = m.state.position() + word.len() + space.len() + content.len() + 3;
            &&& if content.len() > 0 {
                step.result == Ok::<EventView, ErrorView>(
                    EventView::DocType(TextView { content, encoding: m.state.encoding.name() }),
                )
            } else {
                &&& step.result == Err::<EventView, ErrorView>(
                    ErrorView::IllFormed(IllFormedView::MissingDoctypeName),
                )
                &&& step.model.state.error_offset == end - 1
            }
            &&& step.model.state.opened == m.state.opened
            &&& goes_on(step.model, rest)
            &&& step.model.state.position() == end
        }),
{
    let bytes = seq![BANG] + word + space + content;
    law_doctype_ends(bytes, rest);
    assert(seq![LT, BANG] + word + space + content + seq![GT] + rest =~= seq![LT] + bytes + seq![GT]
        + rest);
    lemma_doctype(m, head, word, space, content, rest);
}

/// Whether no byte of `s` ends a reference.
pub open spec fn in_reference(s: Seq<u8>) -> bool {
    without(s, SEMICOLON) && without(s, AMP) && without(s, LT)
}

/// A reference is what stands between `&` and the first `;` after it, if no `&` or `<` comes before
/// that.
pub proof fn law_reads_references(m: Model, head: Seq<u8>, name: Seq<u8>, rest: Seq<u8>)
    requires
        in_reference(name),
        reads(m, seq![AMP] + name + seq![SEMICOLON] + rest),
    ensures
        ({
            let step = next_step(m, head);
            &&& step.result == Ok::<EventView, ErrorView>(
                EventView::GeneralRef(
                    TextView { content: name, encoding: m.state.encoding.name() },
                ),
            )
            &&& step.model.state.opened == m.state.opened
            &&& goes_on(step.model, rest)
            &&& step.model.state.position() == m.state.position() + name.len() + 2
        }),
{
    let s = seq![AMP] + name + seq![SEMICOLON] + rest;
    let i = name.len() as int + 1;
    lemma_reference(m, head);
    lemma_usable(m, head);
    assert forall|j: int| 0 <= j < i implies !stops(Scan::Reference, s, j) by {
        if j > 0 {
            assert(s[j] == name[j - 1]);
        }
    }
    assert(s[i] == SEMICOLON);
    lemma_stop_at(Scan::Reference, s, i);
    reveal(ref_step);
    assert(s.subrange(1, i) =~= name);
    assert(s.skip(i + 1) =~= rest);
}

/// Whether text can end before `rest`.
pub open spec fn ends_text(m: Model, rest: Seq<u8>) -> bool {
    if rest.len() == 0 {
        m.input.fault is None
    } else {
        rest[0] == LT || rest[0] == AMP
    }
}

/// The white space at the end of a text is cut off where that is configured.
proof fn lemma_trimmed_text(st: StateView, core: Seq<u8>, trail: Seq<u8>)
    requires
        all_space(trail),
        core.len() > 0 ==> !whitespace(core.last()),
    ensures
        text(st, core + trail).content == if st.config.trim_text_end {
            core
        } else {
            core + trail
        },
{
    let s = core + trail;
    let n = core.len() as int;
    let t = trim_end(s);
    lemma_trim_end(s);
    if t.len() > n {
        assert(t.last() == s[t.len() - 1]);
        assert(s[t.len() - 1] == trail[t.len() - 1 - n]);
    } else if t.len() < n {
        assert(whitespace(s[n - 1]));
        assert(s[n - 1] == core.last());
    }
    assert(s.take(n) =~= core);
}

/// An `&` that no `;` follows before the next `&` or `<` is an error, or a part of the text up to
/// there if that is allowed. The error is at the `&`.
pub proof fn law_reads_dangling_ampersands(
    m: Model,
    head: Seq<u8>,
    core: Seq<u8>,
    trail: Seq<u8>,
    rest: Seq<u8>,
)
    requires
        in_reference(core),
        all_space(trail),
        core.len() > 0 ==> !whitespace(core.last()),
        ends_text(m, rest),
        reads(m, seq![AMP] + core + trail + rest),
    ensures
        ({
            let step = next_step(m, head);
            let next = step.model.state;
            &&& if m.state.config.allow_dangling_amp {
                step.result == Ok::<EventView, ErrorView>(
                    EventView::Text(
                        TextView {
                            content: if m.state.config.trim_text_end {
                                seq![AMP] + core
                            } else {
                                seq![AMP] + core + trail
                            },
                            encoding: m.state.encoding.name(),
                        },
                    ),
                )
            } else {
                &&& step.result == Err::<EventView, ErrorView>(
                    ErrorView::IllFormed(IllFormedView::UnclosedReference),
                )
                &&& next.error_offset == m.state.position()
            }
            &&& next.opened == m.state.opened
            &&& goes_on(step.model, rest)
            &&& next.position() == m.state.position() + core.len() + trail.len() + 1
        }),
{
    let bytes = seq![AMP] + core + trail;
    let s = bytes + rest;
    let i = bytes.len() as int;
    lemma_reference(m, head);
    lemma_usable(m, head);
    assert forall|j: int| 0 <= j < i implies !stops(Scan::Reference, s, j) by {
        if 0 < j < core.len() + 1 {
            assert(s[j] == core[j - 1]);
        } else if j > 0 {
            assert(s[j] == trail[j - 1 - core.len()]);
            assert(whitespace(trail[j - 1 - core.len()]));
        }
    }
    lemma_trimmed_text(m.state, seq![AMP] + core, trail);
    reveal(ref_step);
    assert(s.take(i) =~= bytes);
    if rest.len() == 0 {
        assert(s =~= bytes);
        lemma_stop_nowhere(Scan::Reference, s);
        assert(s.skip(i) =~= rest);
    } else {
        assert(s[i] == rest[0]);
        lemma_stop_at(Scan::Reference, s, i);
        assert(s.skip(i) =~= rest);
        assert(seq![LT] + s.skip(i + 1) =~= rest || rest[0] != LT);
    }
}

/// Text is what stands before the next `<` or `&` or the end of the document. White space at its
/// start and at its end is removed where that is configured, and nothing else is.
pub proof fn law_reads_text(
    m: Model,
    head: Seq<u8>,
    lead: Seq<u8>,
    core: Seq<u8>,
    trail: Seq<u8>,
    rest: Seq<u8>,
)
    requires
        all_space(lead),
        all_space(trail),
        core.len() > 0,
        without(core, LT),
        without(core, AMP),
        !whitespace(core[0]),
        !whitespace(core.last()),
        ends_text(m, rest),
        reads(m, lead + core + trail + rest),
    ensures
        ({
            let step = next_step(m, head);
            let kept_lead = if m.state.config.trim_text_start {
                Seq::empty()
            } else {
                lead
            };
            let kept_trail = if m.state.config.trim_text_end {
                Seq::empty()
            } else {
                trail
            };
            &&& step.result == Ok::<EventView, ErrorView>(
                EventView::Text(
                    TextView {
                        content: kept_lead + core + kept_trail,
                        encoding: m.state.encoding.name(),
                    },
                ),
            )
            &&& step.model.state.opened == m.state.opened
            &&& goes_on(step.model, rest)
            &&& step.model.state.position() == m.state.position() + lead.len() + core.len()
                + trail.len()
        }),
{
    let doc = lead + core + trail + rest;
    lemma_inside_text(m, lead + core + trail, rest);
    lemma_usable(m, head);
    lemma_next_cases(m, head);
    let k = lead.len() as int;
    assert forall|j: int| 0 <= j < k implies whitespace(#[trigger] doc[j]) by {
        assert(doc[j] == lead[j]);
    }
    assert(doc[k] == core[0]);
    lemma_leading_space(doc, k);
    let n = trimmed(m);
    let start = m.advance(n);
    let kept = if m.state.config.trim_text_start {
        Seq::empty()
    } else {
        lead
    };
    let bytes = kept + core + trail;
    assert(doc.skip(0) =~= doc);
    assert(start.input.bytes =~= bytes + rest);
    assert((kept + core).last() == core.last());
    assert(bytes =~= (kept + core) + trail);
    lemma_trimmed_text(start.state, kept + core, trail);
    lemma_plain_text(start, bytes, rest);
    assert(kept + core + Seq::<u8>::empty() =~= kept + core);
}

/// A reader that is not at `<` or `&` is inside of text.
proof fn lemma_inside_text(m: Model, bytes: Seq<u8>, rest: Seq<u8>)
    requires
        bytes.len() > 0,
        bytes[0] != LT,
        bytes[0] != AMP,
        reads(m, bytes + rest),
    ensures
        m.state.state == ParseState::InsideText,
        m.input.bytes == bytes + rest,
{
    assert((bytes + rest)[0] == bytes[0]);
    if m.state.state == ParseState::InsideMarkup {
        assert(m.unread()[0] == LT);
    }
}

/// What is read of text that is not empty after trimming its end.
proof fn lemma_plain_text(m: Model, bytes: Seq<u8>, rest: Seq<u8>)
    requires
        m.input.bytes == bytes + rest,
        without(bytes, LT),
        without(bytes, AMP),
        ends_text(m, rest),
        m.state.state == ParseState::InsideText,
        text(m.state, bytes).content.len() > 0,
    ensures
        ({
            let step = settle(text_step(m));
            &&& step.result == Ok::<EventView, ErrorView>(EventView::Text(text(m.state, bytes)))
            &&& step.model.state.opened == m.state.opened
            &&& step.model.unread() == rest
            &&& step.model.state.state == if rest.len() == 0 {
                ParseState::Done
            } else if rest[0] == LT {
                ParseState::InsideMarkup
            } else {
                ParseState::InsideRef
            }
            &&& step.model.state.position() == m.state.offset + bytes.len()
        }),
{
    let s = m.input.bytes;
    let i = bytes.len() as int;
    assert forall|j: int| 0 <= j < i implies !stops(Scan::Text, s, j) by {
        assert(s[j] == bytes[j]);
    }
    reveal(text_step);
    assert(s.take(i) =~= bytes);
    assert(s.skip(i) =~= rest);
    if rest.len() == 0 {
        assert(s =~= bytes);
        lemma_stop_nowhere(Scan::Text, s);
    } else {
        assert(s[i] == rest[0]);
        lemma_stop_at(Scan::Text, s, i);
        assert(seq![LT] + s.skip(i + 1) =~= rest || rest[0] != LT);
    }
}

/// White space without anything else before the next `<` or `&` is a text as it stands, unless
/// white space around text is removed on one of its sides: then there is no text, and what comes
/// next is read at once.
pub proof fn law_reads_blank_text(m: Model, head: Seq<u8>, space: Seq<u8>, rest: Seq<u8>)
    requires
        all_space(space),
        space.len() > 0,
        rest.len() > 0,
        ends_text(m, rest),
        reads(m, space + rest),
    ensures
        ({
            let step = next_step(m, head);
            let next = next_step(m.advance(space.len() as int), head);
            let removed = m.state.config.trim_text_start || m.state.config.trim_text_end;
            &&& reads(m.advance(space.len() as int), rest)
            &&& removed ==> step.result == next.result && step.model == next.model
            &&& !removed ==> {
                &&& step.result == Ok::<EventView, ErrorView>(
                    EventView::Text(
                        TextView { content: space, encoding: m.state.encoding.name() },
                    ),
                )
                &&& goes_on(step.model, rest)
            }
        }),
{
    let doc = space + rest;
    let k = space.len() as int;
    assert(whitespace(space[0]));
    lemma_inside_text(m, space, rest);
    lemma_usable(m, head);
    let after = m.advance(k);
    lemma_next_cases(m, head);
    lemma_next_cases(after, head);
    assert(doc.skip(k) =~= rest);
    lemma_skipped_input(m.input, k);
    assert(after.wf());
    lemma_leading_space(rest, 0);
    assert(rest.skip(0) =~= rest);
    assert(after.advance(0) =~= after);
    if m.state.config.trim_text_start {
        assert forall|j: int| 0 <= j < k implies whitespace(#[trigger] doc[j]) by {
            assert(doc[j] == space[j]);
        }
        assert(doc[k] == rest[0]);
        lemma_leading_space(doc, k);
    } else {
        assert(doc.skip(0) =~= doc);
        assert(m.advance(0) =~= m);
        if m.state.config.trim_text_end {
            lemma_blank(m, space, rest);
        } else {
            assert forall|j: int| 0 <= j < k implies #[trigger] space[j] != LT && space[j]
                != AMP by {
                assert(whitespace(space[j]));
            }
            lemma_plain_text(m, space, rest);
        }
    }
}

/// A text that is empty after trimming its end is passed over.
proof fn lemma_blank(m: Model, space: Seq<u8>, rest: Seq<u8>)
    requires
        m.input.bytes == space + rest,
        all_space(space),
        rest.len() > 0,
        rest[0] == LT || rest[0] == AMP,
        m.state.config.trim_text_end,
    ensures
        ({
            let x = text_step(m);
            let y = text_step(m.advance(space.len() as int));
            x.result == y.result && x.model == y.model
        }),
{
    let doc = space + rest;
    let k = space.len() as int;
    let after = m.advance(k);
    assert forall|j: int| 0 <= j < k implies !stops(Scan::Text, doc, j) by {
        assert(doc[j] == space[j]);
        assert(whitespace(space[j]));
    }
    assert(doc[k] == rest[0]);
    lemma_stop_at(Scan::Text, doc, k);
    assert(doc.skip(k) =~= rest);
    lemma_stop_at(Scan::Text, rest, 0);
    assert(doc.take(k) =~= space);
    assert(Seq::<u8>::empty() + space =~= space);
    lemma_trimmed_text(m.state, Seq::empty(), space);
    lemma_trim_end(rest.take(0));
    assert(after.advance(0) =~= after) by {
        assert(rest.skip(0) =~= rest);
    }
    assert(after.advance(1) =~= m.advance(k + 1)) by {
        assert(rest.skip(1) =~= doc.skip(k + 1));
    }
    reveal(text_step);
}

/// The end of the document, and white space before it that is removed, is the end event.
pub proof fn law_reads_the_end(m: Model, head: Seq<u8>, space: Seq<u8>)
    requires
        all_space(space),
        space.len() > 0 ==> m.state.config.trim_text_start || m.state.config.trim_text_end,
        m.input.fault is None,
        m.state.state == ParseState::InsideText,
        reads(m, space),
    ensures
        next_step(m, head).result == Ok::<EventView, ErrorView>(EventView::Eof),
        next_step(m, head).model.state.state == ParseState::Done,
{
    let k = space.len() as int;
    lemma_next_cases(m, head);
    lemma_leading_space(space, k);
    let start = m.advance(trimmed(m));
    let s = start.input.bytes;
    assert forall|j: int| 0 <= j < s.len() implies whitespace(#[trigger] s[j]) by {
        assert(s[j] == space[j + trimmed(m)]);
    }
    assert forall|j: int| 0 <= j < s.len() implies !stops(Scan::Text, s, j) by {
        assert(whitespace(s[j]));
    }
    lemma_stop_nowhere(Scan::Text, s);
    assert(Seq::<u8>::empty() + s =~= s);
    lemma_trimmed_text(start.state, Seq::empty(), s);
    reveal(text_step);
}

/// Whether a reader stops with the error, which is at the position that it was at.
pub open spec fn fails_here(m: Model, head: Seq<u8>, error: SyntaxError) -> bool {
    let step = next_step(m, head);
    &&& step.result == Err::<EventView, ErrorView>(ErrorView::Syntax(error))
    &&& step.model.state.error_offset == m.state.position()
    &&& step.model.state.state == ParseState::Done
}

/// Whether a reader stops because its source failed. What lies ahead is what the source gives after
/// that.
pub open spec fn breaks_off(m: Model, head: Seq<u8>) -> bool {
    let step = next_step(m, head);
    &&& m.input.fault matches Some(fault)
    &&& step.result == Err::<EventView, ErrorView>(ErrorView::Io(fault.error))
    &&& step.model.input == input_ahead(fault.rest, m.input.retains)
    &&& step.model.state.state == ParseState::Done
}

/// Whether a reader stops in markup that goes on to where the document ends or its source fails.
/// The error is at the position that it was at.
pub open spec fn stops_here(m: Model, head: Seq<u8>, error: SyntaxError) -> bool {
    if m.input.fault is None {
        fails_here(m, head, error)
    } else {
        breaks_off(m, head) && next_step(m, head).model.state.error_offset == m.state.position()
    }
}

/// If the source fails after `<`, in text or in a reference, that is the result, and nothing of the
/// text is returned.
pub proof fn law_failures_in_text(m: Model, head: Seq<u8>, bytes: Seq<u8>)
    requires
        m.input.fault is Some,
        reads(m, bytes),
        bytes.len() > 0,
        bytes == seq![LT] || without(bytes, LT) && without(bytes, AMP) || bytes[0] == AMP
            && in_reference(bytes.skip(1)),
    ensures
        breaks_off(m, head),
        next_step(m, head).model.state.error_offset == m.state.error_offset,
{
    lemma_next_cases(m, head);
    if bytes == seq![LT] {
        assert(bytes =~= seq![LT] + Seq::<u8>::empty());
        lemma_markup(m, head, Seq::empty());
        reveal(markup_step);
    } else if bytes[0] == AMP {
        lemma_reference(m, head);
        assert forall|j: int| 0 <= j < bytes.len() implies !stops(Scan::Reference, bytes, j) by {
            if j > 0 {
                assert(bytes[j] == bytes.skip(1)[j - 1]);
            }
        }
        lemma_stop_nowhere(Scan::Reference, bytes);
        reveal(ref_step);
    } else {
        assert(bytes + Seq::<u8>::empty() =~= bytes);
        assert(bytes[0] != LT && bytes[0] != AMP);
        lemma_inside_text(m, bytes, Seq::empty());
        lemma_spaces(bytes);
        let s = bytes.skip(trimmed(m));
        assert forall|j: int| 0 <= j < s.len() implies !stops(Scan::Text, s, j) by {
            assert(s[j] == bytes[j + trimmed(m)]);
        }
        lemma_stop_nowhere(Scan::Text, s);
        reveal(text_step);
    }
}

/// The bytes with which a start tag or an end tag starts.
pub open spec fn tag_open_bytes(end: bool) -> Seq<u8> {
    if end {
        seq![LT, SLASH]
    } else {
        seq![LT]
    }
}

/// What a tag that does not end fails with.
proof fn lemma_unclosed_tag(m: Model, head: Seq<u8>, end: bool, bytes: Seq<u8>)
    requires
        !end ==> is_start(bytes),
        stop(Scan::Tag, bytes) is None,
        bytes.len() == 0 ==> unclosed_tag(bytes) == SyntaxError::UnclosedTag,
        end || bytes.len() > 0 || m.input.fault is None,
        reads(m, tag_open_bytes(end) + bytes),
    ensures
        stops_here(m, head, unclosed_tag(bytes)),
{
    let s = if end {
        seq![SLASH] + bytes
    } else {
        bytes
    };
    assert(tag_open_bytes(end) + bytes =~= seq![LT] + s);
    lemma_markup(m, head, s);
    lemma_usable(m, head);
    reveal(markup_step);
    assert(inside(m, s).goto(ParseState::InsideText) =~= inside(m, s));
    if end {
        assert(s.skip(1) =~= bytes);
    }
}

/// Reading stops where the document ends in a tag, outside of quoted values, or its source fails
/// there.
pub proof fn law_unclosed_tags(m: Model, head: Seq<u8>, end: bool, parts: Seq<TagPart>)
    requires
        valid_parts(parts),
        !end ==> is_start(parts_bytes(parts)),
        end || parts_bytes(parts).len() > 0 || m.input.fault is None,
        reads(m, tag_open_bytes(end) + parts_bytes(parts)),
    ensures
        stops_here(m, head, SyntaxError::UnclosedTag),
{
    law_tag_is_unclosed(parts);
    lemma_unclosed_tag(m, head, end, parts_bytes(parts));
}

/// Reading stops where the document ends in a quoted value of a tag, with the error for that kind
/// of quotes, or its source fails there.
pub proof fn law_unclosed_values(
    m: Model,
    head: Seq<u8>,
    end: bool,
    parts: Seq<TagPart>,
    quote: u8,
    value: Seq<u8>,
)
    requires
        valid_parts(parts),
        TagPart::Value(quote, value).valid(),
        !end ==> is_start(parts_bytes(parts)),
        reads(m, tag_open_bytes(end) + (parts_bytes(parts) + seq![quote] + value)),
    ensures
        stops_here(
            m,
            head,
            if quote == 0x22 {
                SyntaxError::UnclosedDoubleQuotedAttributeValue
            } else {
                SyntaxError::UnclosedSingleQuotedAttributeValue
            },
        ),
{
    let bytes = parts_bytes(parts) + seq![quote] + value;
    law_value_is_unclosed(parts, quote, value);
    assert(bytes[0] == if parts_bytes(parts).len() > 0 {
        parts_bytes(parts)[0]
    } else {
        quote
    });
    lemma_unclosed_tag(m, head, end, bytes);
}

/// What a document that ends in markup that starts with `<!` fails with.
proof fn lemma_unclosed_bang(m: Model, head: Seq<u8>, kind: Scan, s: Seq<u8>)
    requires
        s.len() > 1,
        s[0] == BANG,
        bang_kind(s[1]) == Some(kind),
        stop(kind, s) is None,
        reads(m, seq![LT] + s),
    ensures
        stops_here(m, head, unclosed_bang(kind)),
{
    lemma_markup(m, head, s);
    lemma_usable(m, head);
    reveal(markup_step);
    assert(inside(m, s).goto(ParseState::InsideText) =~= inside(m, s));
}

/// Reading stops where the document ends in a comment or its source fails there.
pub proof fn law_unclosed_comments(m: Model, head: Seq<u8>, content: Seq<u8>)
    requires
        no_comment_end(content),
        reads(m, seq![LT, BANG, HYPHEN, HYPHEN] + content),
    ensures
        stops_here(m, head, SyntaxError::UnclosedComment),
{
    let s = comment_start() + content;
    assert(seq![LT, BANG, HYPHEN, HYPHEN] + content =~= seq![LT] + s);
    assert forall|j: int| 0 <= j < s.len() implies !stops(Scan::Comment, s, j) by {
        if j >= 5 {
            assert(s[j] == content[j - 3]);
            assert(s[j - 1] == content[j - 4]);
            assert(s[j - 2] == content[j - 5]);
        }
    }
    lemma_stop_nowhere(Scan::Comment, s);
    lemma_unclosed_bang(m, head, Scan::Comment, s);
}

/// Reading stops where the document ends in a CDATA section or its source fails there.
pub proof fn law_unclosed_cdata(m: Model, head: Seq<u8>, content: Seq<u8>)
    requires
        no_cdata_end(content),
        reads(m, cdata_open() + content),
    ensures
        stops_here(m, head, SyntaxError::UnclosedCData),
{
    let s = cdata_start() + content;
    assert(cdata_open() + content =~= seq![LT] + s);
    assert forall|j: int| 0 <= j < s.len() implies !stops(Scan::CData, s, j) by {
        if j >= 8 {
            assert(s[j] == content[j - 8]);
            if j >= 10 {
                assert(s[j - 1] == content[j - 9]);
                assert(s[j - 2] == content[j - 10]);
            } else {
                assert(s[j - 2] == cdata_start()[j - 2]);
            }
        } else {
            assert(s[j] == cdata_start()[j]);
        }
    }
    lemma_stop_nowhere(Scan::CData, s);
    lemma_unclosed_bang(m, head, Scan::CData, s);
}

/// Reading stops where the document ends in a processing instruction, with the error for an XML
/// declaration if it is one, or its source fails there.
pub proof fn law_unclosed_instructions(m: Model, head: Seq<u8>, content: Seq<u8>)
    requires
        valid_instruction(content),
        reads(m, seq![LT, QUESTION] + content),
    ensures
        stops_here(
            m,
            head,
            if declares_xml(content) {
                SyntaxError::UnclosedXmlDecl
            } else {
                SyntaxError::UnclosedPI
            },
        ),
{
    let s = seq![QUESTION] + content;
    assert(seq![LT, QUESTION] + content =~= seq![LT] + s);
    assert forall|j: int| 0 <= j < s.len() implies !stops(Scan::Pi, s, j) by {
        if j >= 1 {
            assert(s[j] == content[j - 1]);
            if j >= 2 {
                assert(s[j - 1] == content[j - 2]);
            }
        }
    }
    lemma_stop_nowhere(Scan::Pi, s);
    lemma_declares_xml(content);
    assert(s.skip(1) =~= content);
    lemma_markup(m, head, s);
    lemma_usable(m, head);
    reveal(markup_step);
    assert(inside(m, s).goto(ParseState::InsideText) =~= inside(m, s));
}

/// Reading stops where the document ends in a document type declaration, be it before, in or after
/// its internal subset, or its source fails there.
pub proof fn law_unclosed_doctypes(
    m: Model,
    head: Seq<u8>,
    before: Seq<u8>,
    items: Seq<SubsetItem>,
    after: Seq<u8>,
)
    requires
        valid_before(before),
        valid_items(items),
        without(after, GT),
        before.len() > 1,
        before[0] == BANG,
        before[1] == 0x44 || before[1] == 0x64,
        reads(m, seq![LT] + before) || reads(
            m,
            seq![LT] + (before + seq![OPEN_BRACKET] + items_bytes(items)),
        ) || reads(m, seq![LT] + subset_bytes(before, items, after)),
    ensures
        stops_here(m, head, SyntaxError::UnclosedDoctype),
{
    law_doctype_is_unclosed(before, items, after);
    let inner = before + seq![OPEN_BRACKET] + items_bytes(items);
    let outer = subset_bytes(before, items, after);
    assert(inner[0] == before[0] && inner[1] == before[1]);
    assert(outer[0] == before[0] && outer[1] == before[1]);
    if reads(m, seq![LT] + before) {
        lemma_unclosed_bang(m, head, Scan::DocType, before);
    } else if reads(m, seq![LT] + inner) {
        lemma_unclosed_bang(m, head, Scan::DocType, inner);
    } else {
        lemma_unclosed_bang(m, head, Scan::DocType, outer);
    }
}

/// What markup that starts with `<!` and ends, but is not what it starts like, fails with.
proof fn lemma_malformed_bang(m: Model, head: Seq<u8>, kind: Scan, bytes: Seq<u8>, rest: Seq<u8>)
    requires
        bytes.len() > 1,
        bytes[0] == BANG,
        bang_kind(bytes[1]) == Some(kind),
        stop(kind, bytes + seq![GT] + rest) == Some(bytes.len() as int),
        reads(m, seq![LT] + bytes + seq![GT] + rest),
        kind == Scan::Comment ==> !has_prefix(bytes, comment_start()),
        kind == Scan::CData ==> !has_prefix(bytes, cdata_start()),
        kind == Scan::DocType ==> !starts_doctype(bytes),
    ensures
        fails_here(m, head, unclosed_bang(kind)),
{
    let s = bytes + seq![GT] + rest;
    assert(seq![LT] + bytes + seq![GT] + rest =~= seq![LT] + s);
    lemma_markup(m, head, s);
    reveal(markup_step);
    assert(inside(m, s).goto(ParseState::InsideText) =~= inside(m, s));
    assert(s.take(bytes.len() as int) =~= bytes);
}

/// Markup that starts with `<!-`, but not with `<!--`, is an error, also if `-->` follows.
pub proof fn law_malformed_comments(m: Model, head: Seq<u8>, content: Seq<u8>, rest: Seq<u8>)
    requires
        content.len() > 0,
        content[0] != HYPHEN,
        no_comment_end(content),
        reads(m, seq![LT, BANG, HYPHEN] + content + seq![HYPHEN, HYPHEN, GT] + rest),
    ensures
        fails_here(m, head, SyntaxError::UnclosedComment),
{
    let bytes = seq![BANG, HYPHEN] + content + seq![HYPHEN, HYPHEN];
    let s = bytes + seq![GT] + rest;
    let i = bytes.len() as int;
    assert(seq![LT, BANG, HYPHEN] + content + seq![HYPHEN, HYPHEN, GT] + rest =~= seq![LT] + bytes
        + seq![GT] + rest);
    assert forall|j: int| 0 <= j < i implies !stops(Scan::Comment, s, j) by {
        if 5 <= j < content.len() + 2 {
            assert(s[j] == content[j - 2]);
            assert(s[j - 1] == content[j - 3]);
            assert(s[j - 2] == content[j - 4]);
        }
    }
    assert(s[i] == GT);
    assert(s[i - 1] == HYPHEN);
    assert(s[i - 2] == HYPHEN);
    lemma_stop_at(Scan::Comment, s, i);
    assert(bytes.take(3)[2] == content[0]);
    assert(comment_start()[2] == HYPHEN);
    lemma_malformed_bang(m, head, Scan::Comment, bytes, rest);
}

/// Markup that starts with `<![`, but not with `<![CDATA[`, is an error, also if `]]>` follows.
pub proof fn law_malformed_cdata(m: Model, head: Seq<u8>, content: Seq<u8>, rest: Seq<u8>)
    requires
        no_cdata_end(content),
        content.len() > 0 ==> content[0] != CLOSE_BRACKET,
        !has_prefix(
            content + seq![CLOSE_BRACKET, CLOSE_BRACKET],
            seq![0x43u8, 0x44u8, 0x41u8, 0x54u8, 0x41u8, OPEN_BRACKET],
        ),
        reads(
            m,
            seq![LT, BANG, OPEN_BRACKET] + content + seq![CLOSE_BRACKET, CLOSE_BRACKET, GT] + rest,
        ),
    ensures
        fails_here(m, head, SyntaxError::UnclosedCData),
{
    let body = content + seq![CLOSE_BRACKET, CLOSE_BRACKET];
    let bytes = seq![BANG, OPEN_BRACKET] + body;
    let s = bytes + seq![GT] + rest;
    let i = bytes.len() as int;
    assert(seq![LT, BANG, OPEN_BRACKET] + content + seq![CLOSE_BRACKET, CLOSE_BRACKET, GT] + rest
        =~= seq![LT] + bytes + seq![GT] + rest);
    assert forall|j: int| 0 <= j < i implies !stops(Scan::CData, s, j) by {
        if 2 <= j < content.len() + 2 {
            assert(s[j] == content[j - 2]);
            if j >= 4 {
                assert(s[j - 1] == content[j - 3]);
                assert(s[j - 2] == content[j - 4]);
            }
        }
    }
    assert(s[i] == GT);
    assert(s[i - 1] == CLOSE_BRACKET);
    assert(s[i - 2] == CLOSE_BRACKET);
    lemma_stop_at(Scan::CData, s, i);
    if has_prefix(bytes, cdata_start()) {
        let word = seq![0x43u8, 0x44u8, 0x41u8, 0x54u8, 0x41u8, OPEN_BRACKET];
        assert forall|j: int| 0 <= j < 6 implies #[trigger] body[j] == word[j] by {
            assert(bytes.take(8)[j + 2] == body[j]);
            assert(cdata_start()[j + 2] == word[j]);
        }
        assert(body.take(6) =~= word);
    }
    lemma_malformed_bang(m, head, Scan::CData, bytes, rest);
}

/// Markup that starts with `<!D` or `<!d`, but not with `<!DOCTYPE` in upper, lower or mixed case,
/// is an error, also if `>` follows.
pub proof fn law_malformed_doctypes(m: Model, head: Seq<u8>, content: Seq<u8>, rest: Seq<u8>)
    requires
        content.len() > 0,
        content[0] == 0x44 || content[0] == 0x64,
        content.len() < 7 || !is_doctype_word(content.take(7)),
        valid_before(seq![BANG] + content),
        reads(m, seq![LT, BANG] + content + seq![GT] + rest),
    ensures
        fails_here(m, head, SyntaxError::UnclosedDoctype),
{
    let bytes = seq![BANG] + content;
    assert(seq![LT, BANG] + content + seq![GT] + rest =~= seq![LT] + bytes + seq![GT] + rest);
    law_doctype_ends(bytes, rest);
    if starts_doctype(bytes) {
        let word = content.take(7);
        let name = seq![0x44u8, 0x4Fu8, 0x43u8, 0x54u8, 0x59u8, 0x50u8, 0x45u8];
        assert forall|j: int| 0 <= j < 7 implies #[trigger] word[j] == name[j] || word[j] == name[j]
            + 0x20 by {
            assert(bytes[j + 1] == word[j]);
            assert(upper(bytes[j + 1]) == doctype_start()[j + 1]);
            assert(doctype_start()[j + 1] == name[j]);
        }
    }
    lemma_malformed_bang(m, head, Scan::DocType, bytes, rest);
}

/// Markup that starts with `<!` is a comment, a CDATA section or a document type declaration by the
/// byte after `<!`. Any other byte there, or the end of the document, is an error.
pub proof fn law_invalid_bangs(m: Model, head: Seq<u8>, rest: Seq<u8>)
    requires
        rest.len() > 0 ==> rest[0] != OPEN_BRACKET && rest[0] != HYPHEN && rest[0] != 0x44
            && rest[0] != 0x64,
        rest.len() == 0 ==> m.input.fault is None,
        reads(m, seq![LT, BANG] + rest),
    ensures
        fails_here(m, head, SyntaxError::InvalidBangMarkup),
{
    let s = seq![BANG] + rest;
    assert(seq![LT, BANG] + rest =~= seq![LT] + s);
    assert(rest.len() > 0 ==> s[1] == rest[0]);
    lemma_markup(m, head, s);
    lemma_usable(m, head);
    reveal(markup_step);
    assert(inside(m, s).goto(ParseState::InsideText) =~= inside(m, s));
}

/// Names in errors are decoded as text is; a name that cannot be decoded is empty.
pub proof fn law_names_in_errors(encoding: Seq<char>, name: Seq<u8>)
    ensures
        match decoding(encoding, name) {
            Some(text) => decoded_or_empty(encoding, name) == text,
            None => decoded_or_empty(encoding, name).len() == 0,
        },
{
}

/// White space is the space, the tab, the line feed and the carriage return.
pub proof fn law_white_space(b: u8)
    ensures
        whitespace(b) <==> b == 32 || b == 9 || b == 10 || b == 13,
{
}

/// The first bytes of a document that show its encoding.
pub enum Mark {
    /// The byte order mark of UTF-8.
    Utf8,
    /// The byte order mark of big endian UTF-16.
    Utf16Be,
    /// The byte order mark of little endian UTF-16.
    Utf16Le,
    /// `<?` in big endian UTF-16.
    Utf16BeDeclaration,
    /// `<?` in little endian UTF-16.
    Utf16LeDeclaration,
    /// `<?xm`.
    Utf8Declaration,
}

impl Mark {
    /// The bytes.
    pub open spec fn bytes(self) -> Seq<u8> {
        match self {
            Mark::Utf8 => seq![0xEFu8, 0xBBu8, 0xBFu8],
            Mark::Utf16Be => seq![0xFEu8, 0xFFu8],
            Mark::Utf16Le => seq![0xFFu8, 0xFEu8],
            Mark::Utf16BeDeclaration => seq![0x00u8, 0x3Cu8, 0x00u8, 0x3Fu8],
            Mark::Utf16LeDeclaration => seq![0x3Cu8, 0x00u8, 0x3Fu8, 0x00u8],
            Mark::Utf8Declaration => seq![0x3Cu8, 0x3Fu8, 0x78u8, 0x6Du8],
        }
    }

    /// The name of the encoding.
    pub open spec fn encoding(self) -> Seq<char> {
        match self {
            Mark::Utf8 | Mark::Utf8Declaration => "UTF-8"@,
            Mark::Utf16Be | Mark::Utf16BeDeclaration => "UTF-16BE"@,
            Mark::Utf16Le | Mark::Utf16LeDeclaration => "UTF-16LE"@,
        }
    }

    /// The number of bytes that do not belong to the text of the document.
    pub open spec fn removed(self) -> int {
        match self {
            Mark::Utf8 => 3,
            Mark::Utf16Be | Mark::Utf16Le => 2,
            _ => 0,
        }
    }
}

/// The reader after it began to read the document: it consumed the first `n` bytes and reads in the
/// given encoding.
pub open spec fn begun_after(m: Model, n: int, encoding: EncodingView) -> Model {
    let next = m.advance(n);
    Model { state: StateView { state: ParseState::InsideText, encoding, ..next.state }, ..next }
}

proof fn lemma_marked(mark: Mark, rest: Seq<u8>)
    ensures
        bom_encoding(mark.bytes() + rest) == Some((mark.encoding(), mark.removed() as nat)),
        has_prefix(mark.bytes() + rest, utf8_bom()) == (mark is Utf8),
{
    let s = mark.bytes() + rest;
    let n = mark.bytes().len() as int;
    assert(s.take(n) =~= mark.bytes());
    assert(s[0] == mark.bytes()[0]);
    assert(s[1] == mark.bytes()[1]);
    assert forall|p: Seq<u8>| #[trigger] has_prefix(s, p) && p.len() >= 2 implies s[0] == p[0]
        && s[1] == p[1] by {
        assert(s.take(p.len() as int)[0] == p[0]);
        assert(s.take(p.len() as int)[1] == p[1]);
    }
}

/// A reader that detects encodings begins with a document that shows its encoding by removing the
/// byte order mark, if there is one, and taking the encoding that the first bytes show, if its own
/// can be refined. One that does not only removes a byte order mark of UTF-8.
pub proof fn law_start_of_a_document(m: Model, mark: Mark, rest: Seq<u8>)
    requires
        m.state.state == ParseState::Init,
    ensures
        ({
            let head = mark.bytes() + rest;
            let refinable = m.state.encoding is Implicit || m.state.encoding is BomDetected;
            next_step(m, head) == next_step(
                if m.state.detect {
                    begun_after(
                        m,
                        mark.removed(),
                        if refinable {
                            EncodingView::BomDetected(mark.encoding())
                        } else {
                            m.state.encoding
                        },
                    )
                } else {
                    begun_after(
                        m,
                        if mark is Utf8 {
                            3
                        } else {
                            0
                        },
                        m.state.encoding,
                    )
                },
                head,
            )
        }),
{
    let head = mark.bytes() + rest;
    let refinable = m.state.encoding is Implicit || m.state.encoding is BomDetected;
    let next = if m.state.detect {
        begun_after(
            m,
            mark.removed(),
            if refinable {
                EncodingView::BomDetected(mark.encoding())
            } else {
                m.state.encoding
            },
        )
    } else {
        begun_after(
            m,
            if mark is Utf8 {
                3
            } else {
                0
            },
            m.state.encoding,
        )
    };
    lemma_marked(mark, rest);
    lemma_next_cases(m, head);
    lemma_next_cases(next, head);
    assert(after_bom(m, head) =~= next);
}

/// A reader begins with a document whose first bytes show no encoding as it stands.
pub proof fn law_plain_start_of_a_document(m: Model, head: Seq<u8>)
    requires
        m.state.state == ParseState::Init,
        forall|mark: Mark| !has_prefix(head, #[trigger] mark.bytes()),
    ensures
        next_step(m, head) == next_step(begun_after(m, 0, m.state.encoding), head),
{
    assert(!has_prefix(head, Mark::Utf8.bytes()));
    assert(!has_prefix(head, Mark::Utf16Be.bytes()));
    assert(!has_prefix(head, Mark::Utf16Le.bytes()));
    assert(!has_prefix(head, Mark::Utf16BeDeclaration.bytes()));
    assert(!has_prefix(head, Mark::Utf16LeDeclaration.bytes()));
    assert(!has_prefix(head, Mark::Utf8Declaration.bytes()));
    let next = begun_after(m, 0, m.state.encoding);
    lemma_next_cases(m, head);
    lemma_next_cases(next, head);
    assert(after_bom(m, head) =~= next);
}

} // verus!
