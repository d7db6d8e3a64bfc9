//! How tags and document type declarations are written, and where they end.

use vstd::prelude::*;

use crate::bytes::{
    BANG, CLOSE_BRACKET, DOUBLE_QUOTE, GT, HYPHEN, LT, OPEN_BRACKET, QUESTION, SINGLE_QUOTE,
};
use crate::errors::SyntaxError;
use crate::parser::dtd::{closes_doctype, dtd_after, dtd_step, DtdParser};
use crate::parser::fast_element::unclosed_tag;
use crate::parser::scan::{
    lemma_stop_extend, lemma_stop_nowhere, lemma_stop_push, quote_after, quote_step, stop, Quote,
    Scan,
};

verus! {

/// A part of what is written between the brackets of a tag.
pub enum TagPart {
    /// Bytes outside of quotes, none of which is a quote or `>`.
    Plain(Seq<u8>),
    /// A value between two quotes of the same kind: the quote, and the bytes between, none of which
    /// is that quote.
    Value(u8, Seq<u8>),
}

/// Whether `b` is not in `s`.
pub open spec fn without(s: Seq<u8>, b: u8) -> bool {
    forall|j: int| 0 <= j < s.len() ==> #[trigger] s[j] != b
}

impl TagPart {
    /// Whether the part is written correctly.
    pub open spec fn valid(self) -> bool {
        match self {
            TagPart::Plain(s) => without(s, DOUBLE_QUOTE) && without(s, SINGLE_QUOTE) && without(
                s,
                GT,
            ),
            TagPart::Value(quote, value) => (quote == DOUBLE_QUOTE || quote == SINGLE_QUOTE)
                && without(value, quote),
        }
    }

    /// The bytes of the part.
    pub open spec fn bytes(self) -> Seq<u8> {
        match self {
            TagPart::Plain(s) => s,
            TagPart::Value(quote, value) => seq![quote] + value + seq![quote],
        }
    }
}

/// Whether all parts are written correctly.
pub open spec fn valid_parts(parts: Seq<TagPart>) -> bool {
    forall|i: int| 0 <= i < parts.len() ==> #[trigger] parts[i].valid()
}

/// The bytes of the parts, one after another.
pub open spec fn parts_bytes(parts: Seq<TagPart>) -> Seq<u8>
    decreases parts.len(),
{
    if parts.len() == 0 {
        Seq::empty()
    } else {
        parts_bytes(parts.drop_last()) + parts.last().bytes()
    }
}

/// Whether a tag does not end in `s` and the quoting after it is `quote`.
spec fn tag_open(s: Seq<u8>, quote: Quote) -> bool {
    stop(Scan::Tag, s) is None && quote_after(s) == quote
}

proof fn lemma_tag_push(s: Seq<u8>, quote: Quote, b: u8)
    requires
        tag_open(s, quote),
        b != GT || quote != Quote::Outside,
    ensures
        tag_open(s.push(b), quote_step(quote, b)),
{
    let t = s.push(b);
    assert(t.drop_last() =~= s);
    assert(t.take(s.len() as int) =~= s);
    lemma_stop_push(Scan::Tag, s, b);
}

proof fn lemma_tag_plain(s: Seq<u8>, t: Seq<u8>)
    requires
        tag_open(s, Quote::Outside),
        TagPart::Plain(t).valid(),
    ensures
        tag_open(s + t, Quote::Outside),
    decreases t.len(),
{
    if t.len() == 0 {
        assert(s + t =~= s);
    } else {
        let u = t.drop_last();
        assert forall|j: int| 0 <= j < u.len() implies u[j] == t[j] by {}
        lemma_tag_plain(s, u);
        assert(t[t.len() - 1] == t.last());
        lemma_tag_push(s + u, Quote::Outside, t.last());
        assert((s + u).push(t.last()) =~= s + t);
    }
}

/// The quoting inside of a value.
spec fn quote_of(quote: u8) -> Quote {
    if quote == DOUBLE_QUOTE {
        Quote::Double
    } else {
        Quote::Single
    }
}

proof fn lemma_tag_value(s: Seq<u8>, quote: u8, value: Seq<u8>)
    requires
        tag_open(s, Quote::Outside),
        TagPart::Value(quote, value).valid(),
    ensures
        tag_open(s + (seq![quote] + value), quote_of(quote)),
    decreases value.len(),
{
    if value.len() == 0 {
        lemma_tag_push(s, Quote::Outside, quote);
        assert(s + (seq![quote] + value) =~= s.push(quote));
    } else {
        let u = value.drop_last();
        assert forall|j: int| 0 <= j < u.len() implies u[j] == value[j] by {}
        lemma_tag_value(s, quote, u);
        assert(value[value.len() - 1] == value.last());
        lemma_tag_push(s + (seq![quote] + u), quote_of(quote), value.last());
        assert((s + (seq![quote] + u)).push(value.last()) =~= s + (seq![quote] + value));
    }
}

proof fn lemma_tag_part(s: Seq<u8>, part: TagPart)
    requires
        tag_open(s, Quote::Outside),
        part.valid(),
    ensures
        tag_open(s + part.bytes(), Quote::Outside),
{
    match part {
        TagPart::Plain(t) => lemma_tag_plain(s, t),
        TagPart::Value(quote, value) => {
            lemma_tag_value(s, quote, value);
            lemma_tag_push(s + (seq![quote] + value), quote_of(quote), quote);
            assert((s + (seq![quote] + value)).push(quote) =~= s + part.bytes());
        },
    }
}

proof fn lemma_tag_parts(parts: Seq<TagPart>)
    requires
        valid_parts(parts),
    ensures
        tag_open(parts_bytes(parts), Quote::Outside),
    decreases parts.len(),
{
    if parts.len() == 0 {
        lemma_stop_nowhere(Scan::Tag, Seq::empty());
    } else {
        let u = parts.drop_last();
        assert forall|i: int| 0 <= i < u.len() implies #[trigger] u[i].valid() by {
            assert(u[i] == parts[i]);
        }
        lemma_tag_parts(u);
        assert(parts[parts.len() - 1].valid());
        lemma_tag_part(parts_bytes(u), parts.last());
    }
}

/// A tag ends at the first `>` outside of quoted values. Inside of a value only the quote that
/// opened it ends it: the other quote and `>` are bytes like any other.
pub proof fn law_tag_ends(parts: Seq<TagPart>, rest: Seq<u8>)
    requires
        valid_parts(parts),
    ensures
        stop(Scan::Tag, parts_bytes(parts) + seq![GT] + rest) == Some(
            parts_bytes(parts).len() as int,
        ),
{
    let s = parts_bytes(parts);
    lemma_tag_parts(parts);
    assert(s.push(GT).take(s.len() as int) =~= s);
    lemma_stop_push(Scan::Tag, s, GT);
    lemma_stop_extend(Scan::Tag, s.push(GT), rest);
    assert(s.push(GT) + rest =~= s + seq![GT] + rest);
}

/// A tag that consists of whole parts and nothing else does not end, and a document that ends there
/// ends in a tag.
pub proof fn law_tag_is_unclosed(parts: Seq<TagPart>)
    requires
        valid_parts(parts),
    ensures
        stop(Scan::Tag, parts_bytes(parts)) is None,
        unclosed_tag(parts_bytes(parts)) == SyntaxError::UnclosedTag,
{
    lemma_tag_parts(parts);
}

/// A tag does not end in a value without its second quote, and a document that ends there ends in a
/// value in that kind of quotes.
pub proof fn law_value_is_unclosed(parts: Seq<TagPart>, quote: u8, value: Seq<u8>)
    requires
        valid_parts(parts),
        TagPart::Value(quote, value).valid(),
    ensures
        stop(Scan::Tag, parts_bytes(parts) + seq![quote] + value) is None,
        unclosed_tag(parts_bytes(parts) + seq![quote] + value) == if quote == DOUBLE_QUOTE {
            SyntaxError::UnclosedDoubleQuotedAttributeValue
        } else {
            SyntaxError::UnclosedSingleQuotedAttributeValue
        },
{
    lemma_tag_parts(parts);
    lemma_tag_value(parts_bytes(parts), quote, value);
    assert(parts_bytes(parts) + (seq![quote] + value) =~= parts_bytes(parts) + seq![quote] + value);
}

/// An item of the internal subset of a document type declaration.
pub enum SubsetItem {
    /// Bytes between the markup, none of which is `<` or `]`.
    Space(Seq<u8>),
    /// `<!...>`, which does not start like a comment.
    Declaration(Seq<TagPart>),
    /// `<!--...-->`
    Comment(Seq<u8>),
    /// `<?...?>`
    Instruction(Seq<u8>),
}

/// Whether `-->` is not in `s`.
pub open spec fn no_comment_end(s: Seq<u8>) -> bool {
    forall|j: int|
        2 <= j < s.len() ==> !(#[trigger] s[j] == GT && s[j - 1] == HYPHEN && s[j - 2] == HYPHEN)
}

/// Whether `?>` is not in `s`.
pub open spec fn no_instruction_end(s: Seq<u8>) -> bool {
    forall|j: int| 1 <= j < s.len() ==> !(#[trigger] s[j] == GT && s[j - 1] == QUESTION)
}

impl SubsetItem {
    /// Whether the item is written correctly.
    pub open spec fn valid(self) -> bool {
        match self {
            SubsetItem::Space(s) => without(s, LT) && without(s, CLOSE_BRACKET),
            SubsetItem::Declaration(parts) => {
                &&& valid_parts(parts)
                &&& parts_bytes(parts).len() > 0 ==> parts_bytes(parts)[0] != HYPHEN
            },
            SubsetItem::Comment(s) => no_comment_end(s),
            SubsetItem::Instruction(s) => no_instruction_end(s),
        }
    }

    /// The bytes of the item.
    pub open spec fn bytes(self) -> Seq<u8> {
        match self {
            SubsetItem::Space(s) => s,
            SubsetItem::Declaration(parts) => seq![LT, BANG] + parts_bytes(parts) + seq![GT],
            SubsetItem::Comment(s) => seq![LT, BANG, HYPHEN, HYPHEN] + s + seq![HYPHEN, HYPHEN, GT],
            SubsetItem::Instruction(s) => seq![LT, QUESTION] + s + seq![QUESTION, GT],
        }
    }
}

/// Whether all items are written correctly.
pub open spec fn valid_items(items: Seq<SubsetItem>) -> bool {
    forall|i: int| 0 <= i < items.len() ==> #[trigger] items[i].valid()
}

/// The bytes of the items, one after another.
pub open spec fn items_bytes(items: Seq<SubsetItem>) -> Seq<u8>
    decreases items.len(),
{
    if items.len() == 0 {
        Seq::empty()
    } else {
        items_bytes(items.drop_last()) + items.last().bytes()
    }
}

/// How often `b` is in `s`.
pub open spec fn count(s: Seq<u8>, b: u8) -> nat
    decreases s.len(),
{
    if s.len() == 0 {
        0
    } else {
        count(s.drop_last(), b) + if s.last() == b {
            1nat
        } else {
            0
        }
    }
}

/// Whether the `<` and `>` in `s` are balanced.
pub open spec fn balanced(s: Seq<u8>) -> bool {
    &&& forall|k: int|
        0 <= k <= s.len() ==> count(#[trigger] s.take(k), LT) >= count(s.take(k), GT)
    &&& count(s, LT) == count(s, GT)
}

/// Whether a document type declaration does not end in `s` and the parser is `parser` after it.
spec fn dtd_open(s: Seq<u8>, parser: DtdParser) -> bool {
    stop(Scan::DocType, s) is None && dtd_after(s) == parser
}

proof fn lemma_dtd_push(s: Seq<u8>, parser: DtdParser, b: u8)
    requires
        dtd_open(s, parser),
        b != GT || !closes_doctype(parser),
    ensures
        dtd_open(s.push(b), dtd_step(parser, b)),
{
    let t = s.push(b);
    assert(t.drop_last() =~= s);
    assert(t.take(s.len() as int) =~= s);
    lemma_stop_push(Scan::DocType, s, b);
}

proof fn lemma_dtd_before(s: Seq<u8>)
    requires
        s.len() <= u64::MAX,
        without(s, OPEN_BRACKET),
        forall|k: int|
            0 <= k <= s.len() ==> count(#[trigger] s.take(k), LT) >= count(s.take(k), GT),
    ensures
        dtd_open(
            s,
            DtdParser::BeforeInternalSubset((count(s, LT) - count(s, GT)) as u64),
        ),
        count(s, LT) - count(s, GT) <= s.len(),
    decreases s.len(),
{
    if s.len() == 0 {
        lemma_stop_nowhere(Scan::DocType, s);
    } else {
        let t = s.drop_last();
        assert forall|k: int| 0 <= k <= t.len() implies count(#[trigger] t.take(k), LT) >= count(
            t.take(k),
            GT,
        ) by {
            assert(t.take(k) =~= s.take(k));
        }
        assert forall|j: int| 0 <= j < t.len() implies #[trigger] t[j] != OPEN_BRACKET by {
            assert(t[j] == s[j]);
        }
        lemma_dtd_before(t);
        assert(s.take(s.len() as int) =~= s);
        assert(t.take(t.len() as int) =~= t);
        assert(count(s.take(s.len() as int), LT) >= count(s.take(s.len() as int), GT));
        assert(s[s.len() - 1] == s.last());
        lemma_dtd_push(
            t,
            DtdParser::BeforeInternalSubset((count(t, LT) - count(t, GT)) as u64),
            s.last(),
        );
        assert(t.push(s.last()) =~= s);
    }
}

proof fn lemma_dtd_space(s: Seq<u8>, t: Seq<u8>)
    requires
        dtd_open(s, DtdParser::InsideInternalSubset),
        SubsetItem::Space(t).valid(),
    ensures
        dtd_open(s + t, DtdParser::InsideInternalSubset),
    decreases t.len(),
{
    if t.len() == 0 {
        assert(s + t =~= s);
    } else {
        let u = t.drop_last();
        assert forall|j: int| 0 <= j < u.len() implies u[j] == t[j] by {}
        lemma_dtd_space(s, u);
        assert(t[t.len() - 1] == t.last());
        lemma_dtd_push(s + u, DtdParser::InsideInternalSubset, t.last());
        assert((s + u).push(t.last()) =~= s + t);
    }
}

/// Whether the parser is in a markup declaration, outside of quotes.
spec fn declares(parser: DtdParser, read: Seq<u8>) -> bool {
    if read.len() == 0 {
        parser == DtdParser::AfterBang
    } else {
        parser == DtdParser::InsideDeclaration(Quote::Outside)
    }
}

/// A markup declaration after `s`, of which `read` was read, goes on with `b`.
proof fn lemma_declaration_push(s: Seq<u8>, read: Seq<u8>, b: u8)
    requires
        declares(dtd_after(s + read), read),
        stop(Scan::DocType, s + read) is None,
        b != GT,
        read.len() == 0 ==> b != HYPHEN,
    ensures
        dtd_open(s + read.push(b), DtdParser::InsideDeclaration(quote_step(Quote::Outside, b))),
{
    lemma_dtd_push(s + read, dtd_after(s + read), b);
    assert((s + read).push(b) =~= s + read.push(b));
}

proof fn lemma_declaration_plain(s: Seq<u8>, read: Seq<u8>, t: Seq<u8>)
    requires
        declares(dtd_after(s + read), read),
        stop(Scan::DocType, s + read) is None,
        TagPart::Plain(t).valid(),
        read.len() == 0 && t.len() > 0 ==> t[0] != HYPHEN,
    ensures
        declares(dtd_after(s + (read + t)), read + t),
        stop(Scan::DocType, s + (read + t)) is None,
    decreases t.len(),
{
    if t.len() == 0 {
        assert(read + t =~= read);
    } else {
        let u = t.drop_last();
        assert forall|j: int| 0 <= j < u.len() implies u[j] == t[j] by {}
        lemma_declaration_plain(s, read, u);
        assert(t[t.len() - 1] == t.last());
        lemma_declaration_push(s, read + u, t.last());
        assert((read + u).push(t.last()) =~= read + t);
    }
}

proof fn lemma_declaration_value(s: Seq<u8>, read: Seq<u8>, quote: u8, value: Seq<u8>)
    requires
        declares(dtd_after(s + read), read),
        stop(Scan::DocType, s + read) is None,
        TagPart::Value(quote, value).valid(),
    ensures
        dtd_open(
            s + (read + (seq![quote] + value)),
            DtdParser::InsideDeclaration(quote_of(quote)),
        ),
    decreases value.len(),
{
    if value.len() == 0 {
        lemma_declaration_push(s, read, quote);
        assert(read + (seq![quote] + value) =~= read.push(quote));
    } else {
        let u = value.drop_last();
        assert forall|j: int| 0 <= j < u.len() implies u[j] == value[j] by {}
        lemma_declaration_value(s, read, quote, u);
        assert(value[value.len() - 1] == value.last());
        let t = s + (read + (seq![quote] + u));
        lemma_dtd_push(t, DtdParser::InsideDeclaration(quote_of(quote)), value.last());
        assert(t.push(value.last()) =~= s + (read + (seq![quote] + value)));
    }
}

proof fn lemma_declaration_part(s: Seq<u8>, read: Seq<u8>, part: TagPart)
    requires
        declares(dtd_after(s + read), read),
        stop(Scan::DocType, s + read) is None,
        part.valid(),
        read.len() == 0 && part.bytes().len() > 0 ==> part.bytes()[0] != HYPHEN,
    ensures
        declares(dtd_after(s + (read + part.bytes())), read + part.bytes()),
        stop(Scan::DocType, s + (read + part.bytes())) is None,
{
    match part {
        TagPart::Plain(t) => lemma_declaration_plain(s, read, t),
        TagPart::Value(quote, value) => {
            lemma_declaration_value(s, read, quote, value);
            let t = s + (read + (seq![quote] + value));
            lemma_dtd_push(t, DtdParser::InsideDeclaration(quote_of(quote)), quote);
            assert(t.push(quote) =~= s + (read + part.bytes()));
        },
    }
}

proof fn lemma_declaration_parts(s: Seq<u8>, parts: Seq<TagPart>)
    requires
        dtd_open(s, DtdParser::AfterBang),
        SubsetItem::Declaration(parts).valid(),
    ensures
        declares(dtd_after(s + parts_bytes(parts)), parts_bytes(parts)),
        stop(Scan::DocType, s + parts_bytes(parts)) is None,
    decreases parts.len(),
{
    if parts.len() == 0 {
        assert(s + parts_bytes(parts) =~= s);
    } else {
        let u = parts.drop_last();
        let read = parts_bytes(u);
        let bytes = parts.last().bytes();
        assert forall|i: int| 0 <= i < u.len() implies #[trigger] u[i].valid() by {
            assert(u[i] == parts[i]);
        }
        assert(read.len() > 0 ==> parts_bytes(parts)[0] == read[0]);
        assert(read.len() == 0 ==> parts_bytes(parts) =~= bytes);
        lemma_declaration_parts(s, u);
        assert(parts[parts.len() - 1].valid());
        lemma_declaration_part(s, read, parts.last());
    }
}

/// How many of the last bytes of a comment, two at most, are `-`.
spec fn hyphens(s: Seq<u8>) -> u8 {
    if s.len() == 0 || s.last() != HYPHEN {
        0
    } else if s.len() >= 2 && s[s.len() - 2] == HYPHEN {
        2
    } else {
        1
    }
}

proof fn lemma_dtd_comment(s: Seq<u8>, t: Seq<u8>)
    requires
        dtd_open(s, DtdParser::InsideComment(0)),
        no_comment_end(t),
    ensures
        dtd_open(s + t, DtdParser::InsideComment(hyphens(t))),
    decreases t.len(),
{
    if t.len() == 0 {
        assert(s + t =~= s);
    } else {
        let u = t.drop_last();
        assert forall|j: int| 0 <= j < u.len() implies u[j] == t[j] by {}
        lemma_dtd_comment(s, u);
        assert(t[t.len() - 1] == t.last());
        lemma_dtd_push(s + u, DtdParser::InsideComment(hyphens(u)), t.last());
        assert((s + u).push(t.last()) =~= s + t);
    }
}

proof fn lemma_dtd_instruction(s: Seq<u8>, t: Seq<u8>)
    requires
        dtd_open(s, DtdParser::InsidePi(false)),
        no_instruction_end(t),
    ensures
        dtd_open(s + t, DtdParser::InsidePi(t.len() > 0 && t.last() == QUESTION)),
    decreases t.len(),
{
    if t.len() == 0 {
        assert(s + t =~= s);
    } else {
        let u = t.drop_last();
        assert forall|j: int| 0 <= j < u.len() implies u[j] == t[j] by {}
        lemma_dtd_instruction(s, u);
        assert(t[t.len() - 1] == t.last());
        lemma_dtd_push(
            s + u,
            DtdParser::InsidePi(u.len() > 0 && u.last() == QUESTION),
            t.last(),
        );
        assert((s + u).push(t.last()) =~= s + t);
    }
}

/// After an item of the internal subset the parser is where it was before the item.
proof fn lemma_dtd_item(s: Seq<u8>, item: SubsetItem)
    requires
        dtd_open(s, DtdParser::InsideInternalSubset),
        item.valid(),
    ensures
        dtd_open(s + item.bytes(), DtdParser::InsideInternalSubset),
{
    match item {
        SubsetItem::Space(t) => lemma_dtd_space(s, t),
        SubsetItem::Declaration(parts) => {
            lemma_dtd_push(s, DtdParser::InsideInternalSubset, LT);
            lemma_dtd_push(s.push(LT), DtdParser::AfterOpen, BANG);
            let t = s.push(LT).push(BANG);
            lemma_declaration_parts(t, parts);
            let u = t + parts_bytes(parts);
            lemma_dtd_push(u, dtd_after(u), GT);
            assert(u.push(GT) =~= s + item.bytes());
        },
        SubsetItem::Comment(text) => {
            lemma_dtd_push(s, DtdParser::InsideInternalSubset, LT);
            lemma_dtd_push(s.push(LT), DtdParser::AfterOpen, BANG);
            let t = s.push(LT).push(BANG);
            lemma_dtd_push(t, DtdParser::AfterBang, HYPHEN);
            lemma_dtd_push(t.push(HYPHEN), DtdParser::AfterBangHyphen, HYPHEN);
            let u = t.push(HYPHEN).push(HYPHEN);
            lemma_dtd_comment(u, text);
            let v = u + text;
            lemma_dtd_push(v, DtdParser::InsideComment(hyphens(text)), HYPHEN);
            lemma_dtd_push(v.push(HYPHEN), dtd_after(v.push(HYPHEN)), HYPHEN);
            lemma_dtd_push(v.push(HYPHEN).push(HYPHEN), DtdParser::InsideComment(2), GT);
            assert(v.push(HYPHEN).push(HYPHEN).push(GT) =~= s + item.bytes());
        },
        SubsetItem::Instruction(text) => {
            lemma_dtd_push(s, DtdParser::InsideInternalSubset, LT);
            lemma_dtd_push(s.push(LT), DtdParser::AfterOpen, QUESTION);
            let u = s.push(LT).push(QUESTION);
            lemma_dtd_instruction(u, text);
            let v = u + text;
            lemma_dtd_push(v, dtd_after(v), QUESTION);
            lemma_dtd_push(v.push(QUESTION), DtdParser::InsidePi(true), GT);
            assert(v.push(QUESTION).push(GT) =~= s + item.bytes());
        },
    }
}

proof fn lemma_dtd_items(s: Seq<u8>, items: Seq<SubsetItem>)
    requires
        dtd_open(s, DtdParser::InsideInternalSubset),
        valid_items(items),
    ensures
        dtd_open(s + items_bytes(items), DtdParser::InsideInternalSubset),
    decreases items.len(),
{
    if items.len() == 0 {
        assert(s + items_bytes(items) =~= s);
    } else {
        let u = items.drop_last();
        assert forall|i: int| 0 <= i < u.len() implies #[trigger] u[i].valid() by {
            assert(u[i] == items[i]);
        }
        lemma_dtd_items(s, u);
        assert(items[items.len() - 1].valid());
        lemma_dtd_item(s + items_bytes(u), items.last());
        assert(s + items_bytes(u) + items.last().bytes() =~= s + items_bytes(items));
    }
}

proof fn lemma_dtd_after_subset(s: Seq<u8>, t: Seq<u8>)
    requires
        dtd_open(s, DtdParser::AfterInternalSubset),
        without(t, GT),
    ensures
        dtd_open(s + t, DtdParser::AfterInternalSubset),
    decreases t.len(),
{
    if t.len() == 0 {
        assert(s + t =~= s);
    } else {
        let u = t.drop_last();
        assert forall|j: int| 0 <= j < u.len() implies u[j] == t[j] by {}
        lemma_dtd_after_subset(s, u);
        assert(t[t.len() - 1] == t.last());
        lemma_dtd_push(s + u, DtdParser::AfterInternalSubset, t.last());
        assert((s + u).push(t.last()) =~= s + t);
    }
}

/// The first bytes of a document type declaration with an internal subset: what comes before the
/// subset, the subset with its brackets and what comes after it.
pub open spec fn subset_bytes(before: Seq<u8>, items: Seq<SubsetItem>, after: Seq<u8>) -> Seq<u8> {
    before + seq![OPEN_BRACKET] + items_bytes(items) + seq![CLOSE_BRACKET] + after
}

/// Whether the bytes can stand in a document type declaration before an internal subset or in place
/// of one.
pub open spec fn valid_before(before: Seq<u8>) -> bool {
    before.len() <= u64::MAX && without(before, OPEN_BRACKET) && balanced(before)
}

proof fn lemma_dtd_subset(before: Seq<u8>, items: Seq<SubsetItem>)
    requires
        valid_before(before),
        valid_items(items),
    ensures
        dtd_open(
            before + seq![OPEN_BRACKET] + items_bytes(items),
            DtdParser::InsideInternalSubset,
        ),
{
    lemma_dtd_before(before);
    lemma_dtd_push(before, DtdParser::BeforeInternalSubset(0), OPEN_BRACKET);
    assert(before.push(OPEN_BRACKET) =~= before + seq![OPEN_BRACKET]);
    lemma_dtd_items(before + seq![OPEN_BRACKET], items);
}

/// A document type declaration that was read to where the next `>` ends it ends there.
proof fn lemma_dtd_ends(s: Seq<u8>, parser: DtdParser, rest: Seq<u8>)
    requires
        dtd_open(s, parser),
        closes_doctype(parser),
    ensures
        stop(Scan::DocType, s + seq![GT] + rest) == Some(s.len() as int),
{
    assert(s.push(GT).take(s.len() as int) =~= s);
    lemma_stop_push(Scan::DocType, s, GT);
    lemma_stop_extend(Scan::DocType, s.push(GT), rest);
    assert(s.push(GT) + rest =~= s + seq![GT] + rest);
}

/// A document type declaration with an internal subset ends at the first `>` after the `]` of the
/// subset, however many declarations, comments and processing instructions the subset contains. A
/// `>` or `]` in one of them does not count.
pub proof fn law_doctype_with_subset_ends(
    before: Seq<u8>,
    items: Seq<SubsetItem>,
    after: Seq<u8>,
    rest: Seq<u8>,
)
    requires
        valid_before(before),
        valid_items(items),
        without(after, GT),
    ensures
        stop(Scan::DocType, subset_bytes(before, items, after) + seq![GT] + rest) == Some(
            subset_bytes(before, items, after).len() as int,
        ),
{
    let s = before + seq![OPEN_BRACKET] + items_bytes(items);
    lemma_dtd_subset(before, items);
    lemma_dtd_push(s, DtdParser::InsideInternalSubset, CLOSE_BRACKET);
    assert(s.push(CLOSE_BRACKET) =~= s + seq![CLOSE_BRACKET]);
    lemma_dtd_after_subset(s + seq![CLOSE_BRACKET], after);
    lemma_dtd_ends(
        subset_bytes(before, items, after),
        DtdParser::AfterInternalSubset,
        rest,
    );
}

/// A document type declaration without an internal subset ends at the first `>` that no `<` before
/// it is balanced with.
pub proof fn law_doctype_ends(before: Seq<u8>, rest: Seq<u8>)
    requires
        valid_before(before),
    ensures
        stop(Scan::DocType, before + seq![GT] + rest) == Some(before.len() as int),
{
    lemma_dtd_before(before);
    lemma_dtd_ends(before, DtdParser::BeforeInternalSubset(0), rest);
}

/// A document type declaration does not end before or in its internal subset.
pub proof fn law_doctype_is_unclosed(before: Seq<u8>, items: Seq<SubsetItem>, after: Seq<u8>)
    requires
        valid_before(before),
        valid_items(items),
        without(after, GT),
    ensures
        stop(Scan::DocType, before) is None,
        stop(Scan::DocType, before + seq![OPEN_BRACKET] + items_bytes(items)) is None,
        stop(Scan::DocType, subset_bytes(before, items, after)) is None,
{
    let s = before + seq![OPEN_BRACKET] + items_bytes(items);
    lemma_dtd_before(before);
    lemma_dtd_subset(before, items);
    lemma_dtd_push(s, DtdParser::InsideInternalSubset, CLOSE_BRACKET);
    assert(s.push(CLOSE_BRACKET) =~= s + seq![CLOSE_BRACKET]);
    lemma_dtd_after_subset(s + seq![CLOSE_BRACKET], after);
}

} // verus!
