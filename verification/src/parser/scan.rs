//! Where the pieces of a document end.

use vstd::prelude::*;

use crate::bytes::{
    AMP, CLOSE_BRACKET, DOUBLE_QUOTE, GT, HYPHEN, LT, QUESTION, SEMICOLON, SINGLE_QUOTE,
};
use crate::parser::dtd::{closes_doctype, dtd_after};

verus! {

/// The kinds of pieces that a document consists of. What is scanned is text from its
/// first byte, a reference from its `&` and markup from the byte after its `<`.
#[derive(Clone, Copy, Debug, PartialEq, Eq, Structural)]
pub enum Scan {
    /// Text, which ends before `<` or `&`.
    Text,
    /// A reference, which ends before `;`, `<` or another `&`.
    Reference,
    /// A tag, which ends before a `>` outside of quotes.
    Tag,
    /// A processing instruction, which ends before the `>` of `?>`.
    Pi,
    /// A comment, which ends before the `>` of `-->`.
    Comment,
    /// A CDATA section, which ends before the `>` of `]]>`.
    CData,
    /// A document type declaration, which ends before a `>` outside of the internal subset.
    DocType,
}

/// Where a byte of a tag stands with regard to quotes.
#[derive(Clone, Copy, Debug, PartialEq, Eq, Structural)]
pub enum Quote {
    /// Outside of any quotes.
    Outside,
    /// Inside of single quotes.
    Single,
    /// Inside of double quotes.
    Double,
}

/// How reading one byte of a tag changes the quoting.
pub open spec fn quote_step(quote: Quote, b: u8) -> Quote {
    match quote {
        Quote::Outside => if b == SINGLE_QUOTE {
            Quote::Single
        } else if b == DOUBLE_QUOTE {
            Quote::Double
        } else {
            Quote::Outside
        },
        Quote::Single => if b == SINGLE_QUOTE {
            Quote::Outside
        } else {
            Quote::Single
        },
        Quote::Double => if b == DOUBLE_QUOTE {
            Quote::Outside
        } else {
            Quote::Double
        },
    }
}

/// The quoting after the first bytes of a tag.
pub open spec fn quote_after(s: Seq<u8>) -> Quote
    decreases s.len(),
{
    if s.len() == 0 {
        Quote::Outside
    } else {
        quote_step(quote_after(s.drop_last()), s.last())
    }
}

/// Whether a piece of kind `kind`, the first bytes of which are `s`, can end before `s[i]`.
pub open spec fn stops(kind: Scan, s: Seq<u8>, i: int) -> bool {
    match kind {
        Scan::Text => s[i] == LT || s[i] == AMP,
        Scan::Reference => i > 0 && (s[i] == SEMICOLON || s[i] == AMP || s[i] == LT),
        Scan::Tag => s[i] == GT && quote_after(s.take(i)) == Quote::Outside,
        Scan::Pi => i > 0 && s[i] == GT && s[i - 1] == QUESTION,
        Scan::Comment => i > 4 && s[i] == GT && s[i - 1] == HYPHEN && s[i - 2] == HYPHEN,
        Scan::CData => i > 1 && s[i] == GT && s[i - 1] == CLOSE_BRACKET && s[i - 2]
            == CLOSE_BRACKET,
        Scan::DocType => s[i] == GT && closes_doctype(dtd_after(s.take(i))),
    }
}

/// The first index from `from` on at which a piece can end.
pub open spec fn stop_from(kind: Scan, s: Seq<u8>, from: int) -> Option<int>
    decreases s.len() - from,
{
    if from >= s.len() {
        None
    } else if stops(kind, s, from) {
        Some(from)
    } else {
        stop_from(kind, s, from + 1)
    }
}

/// The index of the byte before which the piece at the start of `s` ends, if it ends in `s`.
pub open spec fn stop(kind: Scan, s: Seq<u8>) -> Option<int> {
    stop_from(kind, s, 0)
}

proof fn lemma_stop_from(kind: Scan, s: Seq<u8>, from: int)
    requires
        0 <= from,
    ensures
        match stop_from(kind, s, from) {
            Some(i) => from <= i < s.len() && stops(kind, s, i) && forall|j: int|
                from <= j < i ==> !stops(kind, s, j),
            None => forall|j: int| from <= j < s.len() ==> !stops(kind, s, j),
        },
    decreases s.len() - from,
{
    if from < s.len() && !stops(kind, s, from) {
        lemma_stop_from(kind, s, from + 1);
    }
}

/// A piece ends at the first index at which it can end.
pub proof fn lemma_stop(kind: Scan, s: Seq<u8>)
    ensures
        match stop(kind, s) {
            Some(i) => 0 <= i < s.len() && stops(kind, s, i) && forall|j: int|
                0 <= j < i ==> !stops(kind, s, j),
            None => forall|j: int| 0 <= j < s.len() ==> !stops(kind, s, j),
        },
{
    lemma_stop_from(kind, s, 0);
}

/// A piece ends inside of what is scanned.
pub proof fn lemma_stop_inside(kind: Scan, s: Seq<u8>)
    ensures
        stop(kind, s) matches Some(i) ==> 0 <= i < s.len(),
{
    lemma_stop(kind, s);
}

/// The first index at which a piece can end is where it ends.
pub proof fn lemma_stop_at(kind: Scan, s: Seq<u8>, i: int)
    requires
        0 <= i < s.len(),
        stops(kind, s, i),
        forall|j: int| 0 <= j < i ==> !stops(kind, s, j),
    ensures
        stop(kind, s) == Some(i),
{
    lemma_stop(kind, s);
}

/// A piece that can end nowhere does not end.
pub proof fn lemma_stop_nowhere(kind: Scan, s: Seq<u8>)
    requires
        forall|j: int| 0 <= j < s.len() ==> !stops(kind, s, j),
    ensures
        stop(kind, s) is None,
{
    lemma_stop(kind, s);
}

/// Whether a piece can end at some index does not depend on the bytes behind that index.
pub proof fn lemma_stops_prefix(kind: Scan, s: Seq<u8>, t: Seq<u8>, i: int)
    requires
        0 <= i < s.len(),
    ensures
        stops(kind, s + t, i) == stops(kind, s, i),
{
    assert((s + t).take(i) =~= s.take(i));
}

/// A piece that ends in `s` ends there whatever follows `s`.
pub proof fn lemma_stop_extend(kind: Scan, s: Seq<u8>, t: Seq<u8>)
    ensures
        stop(kind, s) is Some ==> stop(kind, s + t) == stop(kind, s),
        stop(kind, s) is None ==> (stop(kind, s + t) matches Some(i) ==> s.len() <= i < s.len()
            + t.len()),
{
    lemma_stop(kind, s);
    assert forall|j: int| 0 <= j < s.len() implies #[trigger] stops(kind, s + t, j) == stops(
        kind,
        s,
        j,
    ) by {
        lemma_stops_prefix(kind, s, t, j);
    }
    if let Some(i) = stop(kind, s) {
        assert(stops(kind, s + t, i));
    }
    lemma_stop(kind, s + t);
}

/// Reading one more byte of a piece that has not ended yet.
pub proof fn lemma_stop_push(kind: Scan, s: Seq<u8>, b: u8)
    requires
        stop(kind, s) is None,
    ensures
        stops(kind, s.push(b), s.len() as int) ==> stop(kind, s.push(b)) == Some(s.len() as int),
        !stops(kind, s.push(b), s.len() as int) ==> stop(kind, s.push(b)) is None,
{
    let t = seq![b];
    assert(s.push(b) =~= s + t);
    lemma_stop_extend(kind, s, t);
    lemma_stop(kind, s + t);
}

} // verus!
