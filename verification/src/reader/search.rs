//! Searches for the ends of text and references.

use vstd::prelude::*;

use crate::bytes::{AMP, LT, SEMICOLON};
use crate::parser::scan::{lemma_stop_at, lemma_stop_nowhere, stop, stops, Scan};

verus! {

/// Looks for the `<` or `&` that ends text.
pub(crate) fn find_text_end(bytes: &[u8]) -> (r: Option<usize>)
    ensures
        match r {
            Some(i) => i < bytes@.len() && stop(Scan::Text, bytes@) == Some(i as int),
            None => stop(Scan::Text, bytes@) is None,
        },
        r matches Some(i) ==> bytes@[i as int] == LT || bytes@[i as int] == AMP,
{
    let r = memchr::memchr2(LT, AMP, bytes);
    proof {
        match r {
            Some(i) => lemma_stop_at(Scan::Text, bytes@, i as int),
            None => lemma_stop_nowhere(Scan::Text, bytes@),
        }
    }
    r
}

/// Looks for the `;`, `&` or `<` that ends a reference, which starts with `&`.
pub(crate) fn find_reference_end(bytes: &[u8]) -> (r: Option<usize>)
    requires
        bytes@.len() > 0,
    ensures
        match r {
            Some(i) => 0 < i < bytes@.len() && stop(Scan::Reference, bytes@) == Some(i as int),
            None => stop(Scan::Reference, bytes@) is None,
        },
{
    let tail = vstd::slice::slice_subrange(bytes, 1, bytes.len());
    match memchr::memchr3(SEMICOLON, AMP, LT, tail) {
        Some(i) => {
            proof {
                assert forall|j: int| 0 <= j < i + 1 implies !stops(
                    Scan::Reference,
                    bytes@,
                    j,
                ) by {
                    assert(j > 0 ==> bytes@[j] == tail@[j - 1]);
                }
                assert(bytes@[i + 1] == tail@[i as int]);
                lemma_stop_at(Scan::Reference, bytes@, i + 1);
            }
            Some(i + 1)
        },
        None => {
            proof {
                assert forall|j: int| 0 <= j < bytes@.len() implies !stops(
                    Scan::Reference,
                    bytes@,
                    j,
                ) by {
                    assert(j > 0 ==> bytes@[j] == tail@[j - 1]);
                }
                lemma_stop_nowhere(Scan::Reference, bytes@);
            }
            None
        },
    }
}

} // verus!
