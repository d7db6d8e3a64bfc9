//! Searches for bytes, which the `memchr` crate does.

use vstd::prelude::*;

verus! {

/// Specifies `memchr::memchr`: it returns the index of the first byte of `haystack` that is
/// `needle`, and `None` if there is none.
pub assume_specification[ memchr::memchr ](needle: u8, haystack: &[u8]) -> (r: Option<usize>)
    ensures
        match r {
            Some(i) => {
                &&& i < haystack@.len()
                &&& haystack@[i as int] == needle
                &&& forall|j: int| 0 <= j < i ==> #[trigger] haystack@[j] != needle
            },
            None => forall|j: int| 0 <= j < haystack@.len() ==> #[trigger] haystack@[j] != needle,
        },
;

/// Specifies `memchr::memchr2`: it returns the index of the first byte of `haystack` that is
/// one of the two needles, and `None` if there is none.
pub assume_specification[ memchr::memchr2 ](needle1: u8, needle2: u8, haystack: &[u8]) -> (r:
    Option<usize>)
    ensures
        match r {
            Some(i) => {
                &&& i < haystack@.len()
                &&& haystack@[i as int] == needle1 || haystack@[i as int] == needle2
                &&& forall|j: int|
                    0 <= j < i ==> #[trigger] haystack@[j] != needle1 && haystack@[j] != needle2
            },
            None => forall|j: int|
                0 <= j < haystack@.len() ==> #[trigger] haystack@[j] != needle1 && haystack@[j]
                    != needle2,
        },
;

/// Specifies `memchr::memchr3`: it returns the index of the first byte of `haystack` that is
/// one of the three needles, and `None` if there is none.
pub assume_specification[ memchr::memchr3 ](
    needle1: u8,
    needle2: u8,
    needle3: u8,
    haystack: &[u8],
) -> (r: Option<usize>)
    ensures
        match r {
            Some(i) => {
                &&& i < haystack@.len()
                &&& haystack@[i as int] == needle1 || haystack@[i as int] == needle2
                    || haystack@[i as int] == needle3
                &&& forall|j: int|
                    0 <= j < i ==> #[trigger] haystack@[j] != needle1 && haystack@[j] != needle2
                        && haystack@[j] != needle3
            },
            None => forall|j: int|
                0 <= j < haystack@.len() ==> #[trigger] haystack@[j] != needle1 && haystack@[j]
                    != needle2 && haystack@[j] != needle3,
        },
;

} // verus!
