//! Names of elements.

use vstd::prelude::*;

verus! {

/// A qualified name of an element, as it is written in the document and in the
/// encoding of the document.
#[derive(Clone, Copy, Debug)]
pub struct QName<'a>(pub &'a [u8]);

impl<'a> View for QName<'a> {
    type V = Seq<u8>;

    open spec fn view(&self) -> Seq<u8> {
        self.0@
    }
}

impl<'a> QName<'a> {
    /// Returns the bytes of the name.
    pub fn into_inner(self) -> (r: &'a [u8])
        ensures
            r@ == self@,
    {
        self.0
    }
}

} // verus!
