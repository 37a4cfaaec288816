//! Digests of five field elements.

use vstd::prelude::*;

use crate::b_field_element::BFieldElement;

verus! {

/// A digest.
#[derive(Clone, Copy, Debug, PartialEq, Eq)]
pub struct Digest(pub [BFieldElement; 5]);

impl View for Digest {
    type V = Seq<BFieldElement>;

    open spec fn view(&self) -> Seq<BFieldElement> {
        self.0@
    }
}

} // verus!
