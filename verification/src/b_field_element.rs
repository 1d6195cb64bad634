//! Elements of the base field.
use crate::field_model;
use crate::field_model::Xf;
use crate::field_model::P;
use crate::x_field_element::XFieldElement;
use vstd::prelude::*;

verus! {

/// An element of the base field, held by its reduced value.
#[derive(Clone, Copy, Debug, PartialEq, Eq, Hash)]
pub struct BFieldElement {
    pub(crate) value: u64,
}

impl View for BFieldElement {
    type V = int;

    closed spec fn view(&self) -> int {
        self.value as int % (P as int)
    }
}

impl BFieldElement {
    /// The value is below the field's order.
    #[verifier::type_invariant]
    closed spec fn reduced(self) -> bool {
        self.value < P
    }

    /// What an element denotes is reduced.
    pub proof fn lemma_canonical(x: BFieldElement)
        ensures
            0 <= x@ < P,
    {
    }

    /// The element of the extension field that has this value as its constant coefficient.
    pub open spec fn lifted(self) -> Xf {
        Xf { c0: self@, c1: 0, c2: 0 }
    }

    /// The element that `value` is congruent to.
    pub fn new(value: u64) -> (r: BFieldElement)
        ensures
            r@ == value as int % (P as int),
    {
        BFieldElement { value: value % P }
    }

    /// The reduced value.
    pub fn value(&self) -> (r: u64)
        ensures
            r == self@,
            r < P,
    {
        proof {
            use_type_invariant(self);
        }
        self.value
    }

    /// The same element in the extension field.
    pub fn lift(&self) -> (r: XFieldElement)
        ensures
            r@ == (Xf { c0: self@, c1: 0, c2: 0 }),
            r@ == self.lifted(),
    {
        proof {
            use_type_invariant(self);
            field_model::lemma_reduce(self.lifted());
        }
        XFieldElement::new([self.value, 0, 0])
    }
}

} // verus!
