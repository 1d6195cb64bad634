//! The verifier's random weights.
use crate::x_field_element::XFieldElement;
use vstd::prelude::*;

verus! {

/// All challenges that the constraints of any table depend on.
#[derive(Clone, Debug)]
pub struct AllChallenges {
    pub weights: Vec<XFieldElement>,
}

} // verus!
