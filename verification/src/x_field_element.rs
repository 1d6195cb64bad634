//! Elements of the extension field, with the arithmetic of the `twenty_first` crate.
use crate::field_model;
use crate::field_model::Xf;
use crate::field_model::P;
use twenty_first::shared_math::traits::FiniteField;
use twenty_first::shared_math::traits::Inverse;
use twenty_first::shared_math::traits::ModPowU32;
use vstd::prelude::*;

verus! {

/// An element of the extension field, held by its three reduced coefficients, that of `x^0` first.
#[derive(Clone, Copy, Debug, PartialEq, Eq, Hash)]
pub struct XFieldElement {
    pub(crate) coefficients: [u64; 3],
}

impl View for XFieldElement {
    type V = Xf;

    closed spec fn view(&self) -> Xf {
        Xf::reduce(self.raw())
    }
}

impl XFieldElement {
    /// The elements that a sequence denotes.
    pub open spec fn views(s: Seq<XFieldElement>) -> Seq<Xf> {
        s.map_values(|x: XFieldElement| x@)
    }

    /// The coefficients as they are held.
    closed spec fn raw(self) -> Xf {
        Xf {
            c0: self.coefficients[0] as int,
            c1: self.coefficients[1] as int,
            c2: self.coefficients[2] as int,
        }
    }

    /// Every coefficient is below the field's order.
    #[verifier::type_invariant]
    closed spec fn reduced(self) -> bool {
        self.raw().canonical()
    }

    /// What an element denotes is reduced.
    pub proof fn lemma_canonical(x: XFieldElement)
        ensures
            x@.canonical(),
    {
        field_model::lemma_reduce(x.raw());
    }

    /// The element `c[2] * x^2 + c[1] * x + c[0]`.
    pub fn new(c: [u64; 3]) -> (r: XFieldElement)
        ensures
            r@ == Xf::reduce(Xf { c0: c[0] as int, c1: c[1] as int, c2: c[2] as int }),
            r@.canonical(),
    {
        proof {
            field_model::lemma_reduce(Xf { c0: c[0] as int, c1: c[1] as int, c2: c[2] as int });
        }
        XFieldElement { coefficients: [c[0] % P, c[1] % P, c[2] % P] }
    }

    /// The field's one.
    pub fn one() -> (r: XFieldElement)
        ensures
            r@ == Xf::one(),
    {
        proof {
            field_model::lemma_reduce(Xf::one());
        }
        XFieldElement { coefficients: [1, 0, 0] }
    }

    /// The three reduced coefficients, that of `x^0` first.
    pub fn coefficients(&self) -> (r: [u64; 3])
        ensures
            (Xf { c0: r[0] as int, c1: r[1] as int, c2: r[2] as int }) == self@,
            self@.canonical(),
    {
        proof {
            use_type_invariant(self);
            field_model::lemma_reduce(self.raw());
        }
        self.coefficients
    }

    /// Whether this is the field's zero.
    pub fn is_zero(&self) -> (r: bool)
        ensures
            r == (self@ == Xf::zero()),
    {
        proof {
            use_type_invariant(self);
            field_model::lemma_reduce(self.raw());
        }
        self.coefficients[0] == 0 && self.coefficients[1] == 0 && self.coefficients[2] == 0
    }

    /// Calls `Sub::sub` of `twenty_first`'s `XFieldElement`, which subtracts coefficient by
    /// coefficient in the base field.
    #[verifier::external_body]
    pub(crate) fn sub(&self, other: &XFieldElement) -> (r: XFieldElement)
        ensures
            r@ == Xf::sub(self@, other@),
    {
        let lhs = twenty_first::shared_math::x_field_element::XFieldElement::new_u64(self.coefficients);
        let rhs = twenty_first::shared_math::x_field_element::XFieldElement::new_u64(other.coefficients);
        XFieldElement { coefficients: (lhs - rhs).coefficients.map(|c| c.value()) }
    }

    /// Calls `Mul::mul` of `twenty_first`'s `XFieldElement`, which multiplies the two as polynomials
    /// modulo `x^3 - x + 1` over the base field.
    #[verifier::external_body]
    pub(crate) fn mul(&self, other: &XFieldElement) -> (r: XFieldElement)
        ensures
            r@ == Xf::mul(self@, other@),
    {
        let lhs = twenty_first::shared_math::x_field_element::XFieldElement::new_u64(self.coefficients);
        let rhs = twenty_first::shared_math::x_field_element::XFieldElement::new_u64(other.coefficients);
        XFieldElement { coefficients: (lhs * rhs).coefficients.map(|c| c.value()) }
    }

    /// Calls `ModPowU32::mod_pow_u32` of `twenty_first`'s `XFieldElement`: the element to the power
    /// of `exp`, where the zeroth power is one.
    #[verifier::external_body]
    pub(crate) fn mod_pow_u32(&self, exp: u32) -> (r: XFieldElement)
        ensures
            r@ == Xf::pow(self@, exp as nat),
    {
        let base = twenty_first::shared_math::x_field_element::XFieldElement::new_u64(self.coefficients);
        XFieldElement { coefficients: base.mod_pow_u32(exp).coefficients.map(|c| c.value()) }
    }

    /// Calls `Inverse::inverse` of `twenty_first`'s `XFieldElement`: the Bezout coefficient of the
    /// element against `x^3 - x + 1`, which is the inverse of every element but zero. For zero the
    /// coefficient is zero.
    #[verifier::external_body]
    fn inverse_unchecked(&self) -> (r: XFieldElement)
        ensures
            self@ == Xf::zero() ==> r@ == Xf::zero(),
            self@ != Xf::zero() ==> Xf::is_inverse(self@, r@),
    {
        let element = twenty_first::shared_math::x_field_element::XFieldElement::new_u64(self.coefficients);
        XFieldElement { coefficients: element.inverse().coefficients.map(|c| c.value()) }
    }

    /// The inverse of the element; zero for zero.
    pub(crate) fn inverse(&self) -> (r: XFieldElement)
        ensures
            self@ == Xf::zero() ==> r@ == Xf::zero(),
            self@ != Xf::zero() ==> Xf::mul(r@, self@) == Xf::one(),
            r@ == Xf::inv(self@),
    {
        let r = self.inverse_unchecked();
        proof {
            if self@ != Xf::zero() {
                field_model::lemma_inverse_unique(self@, r@);
            }
        }
        r
    }

    /// Calls `FiniteField::batch_inversion` of `twenty_first`'s `XFieldElement`, which inverts
    /// every element of the input, in the input's order, and panics where one is zero.
    #[verifier::external_body]
    fn batch_inversion_unchecked(input: &Vec<XFieldElement>) -> (r: Vec<XFieldElement>)
        requires
            forall|i: int| 0 <= i < input@.len() ==> (#[trigger] input@[i])@ != Xf::zero(),
        ensures
            r@.len() == input@.len(),
            forall|i: int|
                0 <= i < input@.len() ==> Xf::is_inverse(input@[i]@, (#[trigger] r@[i])@),
    {
        let elements = input
            .iter()
            .map(|x| twenty_first::shared_math::x_field_element::XFieldElement::new_u64(x.coefficients))
            .collect();
        twenty_first::shared_math::x_field_element::XFieldElement::batch_inversion(elements)
            .iter()
            .map(|x| XFieldElement { coefficients: x.coefficients.map(|c| c.value()) })
            .collect()
    }

    /// The inverses of the elements of `input`, none of which may be zero.
    pub fn batch_inversion(input: &Vec<XFieldElement>) -> (r: Vec<XFieldElement>)
        requires
            forall|i: int| 0 <= i < input@.len() ==> (#[trigger] input@[i])@ != Xf::zero(),
        ensures
            r@.len() == input@.len(),
            forall|i: int|
                0 <= i < input@.len() ==> (#[trigger] r@[i])@ == Xf::inv(input@[i]@)
                    && Xf::mul(r@[i]@, input@[i]@) == Xf::one(),
    {
        let r = XFieldElement::batch_inversion_unchecked(input);
        proof {
            assert forall|i: int| 0 <= i < input@.len() implies (#[trigger] r@[i])@ == Xf::inv(
                input@[i]@,
            ) && Xf::mul(r@[i]@, input@[i]@) == Xf::one() by {
                field_model::lemma_inverse_unique(input@[i]@, r@[i]@);
            }
        }
        r
    }
}

} // verus!
