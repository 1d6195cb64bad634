//! The domain over which codewords are given.
use crate::b_field_element::BFieldElement;
use crate::field_model;
use crate::field_model::Xf;
use crate::interpolation;
use crate::prime;
use crate::univariate::Univariate;
use crate::x_field_element::XFieldElement;
use vstd::arithmetic::mul::*;
use vstd::arithmetic::power2::*;
use vstd::prelude::*;

verus! {

/// The coset `offset * omega^i`, for `i` below `length`.
#[derive(Clone, Copy, Debug)]
pub struct FriDomain {
    pub offset: BFieldElement,
    pub omega: BFieldElement,
    pub length: usize,
}

impl FriDomain {
    /// The domain's value at `i`.
    pub open spec fn spec_value(self, i: int) -> Xf {
        Xf::mul(Xf::pow(self.omega.lifted(), i as nat), self.offset.lifted())
    }

    /// All values of the domain.
    pub open spec fn spec_values(self) -> Seq<Xf> {
        Seq::new(self.length as nat, |i: int| self.spec_value(i))
    }

    /// The domain is a coset of a group of `length` elements, the length being a power of two.
    pub open spec fn is_coset(self) -> bool {
        &&& 2 <= self.length < 0x1_0000_0000
        &&& exists|k: nat| self.length == #[trigger] pow2(k)
        &&& Xf::pow(self.omega.lifted(), self.length as nat) == Xf::one()
        &&& Xf::pow(self.omega.lifted(), (self.length / 2) as nat) != Xf::one()
        &&& self.offset@ != 0
    }

    /// All values of the domain, in order.
    pub fn domain_values(&self) -> (r: Vec<XFieldElement>)
        ensures
            r@.len() == self.length,
            forall|j: int|
                0 <= j < self.length ==> (#[trigger] r@[j])@ == Xf::mul(
                    Xf::pow(Xf { c0: self.omega@, c1: 0, c2: 0 }, j as nat),
                    Xf { c0: self.offset@, c1: 0, c2: 0 },
                ),
            XFieldElement::views(r@) == self.spec_values(),
    {
        let omega = self.omega.lift();
        let offset = self.offset.lift();
        let mut power = XFieldElement::one();
        let mut r: Vec<XFieldElement> = Vec::new();
        for i in 0..self.length
            invariant
                omega@ == self.omega.lifted(),
                offset@ == self.offset.lifted(),
                power@ == Xf::pow(self.omega.lifted(), i as nat),
                r@.len() == i,
                forall|j: int| 0 <= j < i ==> (#[trigger] r@[j])@ == self.spec_value(j),
        {
            r.push(power.mul(&offset));
            power = power.mul(&omega);
        }
        assert(XFieldElement::views(r@) =~= self.spec_values());
        r
    }

    /// `p` has as many coefficients as the domain has values, and the `i`-th of `values` at the
    /// domain's value at `i`.
    pub open spec fn is_interpolant(self, values: Seq<Xf>, p: Seq<Xf>) -> bool {
        &&& p.len() == self.length
        &&& Univariate::canonical(p)
        &&& forall|i: int|
            0 <= i < self.length ==> Univariate::value(p, self.spec_value(i))
                == #[trigger] values[i]
    }

    /// The polynomial that has `values` on the domain, by its coefficients.
    pub open spec fn interpolant(self, values: Seq<Xf>) -> Seq<Xf> {
        choose|p: Seq<Xf>| self.is_interpolant(values, p)
    }

    /// No power of `omega` below that by `length` is one.
    pub proof fn lemma_omega_order(self, m: nat)
        requires
            self.is_coset(),
            0 < m < self.length,
        ensures
            Xf::pow(self.omega.lifted(), m) != Xf::one(),
    {
        let omega = self.omega.lifted();
        let k = choose|k: nat| self.length == #[trigger] pow2(k);
        if k == 0 {
            lemma2_to64();
        }
        lemma_pow2_unfold(k);
        let half = pow2((k - 1) as nat);
        assert(self.length / 2 == half);
        if Xf::pow(omega, m) == Xf::one() {
            let (c, u) = prime::lemma_odd_multiple(m, k);
            field_model::lemma_pow_wraps(omega, m, c, 0);
            field_model::lemma_pow_wraps(omega, self.length as nat, u, half);
            assert(m * c == self.length * u + half) by {
                lemma_mul_is_distributive_add(half as int, (2 * u) as int, 1);
                lemma_mul_is_associative(half as int, 2, u as int);
                lemma_mul_is_commutative(half as int, 2);
            }
            assert(m * c + 0 == m * c);
        }
    }

    /// The powers of `omega` below that by `length` differ.
    pub proof fn lemma_omega_powers_differ(self, i: nat, j: nat)
        requires
            self.is_coset(),
            i < j < self.length,
        ensures
            Xf::pow(self.omega.lifted(), i) != Xf::pow(self.omega.lifted(), j),
    {
        let omega = self.omega.lifted();
        if Xf::pow(omega, i) == Xf::pow(omega, j) {
            // both, times the power that leads back to one
            let back = (self.length - i) as nat;
            let distance = (j - i) as nat;
            field_model::lemma_pow_adds(omega, i, back);
            field_model::lemma_pow_adds(omega, j, back);
            assert(i + back == self.length);
            assert(j + back == self.length * 1 + distance);
            field_model::lemma_pow_wraps(omega, self.length as nat, 1, distance);
            self.lemma_omega_order(distance);
        }
    }

    /// Every domain value is a base element.
    pub proof fn lemma_value_is_base(self, j: int)
        ensures
            self.spec_value(j).is_base(),
            self.spec_value(j).canonical(),
    {
        let omega = self.omega.lifted();
        field_model::lemma_base_powers(omega, j as nat);
        field_model::lemma_base_closed(Xf::pow(omega, j as nat), self.offset.lifted());
    }

    /// The values of a coset are base elements that differ.
    pub proof fn lemma_values_separated(self)
        requires
            self.is_coset(),
        ensures
            interpolation::separated(self.spec_values()),
    {
        let omega = self.omega.lifted();
        let offset = self.offset.lifted();
        let points = self.spec_values();
        BFieldElement::lemma_canonical(self.offset);
        assert forall|i: int| 0 <= i < points.len() implies (#[trigger] points[i]).is_base()
            && points[i].canonical() by {
            field_model::lemma_base_powers(omega, i as nat);
            field_model::lemma_base_closed(Xf::pow(omega, i as nat), offset);
        }
        assert forall|i: int, j: int| 0 <= i < j < points.len() implies #[trigger] points[i]
            != #[trigger] points[j] by {
            let a = Xf::pow(omega, i as nat);
            let b = Xf::pow(omega, j as nat);
            self.lemma_omega_powers_differ(i as nat, j as nat);
            if points[i] == points[j] {
                prime::law_base_elements_have_inverses(offset);
                let inverse = Xf::inv(offset);
                field_model::lemma_mul_commutes(inverse, offset);
                field_model::lemma_mul_associates(a, offset, inverse);
                field_model::lemma_mul_associates(b, offset, inverse);
                field_model::lemma_mul_basics(a);
                field_model::lemma_mul_basics(b);
                field_model::lemma_pow_canonical(omega, i as nat);
                field_model::lemma_pow_canonical(omega, j as nat);
                field_model::lemma_reduce(a);
                field_model::lemma_reduce(b);
            }
        }
    }

    /// Over a coset there is at most one interpolant.
    pub proof fn law_interpolant_is_unique(self, values: Seq<Xf>, p: Seq<Xf>)
        requires
            self.is_coset(),
            self.is_interpolant(values, p),
        ensures
            self.interpolant(values) == p,
    {
        let q = self.interpolant(values);
        let points = self.spec_values();
        self.lemma_values_separated();
        assert forall|i: int| 0 <= i < points.len() implies Univariate::value(p, #[trigger] points[i])
            == Univariate::value(q, points[i]) by {
            assert(Univariate::value(p, self.spec_value(i)) == values[i]);
            assert(Univariate::value(q, self.spec_value(i)) == values[i]);
        }
        interpolation::law_values_determine_coefficients(p, q, points);
        assert forall|k: int| 0 <= k < p.len() implies p[k] == q[k] by {
            assert(Univariate::coefficient(p, k) == Univariate::coefficient(q, k));
        }
        assert(p =~= q);
    }

    /// Calls `Polynomial::fast_coset_interpolate` of `twenty_first`: the polynomial with as many
    /// coefficients as there are values that has the `i`-th value at `offset * omega^i`. It panics
    /// where `omega` does not generate a group of that many elements, a power of two.
    #[verifier::external_body]
    fn interpolate_unchecked(&self, values: &[XFieldElement]) -> (r: Vec<XFieldElement>)
        requires
            self.is_coset(),
            values@.len() == self.length,
        ensures
            r@.len() == values@.len(),
            forall|i: int|
                0 <= i < values@.len() ==> Univariate::value(
                    XFieldElement::views(r@),
                    self.spec_value(i),
                ) == (#[trigger] values@[i])@,
    {
        let offset = twenty_first::shared_math::b_field_element::BFieldElement::new(self.offset.value);
        let omega = twenty_first::shared_math::b_field_element::BFieldElement::new(self.omega.value);
        let codeword: Vec<_> = values
            .iter()
            .map(|x| twenty_first::shared_math::x_field_element::XFieldElement::new_u64(x.coefficients))
            .collect();
        twenty_first::shared_math::polynomial::Polynomial::fast_coset_interpolate(&offset, omega, &codeword)
            .coefficients
            .iter()
            .map(|x| XFieldElement { coefficients: x.coefficients.map(|c| c.value()) })
            .collect()
    }

    /// The coefficients of the polynomial that has `values` on the domain.
    pub fn interpolate(&self, values: &[XFieldElement]) -> (r: Vec<XFieldElement>)
        requires
            self.is_coset(),
            values@.len() == self.length,
        ensures
            XFieldElement::views(r@) == self.interpolant(XFieldElement::views(values@)),
            self.is_interpolant(XFieldElement::views(values@), XFieldElement::views(r@)),
            r@.len() == self.length,
            forall|i: int|
                0 <= i < self.length ==> Univariate::value(
                    XFieldElement::views(r@),
                    self.spec_value(i),
                ) == (#[trigger] values@[i])@,
    {
        let r = self.interpolate_unchecked(values);
        proof {
            let p = XFieldElement::views(r@);
            assert forall|k: int| 0 <= k < p.len() implies (#[trigger] p[k]).canonical() by {
                XFieldElement::lemma_canonical(r@[k]);
            }
            assert forall|i: int| 0 <= i < self.length implies Univariate::value(
                p,
                self.spec_value(i),
            ) == #[trigger] XFieldElement::views(values@)[i] by {
                assert(values@[i]@ == XFieldElement::views(values@)[i]);
            }
            self.law_interpolant_is_unique(XFieldElement::views(values@), p);
        }
        r
    }
}

/// Calls `Polynomial::degree` of `twenty_first`: the index of the last coefficient other than
/// zero, and `-1` where there is none.
#[verifier::external_body]
pub(crate) fn univariate_degree(coefficients: &[XFieldElement]) -> (r: isize)
    ensures
        r == Univariate::degree(XFieldElement::views(coefficients@)),
{
    let coefficients = coefficients
        .iter()
        .map(|x| twenty_first::shared_math::x_field_element::XFieldElement::new_u64(x.coefficients))
        .collect();
    twenty_first::shared_math::polynomial::Polynomial::new(coefficients).degree()
}

} // verus!
