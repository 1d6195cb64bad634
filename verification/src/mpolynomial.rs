//! Multivariate polynomials over the extension field.
use crate::field_model;
use crate::field_model::Xf;
use crate::x_field_element::XFieldElement;
use vstd::prelude::*;

verus! {

/// The degree of a polynomial; the zero polynomial has degree `-1`.
pub type Degree = i64;

/// One term: the exponent of every variable, and the coefficient.
#[derive(Clone, Debug)]
pub struct Term {
    pub exponents: Vec<u8>,
    pub coefficient: XFieldElement,
}

/// What a term denotes.
pub struct TermModel {
    pub exponents: Seq<u8>,
    pub coefficient: Xf,
}

impl View for Term {
    type V = TermModel;

    open spec fn view(&self) -> TermModel {
        TermModel { exponents: self.exponents@, coefficient: self.coefficient@ }
    }
}

impl TermModel {
    /// The product of the powers of the variables at `point`.
    pub open spec fn monomial(exponents: Seq<u8>, point: Seq<Xf>) -> Xf
        decreases exponents.len(),
    {
        if exponents.len() == 0 {
            Xf::one()
        } else {
            let last = exponents.len() - 1;
            Xf::mul(
                TermModel::monomial(exponents.drop_last(), point),
                Xf::pow(point[last], exponents[last] as nat),
            )
        }
    }

    /// The term's value at `point`.
    pub open spec fn value(self, point: Seq<Xf>) -> Xf {
        Xf::mul(TermModel::monomial(self.exponents, point), self.coefficient)
    }

    /// The sum of all exponents, each times the degree of what replaces its variable.
    pub open spec fn weighted_degree(exponents: Seq<u8>, degrees: Seq<Degree>) -> int
        decreases exponents.len(),
    {
        if exponents.len() == 0 {
            0
        } else {
            let last = exponents.len() - 1;
            TermModel::weighted_degree(exponents.drop_last(), degrees) + degrees[last]
                * exponents[last]
        }
    }

    /// More exponents only add to the weighted degree, where no degree is negative.
    proof fn lemma_weighted_degree_grows(exponents: Seq<u8>, degrees: Seq<Degree>, n: int)
        requires
            0 <= n <= exponents.len() <= degrees.len(),
            forall|k: int| 0 <= k < degrees.len() ==> #[trigger] degrees[k] >= 0,
        ensures
            TermModel::weighted_degree(exponents.take(n), degrees) <= TermModel::weighted_degree(
                exponents,
                degrees,
            ),
        decreases exponents.len(),
    {
        if n == exponents.len() {
            assert(exponents.take(n) =~= exponents);
        } else {
            let last = exponents.len() - 1;
            TermModel::lemma_weighted_degree_grows(exponents.drop_last(), degrees, n);
            assert(exponents.drop_last().take(n) =~= exponents.take(n));
            assert(degrees[last] * exponents[last] >= 0) by (nonlinear_arith)
                requires
                    degrees[last] >= 0,
                    exponents[last] >= 0,
            ;
        }
    }

    /// Each exponent adds itself, times the degree for its variable, to the weighted degree, and
    /// multiplies the monomial's value by that power of its coordinate.
    pub proof fn law_exponents_act_one_by_one(
        exponents: Seq<u8>,
        exponent: u8,
        degrees: Seq<Degree>,
        point: Seq<Xf>,
    )
        ensures
            TermModel::weighted_degree(Seq::empty(), degrees) == 0,
            TermModel::weighted_degree(exponents.push(exponent), degrees)
                == TermModel::weighted_degree(exponents, degrees) + degrees[exponents.len() as int]
                * exponent,
            TermModel::monomial(Seq::empty(), point) == Xf::one(),
            TermModel::monomial(exponents.push(exponent), point) == Xf::mul(
                TermModel::monomial(exponents, point),
                Xf::pow(point[exponents.len() as int], exponent as nat),
            ),
    {
        assert(exponents.push(exponent).drop_last() =~= exponents);
    }

    /// Each exponent adds to the total degree, and nothing else does.
    pub proof fn law_total_degree_adds(exponents: Seq<u8>, exponent: u8)
        ensures
            TermModel::total_degree(Seq::empty()) == 0,
            TermModel::total_degree(exponents.push(exponent)) == TermModel::total_degree(exponents)
                + exponent,
    {
        assert(exponents.push(exponent).drop_last() =~= exponents);
    }

    /// The sum of all exponents.
    pub open spec fn total_degree(exponents: Seq<u8>) -> nat
        decreases exponents.len(),
    {
        if exponents.len() == 0 {
            0
        } else {
            TermModel::total_degree(exponents.drop_last()) + exponents.last() as nat
        }
    }
}

/// What a polynomial denotes: a sum of terms, over a number of variables.
pub struct PolyModel {
    pub variable_count: nat,
    pub terms: Seq<TermModel>,
}

impl PolyModel {
    /// Every term has `width` exponents.
    pub open spec fn exponents_match(self, width: nat) -> bool {
        forall|i: int|
            0 <= i < self.terms.len() ==> (#[trigger] self.terms[i]).exponents.len() == width
    }

    /// The same polynomial, but for the order of the terms.
    pub open spec fn same_terms(self, other: PolyModel) -> bool {
        &&& self.variable_count == other.variable_count
        &&& self.terms.to_multiset() == other.terms.to_multiset()
    }

    /// The same polynomials, but for the order of their terms.
    pub open spec fn all_same(a: Seq<PolyModel>, b: Seq<PolyModel>) -> bool {
        &&& a.len() == b.len()
        &&& forall|i: int| 0 <= i < a.len() ==> (#[trigger] a[i]).same_terms(b[i])
    }

    /// No two terms have the same exponents.
    pub open spec fn exponents_distinct(self) -> bool {
        forall|i: int, j: int|
            0 <= i < j < self.terms.len() ==> (#[trigger] self.terms[i]).exponents != (
            #[trigger] self.terms[j]).exponents
    }

    /// The sum of the values of the terms at `point`.
    pub open spec fn sum(terms: Seq<TermModel>, point: Seq<Xf>) -> Xf
        decreases terms.len(),
    {
        if terms.len() == 0 {
            Xf::zero()
        } else {
            Xf::add(PolyModel::sum(terms.drop_last(), point), terms.last().value(point))
        }
    }

    /// The polynomial's value at `point`.
    pub open spec fn value(self, point: Seq<Xf>) -> Xf {
        PolyModel::sum(self.terms, point)
    }

    /// Each term adds its value, the monomial's times the coefficient, to that of the polynomial.
    pub proof fn law_terms_add_their_values(self, term: TermModel, point: Seq<Xf>)
        ensures
            (PolyModel { terms: Seq::empty(), ..self }).value(point) == Xf::zero(),
            (PolyModel { terms: self.terms.push(term), ..self }).value(point) == Xf::add(
                self.value(point),
                Xf::mul(TermModel::monomial(term.exponents, point), term.coefficient),
            ),
    {
        assert(self.terms.push(term).drop_last() =~= self.terms);
    }

    /// Values are reduced.
    pub proof fn lemma_value_canonical(self, point: Seq<Xf>)
        ensures
            self.value(point).canonical(),
    {
        if self.terms.len() > 0 {
            field_model::lemma_sub_reduced(
                PolyModel::sum(self.terms.drop_last(), point),
                self.terms.last().value(point),
            );
        }
    }

    /// Taking one term out of a sum and adding it at the end changes nothing.
    proof fn lemma_sum_remove(terms: Seq<TermModel>, i: int, point: Seq<Xf>)
        requires
            0 <= i < terms.len(),
        ensures
            Xf::add(PolyModel::sum(terms.remove(i), point), terms[i].value(point))
                == PolyModel::sum(terms, point),
        decreases terms.len(),
    {
        let rest = terms.drop_last();
        let without = terms.remove(i);
        if i == terms.len() - 1 {
            assert(without =~= rest);
        } else {
            PolyModel::lemma_sum_remove(rest, i, point);
            assert(without.drop_last() =~= rest.remove(i));
            assert(without.last() == terms.last());
            let a = PolyModel::sum(rest.remove(i), point);
            let term = terms[i].value(point);
            let last = terms.last().value(point);
            field_model::lemma_add_exchanges(a, last, term, Xf::zero());
            field_model::lemma_add_zero(term);
            field_model::lemma_add_zero(last);
            field_model::lemma_reduce(
                field_model::zmul(
                    TermModel::monomial(terms[i].exponents, point),
                    terms[i].coefficient,
                ),
            );
            field_model::lemma_reduce(
                field_model::zmul(
                    TermModel::monomial(terms.last().exponents, point),
                    terms.last().coefficient,
                ),
            );
        }
    }

    proof fn lemma_sum_of_same(a: Seq<TermModel>, b: Seq<TermModel>, point: Seq<Xf>)
        requires
            a.to_multiset() == b.to_multiset(),
        ensures
            PolyModel::sum(a, point) == PolyModel::sum(b, point),
        decreases a.len(),
    {
        a.to_multiset_ensures();
        b.to_multiset_ensures();
        if a.len() > 0 {
            let last = a.last();
            assert(a.contains(last));
            assert(b.to_multiset().count(last) > 0);
            assert(b.contains(last));
            let i = choose|i: int| 0 <= i < b.len() && b[i] == last;
            assert(a.remove(a.len() - 1) =~= a.drop_last());
            PolyModel::lemma_sum_of_same(a.drop_last(), b.remove(i), point);
            PolyModel::lemma_sum_remove(b, i, point);
        }
    }

    /// The value of a polynomial does not depend on the order of its terms.
    pub proof fn law_value_ignores_order(self, other: PolyModel, point: Seq<Xf>)
        requires
            self.same_terms(other),
        ensures
            self.value(point) == other.value(point),
    {
        PolyModel::lemma_sum_of_same(self.terms, other.terms, point);
    }

    /// The largest weighted degree among the terms with a coefficient other than zero, at least
    /// `-1`.
    pub open spec fn max_weighted_degree(terms: Seq<TermModel>, degrees: Seq<Degree>) -> int
        decreases terms.len(),
    {
        if terms.len() == 0 {
            -1
        } else {
            let rest = PolyModel::max_weighted_degree(terms.drop_last(), degrees);
            let last = TermModel::weighted_degree(terms.last().exponents, degrees);
            if terms.last().coefficient == Xf::zero() || last <= rest {
                rest
            } else {
                last
            }
        }
    }

    /// An upper bound on the degree after every variable is replaced by a univariate polynomial
    /// of the given degree.
    pub open spec fn degree_bound(self, degrees: Seq<Degree>) -> int {
        PolyModel::max_weighted_degree(self.terms, degrees)
    }

    /// The largest total degree among the terms with a coefficient other than zero; `-1` where there
    /// is no such term.
    pub open spec fn max_total_degree(terms: Seq<TermModel>) -> int
        decreases terms.len(),
    {
        if terms.len() == 0 {
            -1
        } else {
            let rest = PolyModel::max_total_degree(terms.drop_last());
            let last = TermModel::total_degree(terms.last().exponents) as int;
            if terms.last().coefficient == Xf::zero() || last <= rest {
                rest
            } else {
                last
            }
        }
    }

    /// The polynomial's total degree; that of zero is `-1`.
    pub open spec fn degree(self) -> int {
        PolyModel::max_total_degree(self.terms)
    }

    /// Whether the degree bound, and every number summed up on the way, fits a [`Degree`].
    pub open spec fn degree_bound_fits(self, degrees: Seq<Degree>) -> bool {
        &&& degrees.len() == self.variable_count
        &&& forall|i: int| 0 <= i < degrees.len() ==> #[trigger] degrees[i] >= 0
        &&& forall|i: int|
            0 <= i < self.terms.len() && (#[trigger] self.terms[i]).coefficient != Xf::zero()
                ==> TermModel::weighted_degree(self.terms[i].exponents, degrees) <= i64::MAX
    }
}

/// A polynomial in several variables, as a list of terms with distinct exponents.
#[derive(Debug)]
pub struct MPolynomial {
    variable_count: usize,
    terms: Vec<Term>,
}

impl View for MPolynomial {
    type V = PolyModel;

    closed spec fn view(&self) -> PolyModel {
        PolyModel {
            variable_count: self.variable_count as nat,
            terms: self.terms@.map_values(|t: Term| t@),
        }
    }
}

impl MPolynomial {
    /// The polynomials that a sequence denotes.
    pub open spec fn views(s: Seq<MPolynomial>) -> Seq<PolyModel> {
        s.map_values(|p: MPolynomial| p@)
    }

    /// Every term has one exponent for each variable.
    pub open spec fn exponents_match(variable_count: usize, terms: Seq<Term>) -> bool {
        forall|i: int|
            0 <= i < terms.len() ==> (#[trigger] terms[i]).exponents@.len() == variable_count
    }

    /// No two terms have the same exponents.
    pub open spec fn exponents_distinct(terms: Seq<Term>) -> bool {
        forall|i: int, j: int|
            0 <= i < j < terms.len() ==> (#[trigger] terms[i]).exponents@ != (
            #[trigger] terms[j]).exponents@
    }

    #[verifier::type_invariant]
    closed spec fn well_formed(self) -> bool {
        &&& MPolynomial::exponents_match(self.variable_count, self.terms@)
        &&& MPolynomial::exponents_distinct(self.terms@)
    }

    /// The polynomial with the given terms, unless a term has not one exponent for each variable,
    /// or two terms have the same exponents.
    pub fn new(variable_count: usize, terms: Vec<Term>) -> (r: Option<MPolynomial>)
        ensures
            r is Some <==> {
                &&& forall|i: int|
                    0 <= i < terms@.len() ==> (#[trigger] terms@[i]).exponents@.len()
                        == variable_count
                &&& forall|i: int, j: int|
                    0 <= i < j < terms@.len() ==> (#[trigger] terms@[i]).exponents@ != (
                    #[trigger] terms@[j]).exponents@
            },
            r is Some ==> r->0@.variable_count == variable_count && r->0@.terms.len()
                == terms@.len() && forall|i: int|
                0 <= i < terms@.len() ==> (#[trigger] r->0@.terms[i]).exponents
                    == terms@[i].exponents@ && r->0@.terms[i].coefficient
                    == terms@[i].coefficient@,
            r is Some <==> MPolynomial::exponents_match(variable_count, terms@)
                && MPolynomial::exponents_distinct(terms@),
            r is Some ==> r->0@ == (PolyModel {
                variable_count: variable_count as nat,
                terms: terms@.map_values(|t: Term| t@),
            }),
    {
        for i in 0..terms.len()
            invariant
                forall|k: int|
                    0 <= k < i ==> (#[trigger] terms@[k]).exponents@.len() == variable_count,
                forall|k: int, l: int|
                    0 <= k < l < i ==> (#[trigger] terms@[k]).exponents@ != (
                    #[trigger] terms@[l]).exponents@,
        {
            if terms[i].exponents.len() != variable_count {
                return None;
            }
            for j in 0..i
                invariant
                    i < terms@.len(),
                    forall|k: int|
                        0 <= k < j ==> (#[trigger] terms@[k]).exponents@
                            != terms@[i as int].exponents@,
            {
                if MPolynomial::same_exponents(&terms[j].exponents, &terms[i].exponents) {
                    return None;
                }
            }
        }
        Some(MPolynomial { variable_count, terms })
    }

    /// The number of variables. Every term has one exponent for each, and no two terms have the same.
    pub fn variable_count(&self) -> (r: usize)
        ensures
            r == self@.variable_count,
            self@.exponents_match(self@.variable_count),
            self@.exponents_distinct(),
    {
        proof {
            use_type_invariant(self);
        }
        self.variable_count
    }

    /// Whether two lists of exponents are the same.
    fn same_exponents(a: &Vec<u8>, b: &Vec<u8>) -> (r: bool)
        ensures
            r == (a@ == b@),
    {
        if a.len() != b.len() {
            return false;
        }
        for i in 0..a.len()
            invariant
                a@.len() == b@.len(),
                forall|k: int| 0 <= k < i ==> a@[k] == b@[k],
        {
            if a[i] != b[i] {
                return false;
            }
        }
        assert(a@ =~= b@);
        true
    }

    /// Whether [`MPolynomial::symbolic_degree_bound`] can be computed: there is one degree for each
    /// variable, none is negative, and no number on the way exceeds the largest [`Degree`].
    pub fn degree_bound_fits(&self, max_degrees: &[Degree]) -> (r: bool)
        ensures
            r <==> {
                &&& max_degrees@.len() == self@.variable_count
                &&& forall|i: int| 0 <= i < max_degrees@.len() ==> #[trigger] max_degrees@[i] >= 0
                &&& forall|i: int|
                    0 <= i < self@.terms.len() && (#[trigger] self@.terms[i]).coefficient
                        != Xf::zero() ==> TermModel::weighted_degree(
                        self@.terms[i].exponents,
                        max_degrees@,
                    ) <= i64::MAX
            },
            r == self@.degree_bound_fits(max_degrees@),
    {
        proof {
            use_type_invariant(self);
        }
        if max_degrees.len() != self.variable_count {
            return false;
        }
        for i in 0..max_degrees.len()
            invariant
                forall|k: int| 0 <= k < i ==> #[trigger] max_degrees@[k] >= 0,
        {
            if max_degrees[i] < 0 {
                return false;
            }
        }
        for i in 0..self.terms.len()
            invariant
                MPolynomial::exponents_match(self.variable_count, self.terms@),
                max_degrees@.len() == self.variable_count,
                forall|k: int| 0 <= k < max_degrees@.len() ==> #[trigger] max_degrees@[k] >= 0,
                forall|k: int|
                    0 <= k < i && (#[trigger] self@.terms[k]).coefficient != Xf::zero()
                        ==> TermModel::weighted_degree(self@.terms[k].exponents, max_degrees@)
                        <= i64::MAX,
        {
            let term = &self.terms[i];
            assert(self@.terms[i as int] == term@);
            if !term.coefficient.is_zero() && !MPolynomial::weighted_degree_fits(
                &term.exponents,
                max_degrees,
            ) {
                return false;
            }
        }
        true
    }

    /// Whether the weighted degree of a term fits a [`Degree`].
    fn weighted_degree_fits(exponents: &Vec<u8>, degrees: &[Degree]) -> (r: bool)
        requires
            exponents@.len() == degrees@.len(),
            forall|k: int| 0 <= k < degrees@.len() ==> #[trigger] degrees@[k] >= 0,
        ensures
            r == (TermModel::weighted_degree(exponents@, degrees@) <= i64::MAX),
    {
        let mut sum: i128 = 0;
        for i in 0..exponents.len()
            invariant
                exponents@.len() == degrees@.len(),
                forall|k: int| 0 <= k < degrees@.len() ==> #[trigger] degrees@[k] >= 0,
                0 <= sum <= i64::MAX,
                sum == TermModel::weighted_degree(exponents@.take(i as int), degrees@),
        {
            assert(exponents@.take(i + 1).drop_last() =~= exponents@.take(i as int));
            assert(0 <= degrees@[i as int] * exponents@[i as int] <= i64::MAX * 255)
                by (nonlinear_arith)
                requires
                    0 <= degrees@[i as int] <= i64::MAX,
                    0 <= exponents@[i as int] <= 255,
            ;
            sum = sum + degrees[i] as i128 * exponents[i] as i128;
            if sum > i64::MAX as i128 {
                proof {
                    TermModel::lemma_weighted_degree_grows(exponents@, degrees@, i + 1);
                }
                return false;
            }
        }
        assert(exponents@.take(exponents@.len() as int) =~= exponents@);
        true
    }

    /// Calls `MPolynomial::evaluate` of `twenty_first`: the sum of all terms, each the product of
    /// its coefficient and the powers of the point's coordinates. It panics where the point has
    /// not one coordinate for each variable.
    #[verifier::external_body]
    pub(crate) fn evaluate(&self, point: &[XFieldElement]) -> (r: XFieldElement)
        requires
            point@.len() == self@.variable_count,
        ensures
            r@ == self@.value(XFieldElement::views(point@)),
    {
        let new = |x: XFieldElement| twenty_first::shared_math::x_field_element::XFieldElement::new_u64(x.coefficients);
        let poly = twenty_first::shared_math::mpolynomial::MPolynomial {
            variable_count: self.variable_count,
            coefficients: self.terms.iter().map(|t| (t.exponents.clone(), new(t.coefficient))).collect(),
        };
        let coordinates: Vec<_> = point.iter().map(|x| new(*x)).collect();
        XFieldElement { coefficients: poly.evaluate(&coordinates).coefficients.map(|c| c.value()) }
    }

    /// Calls `MPolynomial::symbolic_degree_bound` of `twenty_first`: the largest sum of exponents,
    /// each times the degree given for its variable, over the terms with a coefficient other than
    /// zero; `-1` where there is no such term. It panics where there is not one degree for each
    /// variable, and where a sum overflows.
    #[verifier::external_body]
    pub(crate) fn symbolic_degree_bound(&self, max_degrees: &[Degree]) -> (r: Degree)
        requires
            self@.degree_bound_fits(max_degrees@),
        ensures
            r == self@.degree_bound(max_degrees@),
    {
        let new = |x: XFieldElement| twenty_first::shared_math::x_field_element::XFieldElement::new_u64(x.coefficients);
        let poly = twenty_first::shared_math::mpolynomial::MPolynomial {
            variable_count: self.variable_count,
            coefficients: self.terms.iter().map(|t| (t.exponents.clone(), new(t.coefficient))).collect(),
        };
        poly.symbolic_degree_bound(max_degrees)
    }
}

} // verus!
