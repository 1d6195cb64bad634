//! Constraints with a univariate polynomial in place of each variable.
use crate::degree_bounds;
use crate::field_model;
use crate::field_model::Xf;
use crate::mpolynomial::Degree;
use crate::mpolynomial::PolyModel;
use crate::mpolynomial::TermModel;
use crate::quotients;
use crate::univariate;
use crate::univariate::Univariate;
use vstd::arithmetic::mul::*;
use vstd::prelude::*;

verus! {

/// The product of the powers of the columns.
pub open spec fn compose_monomial(exponents: Seq<u8>, columns: Seq<Seq<Xf>>) -> Seq<Xf>
    decreases exponents.len(),
{
    if exponents.len() == 0 {
        seq![Xf::one()]
    } else {
        let last = exponents.len() - 1;
        Univariate::mul(
            compose_monomial(exponents.drop_last(), columns),
            Univariate::pow(columns[last], exponents[last] as nat),
        )
    }
}

/// A term with the columns in place of the variables.
pub open spec fn compose_term(term: TermModel, columns: Seq<Seq<Xf>>) -> Seq<Xf> {
    Univariate::mul(compose_monomial(term.exponents, columns), seq![term.coefficient])
}

/// A sum of terms with the columns in place of the variables.
pub open spec fn compose_sum(terms: Seq<TermModel>, columns: Seq<Seq<Xf>>) -> Seq<Xf>
    decreases terms.len(),
{
    if terms.len() == 0 {
        Seq::empty()
    } else {
        Univariate::add(compose_sum(terms.drop_last(), columns), compose_term(terms.last(), columns))
    }
}

/// A constraint with the columns, polynomials in one variable, in place of its variables.
pub open spec fn compose(constraint: PolyModel, columns: Seq<Seq<Xf>>) -> Seq<Xf> {
    compose_sum(constraint.terms, columns)
}

/// The values of all columns at `x`: the row there.
pub open spec fn row_at(columns: Seq<Seq<Xf>>, x: Xf) -> Seq<Xf> {
    Seq::new(columns.len(), |k: int| Univariate::value(columns[k], x))
}

/// The values of all constraints of the columns, at each of `points`.
pub open spec fn values_at(
    constraints: Seq<PolyModel>,
    columns: Seq<Seq<Xf>>,
    points: Seq<Xf>,
) -> Seq<Seq<Xf>> {
    Seq::new(
        points.len(),
        |k: int| quotients::evaluations(constraints, row_at(columns, points[k])),
    )
}

/// The columns, followed by the same columns one step of the trace further on.
pub open spec fn transition_columns(columns: Seq<Seq<Xf>>, omicron: Xf) -> Seq<Seq<Xf>> {
    columns + Seq::new(columns.len(), |k: int| Univariate::stretch(columns[k], omicron))
}

/// No column has a degree above the one given for it.
pub open spec fn columns_bounded(columns: Seq<Seq<Xf>>, degrees: Seq<Degree>) -> bool {
    &&& columns.len() == degrees.len()
    &&& forall|k: int|
        0 <= k < columns.len() ==> Univariate::degree_at_most(
            #[trigger] columns[k],
            degrees[k] as int,
        ) && degrees[k] >= 0
}

/// No column has a degree above `degree`.
pub open spec fn degrees_at_most(columns: Seq<Seq<Xf>>, degree: int) -> bool {
    forall|k: int|
        0 <= k < columns.len() ==> Univariate::degree_at_most(#[trigger] columns[k], degree)
}

/// Columns that all have at most one degree are bounded by it, each on its own.
pub(crate) proof fn lemma_uniformly_bounded(columns: Seq<Seq<Xf>>, degree: int)
    requires
        degrees_at_most(columns, degree),
        0 <= degree <= i64::MAX,
    ensures
        columns_bounded(columns, degree_bounds::uniform(columns.len(), degree)),
{
    let degrees = degree_bounds::uniform(columns.len(), degree);
    assert forall|k: int| 0 <= k < columns.len() implies Univariate::degree_at_most(
        #[trigger] columns[k],
        degrees[k] as int,
    ) && degrees[k] >= 0 by {
        assert(Univariate::degree_at_most(columns[k], degree));
    }
}

proof fn lemma_monomial_value(exponents: Seq<u8>, columns: Seq<Seq<Xf>>, x: Xf)
    requires
        exponents.len() <= columns.len(),
    ensures
        Univariate::value(compose_monomial(exponents, columns), x) == TermModel::monomial(
            exponents,
            row_at(columns, x),
        ),
    decreases exponents.len(),
{
    if exponents.len() == 0 {
        univariate::lemma_value_constant(Xf::one(), x);
        field_model::lemma_reduce(Xf::one());
    } else {
        let last = exponents.len() - 1;
        let rest = exponents.drop_last();
        lemma_monomial_value(rest, columns, x);
        univariate::lemma_value_pow(columns[last], exponents[last] as nat, x);
        univariate::lemma_value_mul(
            compose_monomial(rest, columns),
            Univariate::pow(columns[last], exponents[last] as nat),
            x,
        );
    }
}

proof fn lemma_sum_value(terms: Seq<TermModel>, columns: Seq<Seq<Xf>>, x: Xf)
    requires
        forall|i: int|
            0 <= i < terms.len() ==> (#[trigger] terms[i]).exponents.len() == columns.len(),
    ensures
        Univariate::value(compose_sum(terms, columns), x) == PolyModel::sum(
            terms,
            row_at(columns, x),
        ),
    decreases terms.len(),
{
    if terms.len() > 0 {
        let rest = terms.drop_last();
        let last = terms.last();
        assert(last == terms[terms.len() - 1]);
        assert forall|i: int| 0 <= i < rest.len() implies (#[trigger] rest[i]).exponents.len()
            == columns.len() by {
            assert(rest[i] == terms[i]);
        }
        lemma_sum_value(rest, columns, x);
        univariate::lemma_value_add(compose_sum(rest, columns), compose_term(last, columns), x);
        lemma_monomial_value(last.exponents, columns, x);
        let monomial = compose_monomial(last.exponents, columns);
        univariate::lemma_value_mul(monomial, seq![last.coefficient], x);
        univariate::lemma_value_constant(last.coefficient, x);
        field_model::lemma_mul_reduced(
            TermModel::monomial(last.exponents, row_at(columns, x)),
            last.coefficient,
        );
    }
}

/// Composing and then evaluating is evaluating the constraint at the row of the columns' values.
pub proof fn law_composition_evaluates(constraint: PolyModel, columns: Seq<Seq<Xf>>, x: Xf)
    requires
        constraint.exponents_match(columns.len()),
    ensures
        Univariate::value(compose(constraint, columns), x) == constraint.value(row_at(columns, x)),
{
    lemma_sum_value(constraint.terms, columns, x);
}

proof fn lemma_pow_degree(p: Seq<Xf>, e: nat, n: int)
    requires
        n >= 0,
        Univariate::degree_at_most(p, n),
    ensures
        Univariate::degree_at_most(Univariate::pow(p, e), n * e),
        n * e >= 0,
    decreases e,
{
    if e == 0 {
        assert(n * e == 0);
    } else {
        let fewer = (e - 1) as nat;
        lemma_pow_degree(p, fewer, n);
        lemma_mul_is_distributive_add(n, fewer as int, 1);
        assert(n * e == n * fewer + n);
        univariate::lemma_degree_mul(Univariate::pow(p, fewer), p, n * fewer, n);
    }
}

proof fn lemma_monomial_degree(
    exponents: Seq<u8>,
    columns: Seq<Seq<Xf>>,
    degrees: Seq<Degree>,
)
    requires
        columns_bounded(columns, degrees),
        exponents.len() <= columns.len(),
    ensures
        TermModel::weighted_degree(exponents, degrees) >= 0,
        Univariate::degree_at_most(
            compose_monomial(exponents, columns),
            TermModel::weighted_degree(exponents, degrees),
        ),
    decreases exponents.len(),
{
    if exponents.len() > 0 {
        let last = exponents.len() - 1;
        let rest = exponents.drop_last();
        let exponent = exponents[last] as nat;
        lemma_monomial_degree(rest, columns, degrees);
        assert(Univariate::degree_at_most(columns[last], degrees[last] as int));
        lemma_pow_degree(columns[last], exponent, degrees[last] as int);
        univariate::lemma_degree_mul(
            compose_monomial(rest, columns),
            Univariate::pow(columns[last], exponent),
            TermModel::weighted_degree(rest, degrees),
            degrees[last] * exponent,
        );
    }
}

proof fn lemma_sum_degree(terms: Seq<TermModel>, columns: Seq<Seq<Xf>>, degrees: Seq<Degree>)
    requires
        columns_bounded(columns, degrees),
        forall|i: int|
            0 <= i < terms.len() ==> (#[trigger] terms[i]).exponents.len() == columns.len(),
    ensures
        Univariate::degree_at_most(
            compose_sum(terms, columns),
            PolyModel::max_weighted_degree(terms, degrees),
        ),
        PolyModel::max_weighted_degree(terms, degrees) >= -1,
    decreases terms.len(),
{
    if terms.len() > 0 {
        let rest = terms.drop_last();
        let last = terms.last();
        assert(last == terms[terms.len() - 1]);
        assert forall|i: int| 0 <= i < rest.len() implies (#[trigger] rest[i]).exponents.len()
            == columns.len() by {
            assert(rest[i] == terms[i]);
        }
        lemma_sum_degree(rest, columns, degrees);
        lemma_monomial_degree(last.exponents, columns, degrees);
        lemma_term_degree(last, columns, degrees);
        let bound = PolyModel::max_weighted_degree(terms, degrees);
        let a = compose_sum(rest, columns);
        let b = compose_term(last, columns);
        assert forall|k: int| k > bound implies #[trigger] Univariate::coefficient(
            compose_sum(terms, columns),
            k,
        ) == Xf::zero() by {
            assert(Univariate::coefficient(a, k) == Xf::zero());
            assert(Univariate::coefficient(b, k) == Xf::zero());
            field_model::lemma_add_zero(Xf::zero());
            field_model::lemma_reduce(Xf::zero());
        }
    }
}

/// A term with the columns in place of the variables has at most the weighted degree, and is zero
/// where the coefficient is.
proof fn lemma_term_degree(term: TermModel, columns: Seq<Seq<Xf>>, degrees: Seq<Degree>)
    requires
        columns_bounded(columns, degrees),
        term.exponents.len() <= columns.len(),
    ensures
        Univariate::degree_at_most(
            compose_term(term, columns),
            if term.coefficient == Xf::zero() {
                -1
            } else {
                TermModel::weighted_degree(term.exponents, degrees)
            },
        ),
{
    let monomial = compose_monomial(term.exponents, columns);
    lemma_monomial_degree(term.exponents, columns, degrees);
    assert(Univariate::degree_at_most(seq![term.coefficient], 0));
    if term.coefficient == Xf::zero() {
        lemma_times_zero(monomial);
    } else {
        univariate::lemma_degree_mul(
            monomial,
            seq![term.coefficient],
            TermModel::weighted_degree(term.exponents, degrees),
            0,
        );
    }
}

/// A polynomial times zero is zero.
proof fn lemma_times_zero(p: Seq<Xf>)
    ensures
        Univariate::degree_at_most(Univariate::mul(p, seq![Xf::zero()]), -1),
    decreases p.len(),
{
    if p.len() > 0 {
        let q = seq![Xf::zero()];
        lemma_times_zero(p.drop_first());
        assert forall|k: int| k > -1 implies #[trigger] Univariate::coefficient(
            Univariate::mul(p, q),
            k,
        ) == Xf::zero() by {
            univariate::lemma_product_coefficient(p, q, k);
            assert(Univariate::coefficient(Univariate::mul(p.drop_first(), q), k - 1)
                == Xf::zero());
            field_model::lemma_mul_basics(p[0]);
            field_model::lemma_add_zero(Xf::zero());
            field_model::lemma_reduce(Xf::zero());
        }
    }
}

/// What composing yields has reduced coefficients.
pub proof fn lemma_composition_canonical(constraint: PolyModel, columns: Seq<Seq<Xf>>)
    ensures
        Univariate::canonical(compose(constraint, columns)),
{
    let terms = constraint.terms;
    let composed = compose(constraint, columns);
    assert forall|k: int| 0 <= k < composed.len() implies (#[trigger] composed[k]).canonical() by {
        field_model::lemma_sub_reduced(
            Univariate::coefficient(compose_sum(terms.drop_last(), columns), k),
            Univariate::coefficient(compose_term(terms.last(), columns), k),
        );
    }
}

/// The degree bound of a constraint bounds the degree of what composing it with columns of the given
/// degrees yields.
pub proof fn law_composition_degree(
    constraint: PolyModel,
    columns: Seq<Seq<Xf>>,
    degrees: Seq<Degree>,
)
    requires
        constraint.exponents_match(columns.len()),
        columns_bounded(columns, degrees),
    ensures
        Univariate::degree(compose(constraint, columns)) <= constraint.degree_bound(degrees),
        Univariate::degree_at_most(
            compose(constraint, columns),
            constraint.degree_bound(degrees),
        ),
        constraint.degree_bound(degrees) >= -1,
{
    lemma_sum_degree(constraint.terms, columns, degrees);
    univariate::lemma_degree(
        compose(constraint, columns),
        constraint.degree_bound(degrees),
    );
}

} // verus!
