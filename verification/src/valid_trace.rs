//! Traces that satisfy the constraints, and the degrees of their quotients.
use crate::composition;
use crate::degree_bounds;
use crate::extension_table;
use crate::extension_table::Evaluable;
use crate::extension_table::ExtensionTable;
use crate::extension_table::StoresConstraints;
use crate::field_model;
use crate::field_model::Xf;
use crate::fri_domain::FriDomain;
use crate::interpolation;
use crate::laws;
use crate::mpolynomial::Degree;
use crate::mpolynomial::MPolynomial;
use crate::mpolynomial::PolyModel;
use crate::prime;
use crate::quotients;
use crate::table_collection;
use crate::univariate;
use crate::univariate::Univariate;
use vstd::arithmetic::div_mod::*;
use vstd::arithmetic::mul::*;
use vstd::arithmetic::power2::*;
use vstd::prelude::*;

verus! {

/// The domain values of the rows of a trace: the first `height` powers of `omicron`.
pub open spec fn trace_domain(omicron: Xf, height: nat) -> Seq<Xf> {
    Seq::new(height, |t: int| Xf::pow(omicron, t as nat))
}

/// The domain is a coset, made of cosets of the trace's domain, which `omicron` generates.
pub open spec fn extends_trace(fri_domain: FriDomain, omicron: Xf, padded_height: usize) -> bool {
    &&& fri_domain.is_coset()
    &&& padded_height > 0
    &&& fri_domain.length % padded_height == 0
    &&& omicron == Xf::pow(
        fri_domain.omega.lifted(),
        (fri_domain.length as int / padded_height as int) as nat,
    )
}

/// All constraints hold at a row.
pub open spec fn hold_at(constraints: Seq<PolyModel>, row: Seq<Xf>) -> bool {
    forall|i: int|
        0 <= i < constraints.len() ==> (#[trigger] constraints[i]).value(row) == Xf::zero()
}

/// The columns, polynomials whose values at the powers of `omicron` make up the rows of a trace,
/// satisfy all constraints that the table hands out for the given weights.
pub open spec fn is_valid<T: ExtensionTable + ?Sized>(
    table: &T,
    weights: Seq<Xf>,
    columns: Seq<Seq<Xf>>,
    omicron: Xf,
    height: nat,
) -> bool {
    let trace = trace_domain(omicron, height);
    &&& hold_at(table.initial_constraints_for(weights), composition::row_at(columns, trace[0]))
    &&& forall|t: int|
        0 <= t < height ==> hold_at(
            table.consistency_constraints_for(weights),
            composition::row_at(columns, #[trigger] trace[t]),
        )
    &&& forall|t: int|
        0 <= t < height - 1 ==> hold_at(
            table.transition_constraints_for(weights),
            composition::row_at(columns, #[trigger] trace[t]) + composition::row_at(
                columns,
                trace[t + 1],
            ),
        )
    &&& hold_at(
        table.terminal_constraints_for(weights),
        composition::row_at(columns, trace[height - 1]),
    )
}

/// The table evaluates the constraints that it hands out, at rows of its own width.
pub open spec fn evaluates_its_constraints<T: Evaluable + ?Sized>(
    table: &T,
    weights: Seq<Xf>,
) -> bool {
    let width = table.table().full_width;
    &&& table.initial_count() == table.initial_constraints_for(weights).len()
    &&& forall|row: Seq<Xf>|
        row.len() == width ==> #[trigger] table.initial_values(row, weights)
            == quotients::evaluations(table.initial_constraints_for(weights), row)
    &&& table.consistency_count() == table.consistency_constraints_for(weights).len()
    &&& forall|row: Seq<Xf>|
        row.len() == width ==> #[trigger] table.consistency_values(row, weights)
            == quotients::evaluations(table.consistency_constraints_for(weights), row)
    &&& table.transition_count() == table.transition_constraints_for(weights).len()
    &&& forall|current_row: Seq<Xf>, next_row: Seq<Xf>|
        current_row.len() == width && next_row.len() == width
            ==> #[trigger] table.transition_values(current_row, next_row, weights)
            == quotients::evaluations(
            table.transition_constraints_for(weights),
            current_row + next_row,
        )
    &&& table.terminal_count() == table.terminal_constraints_for(weights).len()
    &&& forall|row: Seq<Xf>|
        row.len() == width ==> #[trigger] table.terminal_values(row, weights)
            == quotients::evaluations(table.terminal_constraints_for(weights), row)
}

/// Constraints that are the same but for the order of their terms have the same values.
proof fn lemma_evaluations_of_same(a: Seq<PolyModel>, b: Seq<PolyModel>, row: Seq<Xf>)
    requires
        PolyModel::all_same(a, b),
    ensures
        quotients::evaluations(a, row) == quotients::evaluations(b, row),
{
    assert forall|i: int| 0 <= i < a.len() implies #[trigger] a[i].value(row) == b[i].value(row) by {
        assert(a[i].same_terms(b[i]));
        a[i].law_value_ignores_order(b[i], row);
    }
    assert(quotients::evaluations(a, row) =~= quotients::evaluations(b, row));
}

/// A table that holds the constraints that it hands out, in whatever order of their terms, evaluates
/// them.
pub proof fn law_stored_constraints_are_evaluated<T: StoresConstraints + ?Sized>(
    table: &T,
    weights: Seq<Xf>,
)
    requires
        PolyModel::all_same(
            MPolynomial::views(table.table().initial_constraints->0@),
            table.initial_constraints_for(weights),
        ),
        PolyModel::all_same(
            MPolynomial::views(table.table().consistency_constraints->0@),
            table.consistency_constraints_for(weights),
        ),
        PolyModel::all_same(
            MPolynomial::views(table.table().transition_constraints->0@),
            table.transition_constraints_for(weights),
        ),
        PolyModel::all_same(
            MPolynomial::views(table.table().terminal_constraints->0@),
            table.terminal_constraints_for(weights),
        ),
    ensures
        evaluates_its_constraints(table, weights),
{
    let initial = MPolynomial::views(table.table().initial_constraints->0@);
    let consistency = MPolynomial::views(table.table().consistency_constraints->0@);
    let transition = MPolynomial::views(table.table().transition_constraints->0@);
    let terminal = MPolynomial::views(table.table().terminal_constraints->0@);
    assert forall|row: Seq<Xf>| #[trigger]
        table.initial_values(row, weights) == quotients::evaluations(
            table.initial_constraints_for(weights),
            row,
        ) by {
        lemma_evaluations_of_same(initial, table.initial_constraints_for(weights), row);
    }
    assert forall|row: Seq<Xf>| #[trigger]
        table.consistency_values(row, weights) == quotients::evaluations(
            table.consistency_constraints_for(weights),
            row,
        ) by {
        lemma_evaluations_of_same(consistency, table.consistency_constraints_for(weights), row);
    }
    assert forall|current_row: Seq<Xf>, next_row: Seq<Xf>| #[trigger]
        table.transition_values(current_row, next_row, weights) == quotients::evaluations(
            table.transition_constraints_for(weights),
            current_row + next_row,
        ) by {
        lemma_evaluations_of_same(
            transition,
            table.transition_constraints_for(weights),
            current_row + next_row,
        );
    }
    assert forall|row: Seq<Xf>| #[trigger]
        table.terminal_values(row, weights) == quotients::evaluations(
            table.terminal_constraints_for(weights),
            row,
        ) by {
        lemma_evaluations_of_same(terminal, table.terminal_constraints_for(weights), row);
    }
}

/// The constraints are in `width` variables, and none has a larger degree bound than the one that
/// stands in for it.
pub open spec fn degrees_agree(
    constraints: Seq<PolyModel>,
    placeholders: Seq<PolyModel>,
    width: nat,
    degree: int,
) -> bool {
    &&& constraints.len() == placeholders.len()
    &&& forall|i: int|
        0 <= i < constraints.len() ==> (#[trigger] constraints[i]).exponents_match(width)
            && constraints[i].degree_bound(degree_bounds::uniform(width, degree))
            <= placeholders[i].degree_bound(degree_bounds::uniform(width, degree))
}

/// The constraints of a table for the given weights have the degrees of those for the placeholder
/// weights.
pub open spec fn all_degrees_agree<T: ExtensionTable + ?Sized>(
    table: &T,
    weights: Seq<Xf>,
    degree: int,
) -> bool {
    let placeholders = table.placeholder_weights();
    let width = table.table().full_width as nat;
    &&& degrees_agree(
        table.initial_constraints_for(weights),
        table.initial_constraints_for(placeholders),
        width,
        degree,
    )
    &&& degrees_agree(
        table.consistency_constraints_for(weights),
        table.consistency_constraints_for(placeholders),
        width,
        degree,
    )
    &&& degrees_agree(
        table.transition_constraints_for(weights),
        table.transition_constraints_for(placeholders),
        2 * width,
        degree,
    )
    &&& degrees_agree(
        table.terminal_constraints_for(weights),
        table.terminal_constraints_for(placeholders),
        width,
        degree,
    )
}

/// The codeword has an interpolant over the domain, and that has at most the degree `bound`, unless
/// the codeword is zero throughout.
pub open spec fn keeps_bound(fri_domain: FriDomain, codeword: Seq<Xf>, bound: int) -> bool {
    &&& fri_domain.is_interpolant(codeword, fri_domain.interpolant(codeword))
    &&& Univariate::degree(fri_domain.interpolant(codeword)) <= bound || is_zero(codeword)
    &&& is_zero(codeword) ==> Univariate::degree(fri_domain.interpolant(codeword)) == -1
}

/// The codeword is zero throughout.
pub open spec fn is_zero(codeword: Seq<Xf>) -> bool {
    forall|j: int| 0 <= j < codeword.len() ==> #[trigger] codeword[j] == Xf::zero()
}

/// Two elements whose products with a base element other than zero are the same are the same.
proof fn lemma_cancel_base(a: Xf, b: Xf, z: Xf)
    requires
        a.canonical(),
        b.canonical(),
        z.canonical(),
        z.is_base(),
        z != Xf::zero(),
        Xf::mul(a, z) == Xf::mul(b, z),
    ensures
        a == b,
{
    prime::law_base_elements_have_inverses(z);
    let inverse = Xf::inv(z);
    field_model::lemma_mul_commutes(inverse, z);
    field_model::lemma_mul_associates(a, z, inverse);
    field_model::lemma_mul_associates(b, z, inverse);
    field_model::lemma_mul_basics(a);
    field_model::lemma_mul_basics(b);
    field_model::lemma_reduce(a);
    field_model::lemma_reduce(b);
}

/// A polynomial of a degree below the domain's length is the interpolant of its values.
pub proof fn lemma_polynomial_is_interpolant(fri_domain: FriDomain, codeword: Seq<Xf>, q: Seq<Xf>)
    requires
        fri_domain.is_coset(),
        codeword.len() == fri_domain.length,
        Univariate::canonical(q),
        Univariate::degree(q) < fri_domain.length,
        forall|j: int|
            0 <= j < codeword.len() ==> #[trigger] codeword[j] == Univariate::value(
                q,
                fri_domain.spec_value(j),
            ),
    ensures
        fri_domain.is_interpolant(codeword, fri_domain.interpolant(codeword)),
        Univariate::degree(fri_domain.interpolant(codeword)) <= Univariate::degree(q),
{
    let n = fri_domain.length as int;
    let padded = Seq::new(n as nat, |k: int| Univariate::coefficient(q, k));
    univariate::lemma_degree_range(q);
    univariate::lemma_degree(q, n - 1);
    assert forall|k: int| #[trigger]
        Univariate::coefficient(padded, k) == Univariate::coefficient(q, k) by {}
    assert forall|k: int| 0 <= k < padded.len() implies (#[trigger] padded[k]).canonical() by {
        if k < q.len() {
            assert(q[k].canonical());
        }
    }
    assert forall|j: int| 0 <= j < n implies Univariate::value(padded, fri_domain.spec_value(j))
        == #[trigger] codeword[j] by {
        univariate::lemma_value_same(padded, q, fri_domain.spec_value(j));
    }
    assert(fri_domain.is_interpolant(codeword, padded));
    fri_domain.law_interpolant_is_unique(codeword, padded);
    let degree = Univariate::degree(q);
    univariate::lemma_degree(q, degree);
    assert forall|k: int| k > degree implies #[trigger] Univariate::coefficient(padded, k)
        == Xf::zero() by {
        assert(Univariate::coefficient(q, k) == Xf::zero());
    }
    univariate::lemma_degree(padded, degree);
}

/// The interpolant of a codeword that is zero throughout is zero.
proof fn lemma_zero_interpolant(fri_domain: FriDomain, codeword: Seq<Xf>)
    requires
        fri_domain.is_coset(),
        codeword.len() == fri_domain.length,
        is_zero(codeword),
    ensures
        Univariate::degree(fri_domain.interpolant(codeword)) == -1,
{
    let empty = Seq::<Xf>::empty();
    assert forall|j: int| 0 <= j < codeword.len() implies #[trigger] codeword[j]
        == Univariate::value(empty, fri_domain.spec_value(j)) by {}
    lemma_polynomial_is_interpolant(fri_domain, codeword, empty);
    univariate::lemma_degree_range(fri_domain.interpolant(codeword));
}

/// At `x`, the dividend is `c` times the zerofier, and the latter is a base element other than zero.
spec fn is_product(c: Xf, zerofier: Seq<Xf>, dividend: Seq<Xf>, x: Xf) -> bool {
    let z = Univariate::value(zerofier, x);
    &&& z.is_base()
    &&& z != Xf::zero()
    &&& Xf::mul(c, z) == Univariate::value(dividend, x)
}

/// `c` is the constraint's value at the row at `x`, divided by the zerofier's, which is a base
/// element other than zero.
spec fn is_divided(
    c: Xf,
    constraint: PolyModel,
    columns: Seq<Seq<Xf>>,
    zerofier: Seq<Xf>,
    x: Xf,
) -> bool {
    let z = Univariate::value(zerofier, x);
    &&& z.is_base()
    &&& z != Xf::zero()
    &&& c == Xf::mul(constraint.value(composition::row_at(columns, x)), Xf::inv(z))
}

/// The same with the zerofier of transition quotients.
spec fn is_transition_divided(
    c: Xf,
    constraint: PolyModel,
    columns: Seq<Seq<Xf>>,
    omicron: Xf,
    height: u32,
    x: Xf,
) -> bool {
    let z = quotients::subgroup_zerofier(x, height);
    &&& z.is_base()
    &&& z != Xf::zero()
    &&& c == Xf::mul(
        constraint.value(composition::row_at(columns, x)),
        Xf::mul(quotients::terminal_zerofier(x, omicron), Xf::inv(z)),
    )
}

/// Where a codeword, times a zerofier, is at every domain value the value of a polynomial that
/// vanishes at all roots of the zerofier, its interpolant has the degree of that polynomial less that
/// of the zerofier.
proof fn lemma_clean_division(
    fri_domain: FriDomain,
    codeword: Seq<Xf>,
    dividend: Seq<Xf>,
    dividend_degree: int,
    zerofier: Seq<Xf>,
    roots: Seq<Xf>,
)
    requires
        fri_domain.is_coset(),
        codeword.len() == fri_domain.length,
        Univariate::canonical(codeword),
        Univariate::canonical(dividend),
        Univariate::degree_at_most(dividend, dividend_degree),
        roots.len() >= 1,
        Univariate::monic(zerofier, roots.len() as int),
        interpolation::separated(roots),
        interpolation::vanishes(zerofier, roots),
        interpolation::vanishes(dividend, roots),
        dividend_degree - roots.len() < fri_domain.length,
        forall|j: int|
            0 <= j < codeword.len() ==> #[trigger] is_product(
                codeword[j],
                zerofier,
                dividend,
                fri_domain.spec_value(j),
            ),
    ensures
        keeps_bound(fri_domain, codeword, dividend_degree - roots.len()),
{
    let m = roots.len() as int;
    let q = interpolation::law_common_roots_divide(dividend, zerofier, roots);
    univariate::lemma_quotient_degree(q, zerofier, dividend, m, dividend_degree);
    assert forall|j: int| 0 <= j < codeword.len() implies #[trigger] codeword[j]
        == Univariate::value(q, fri_domain.spec_value(j)) by {
        let x = fri_domain.spec_value(j);
        let z = Univariate::value(zerofier, x);
        assert(is_product(codeword[j], zerofier, dividend, x));
        univariate::lemma_value_same(Univariate::mul(q, zerofier), dividend, x);
        univariate::lemma_value_mul(q, zerofier, x);
        univariate::lemma_value_canonical(q, x);
        univariate::lemma_value_canonical(zerofier, x);
        lemma_cancel_base(codeword[j], Univariate::value(q, x), z);
    }
    lemma_polynomial_is_interpolant(fri_domain, codeword, q);
    univariate::lemma_degree_range(fri_domain.interpolant(codeword));
    if is_zero(codeword) {
        lemma_zero_interpolant(fri_domain, codeword);
    }
    if Univariate::degree(q) == -1 {
        univariate::lemma_degree(q, -1);
        assert forall|j: int| 0 <= j < codeword.len() implies #[trigger] codeword[j]
            == Xf::zero() by {
            let empty = Seq::<Xf>::empty();
            assert forall|k: int| #[trigger]
                Univariate::coefficient(q, k) == Univariate::coefficient(empty, k) by {}
            univariate::lemma_value_same(q, empty, fri_domain.spec_value(j));
        }
    }
}

/// The product of an element and the inverse of a base element other than zero, times that element.
proof fn lemma_inverse_undone(a: Xf, z: Xf)
    requires
        a.canonical(),
        z.canonical(),
        z.is_base(),
        z != Xf::zero(),
    ensures
        Xf::mul(Xf::mul(a, Xf::inv(z)), z) == a,
{
    prime::law_base_elements_have_inverses(z);
    field_model::lemma_divide_multiply(a, z, Xf::inv(z));
    field_model::lemma_reduce(a);
}

/// A quotient by a zerofier keeps the degree bound of its constraint, less the zerofier's degree,
/// where the constraint holds at all roots of the zerofier.
proof fn lemma_quotient_keeps_bound(
    fri_domain: FriDomain,
    codeword: Seq<Xf>,
    constraint: PolyModel,
    columns: Seq<Seq<Xf>>,
    degrees: Seq<Degree>,
    zerofier: Seq<Xf>,
    roots: Seq<Xf>,
)
    requires
        fri_domain.is_coset(),
        codeword.len() == fri_domain.length,
        constraint.exponents_match(columns.len()),
        composition::columns_bounded(columns, degrees),
        roots.len() >= 1,
        Univariate::monic(zerofier, roots.len() as int),
        interpolation::separated(roots),
        interpolation::vanishes(zerofier, roots),
        forall|t: int|
            0 <= t < roots.len() ==> constraint.value(
                composition::row_at(columns, #[trigger] roots[t]),
            ) == Xf::zero(),
        constraint.degree_bound(degrees) - roots.len() < fri_domain.length,
        forall|j: int|
            0 <= j < codeword.len() ==> #[trigger] is_divided(
                codeword[j],
                constraint,
                columns,
                zerofier,
                fri_domain.spec_value(j),
            ),
    ensures
        keeps_bound(fri_domain, codeword, constraint.degree_bound(degrees) - roots.len()),
{
    let dividend = composition::compose(constraint, columns);
    composition::lemma_composition_canonical(constraint, columns);
    composition::law_composition_degree(constraint, columns, degrees);
    assert forall|t: int| 0 <= t < roots.len() implies Univariate::value(
        dividend,
        #[trigger] roots[t],
    ) == Xf::zero() by {
        composition::law_composition_evaluates(constraint, columns, roots[t]);
    }
    assert forall|j: int| 0 <= j < codeword.len() implies codeword[j].canonical()
        && #[trigger] is_product(codeword[j], zerofier, dividend, fri_domain.spec_value(j)) by {
        let x = fri_domain.spec_value(j);
        assert(is_divided(codeword[j], constraint, columns, zerofier, x));
        let z = Univariate::value(zerofier, x);
        let c = constraint.value(composition::row_at(columns, x));
        composition::law_composition_evaluates(constraint, columns, x);
        constraint.lemma_value_canonical(composition::row_at(columns, x));
        univariate::lemma_value_canonical(zerofier, x);
        lemma_inverse_undone(c, z);
        field_model::lemma_reduce(field_model::zmul(c, Xf::inv(z)));
    }
    assert(Univariate::canonical(codeword)) by {
        assert forall|j: int| 0 <= j < codeword.len() implies (
        #[trigger] codeword[j]).canonical() by {
            assert(is_product(codeword[j], zerofier, dividend, fri_domain.spec_value(j)));
        }
    }
    lemma_clean_division(
        fri_domain,
        codeword,
        dividend,
        constraint.degree_bound(degrees),
        zerofier,
        roots,
    );
}

/// The same for a transition quotient, whose constraint need not hold at the last row of the trace.
proof fn lemma_transition_quotient_keeps_bound(
    fri_domain: FriDomain,
    codeword: Seq<Xf>,
    constraint: PolyModel,
    columns: Seq<Seq<Xf>>,
    degrees: Seq<Degree>,
    omicron: Xf,
    trace: Seq<Xf>,
)
    requires
        fri_domain.is_coset(),
        codeword.len() == fri_domain.length,
        constraint.exponents_match(columns.len()),
        composition::columns_bounded(columns, degrees),
        1 <= trace.len() < 0x1_0000_0000,
        interpolation::separated(trace),
        interpolation::vanishes(Univariate::power_minus_one(trace.len()), trace),
        trace.last() == Xf::inv(omicron),
        forall|t: int|
            0 <= t < trace.len() - 1 ==> constraint.value(
                composition::row_at(columns, #[trigger] trace[t]),
            ) == Xf::zero(),
        constraint.degree_bound(degrees) + 1 - trace.len() < fri_domain.length,
        forall|j: int|
            0 <= j < codeword.len() ==> #[trigger] is_transition_divided(
                codeword[j],
                constraint,
                columns,
                omicron,
                trace.len() as u32,
                fri_domain.spec_value(j),
            ),
    ensures
        keeps_bound(
            fri_domain,
            codeword,
            constraint.degree_bound(degrees) - (trace.len() - 1),
        ),
{
    let bound = constraint.degree_bound(degrees);
    let composed = composition::compose(constraint, columns);
    let last_row = Univariate::linear(Xf::inv(omicron));
    let dividend = Univariate::mul(composed, last_row);
    let zerofier = Univariate::power_minus_one(trace.len());
    let height = trace.len() as u32;
    composition::law_composition_degree(constraint, columns, degrees);
    interpolation::lemma_product_canonical(composed, last_row);
    univariate::lemma_linear(Xf::inv(omicron), Xf::zero());
    univariate::lemma_degree_mul(composed, last_row, bound, 1);
    univariate::lemma_power_minus_one(trace.len(), Xf::zero());
    assert(Univariate::degree_at_most(dividend, bound + 1));
    assert forall|t: int| 0 <= t < trace.len() implies Univariate::value(
        dividend,
        #[trigger] trace[t],
    ) == Xf::zero() by {
        let x = trace[t];
        univariate::lemma_value_mul(composed, last_row, x);
        composition::law_composition_evaluates(constraint, columns, x);
        univariate::lemma_linear(Xf::inv(omicron), x);
        field_model::lemma_mul_basics(Univariate::value(composed, x));
        field_model::lemma_mul_basics(Univariate::value(last_row, x));
        field_model::lemma_difference_zero(x, x);
    }
    assert forall|j: int| 0 <= j < codeword.len() implies codeword[j].canonical()
        && #[trigger] is_product(codeword[j], zerofier, dividend, fri_domain.spec_value(j)) by {
        let x = fri_domain.spec_value(j);
        assert(is_transition_divided(codeword[j], constraint, columns, omicron, height, x));
        laws::law_zerofier_degrees(x, height, omicron);
        let z = quotients::subgroup_zerofier(x, height);
        let n = quotients::terminal_zerofier(x, omicron);
        let c = constraint.value(composition::row_at(columns, x));
        composition::law_composition_evaluates(constraint, columns, x);
        univariate::lemma_value_mul(composed, last_row, x);
        univariate::lemma_value_canonical(zerofier, x);
        // (c * (n * inverse)) * z == c * n
        field_model::lemma_mul_associates(c, n, Xf::inv(z));
        field_model::lemma_reduce(field_model::zmul(c, n));
        lemma_inverse_undone(Xf::mul(c, n), z);
        field_model::lemma_reduce(field_model::zmul(c, Xf::mul(n, Xf::inv(z))));
    }
    assert(Univariate::canonical(codeword)) by {
        assert forall|j: int| 0 <= j < codeword.len() implies (
        #[trigger] codeword[j]).canonical() by {
            assert(is_product(codeword[j], zerofier, dividend, fri_domain.spec_value(j)));
        }
    }
    lemma_clean_division(fri_domain, codeword, dividend, bound + 1, zerofier, trace);
}

/// A power of a power is the power by the product.
proof fn lemma_power_of_power(a: Xf, m: nat, n: nat)
    ensures
        Xf::pow(Xf::pow(a, m), n) == Xf::pow(a, m * n),
    decreases n,
{
    if n == 0 {
        assert(m * n == 0) by (nonlinear_arith)
            requires
                n == 0,
        ;
    } else {
        let fewer = (n - 1) as nat;
        lemma_power_of_power(a, m, fewer);
        lemma_mul_is_distributive_add(m as int, fewer as int, 1);
        field_model::lemma_pow_adds(a, m * fewer, m);
        assert(m * n == m * fewer + m);
    }
}

/// The trace's domain is made of base elements that differ, each a root of the subgroup zerofier.
pub proof fn lemma_trace_domain(fri_domain: FriDomain, omicron: Xf, padded_height: usize)
    requires
        extends_trace(fri_domain, omicron, padded_height),
    ensures
        padded_height <= fri_domain.length,
        padded_height as u32 == padded_height,
        omicron.is_base(),
        Xf::pow(omicron, padded_height as nat) == Xf::one(),
        interpolation::separated(trace_domain(omicron, padded_height as nat)),
        interpolation::vanishes(
            Univariate::power_minus_one(padded_height as nat),
            trace_domain(omicron, padded_height as nat),
        ),
        trace_domain(omicron, padded_height as nat).last() == Xf::inv(omicron),
{
    let omega = fri_domain.omega.lifted();
    let height = padded_height as nat;
    let unit_distance = (fri_domain.length as int / padded_height as int) as nat;
    let trace = trace_domain(omicron, height);
    lemma_fundamental_div_mod(fri_domain.length as int, padded_height as int);
    lemma_div_pos_is_pos(fri_domain.length as int, padded_height as int);
    if unit_distance == 0 {
        assert(padded_height * unit_distance == 0) by (nonlinear_arith)
            requires
                unit_distance == 0,
        ;
    }
    assert(padded_height <= fri_domain.length) by (nonlinear_arith)
        requires
            fri_domain.length == padded_height * unit_distance,
            unit_distance >= 1,
    ;
    lemma_mul_is_commutative(padded_height as int, unit_distance as int);
    field_model::lemma_base_powers(omega, unit_distance);
    lemma_power_of_power(omega, unit_distance, height);
    assert forall|t: int| 0 <= t < trace.len() implies (#[trigger] trace[t]).is_base()
        && trace[t].canonical() by {
        field_model::lemma_base_powers(omicron, t as nat);
    }
    assert forall|t: int, u: int| 0 <= t < u < trace.len() implies #[trigger] trace[t]
        != #[trigger] trace[u] by {
        lemma_power_of_power(omega, unit_distance, t as nat);
        lemma_power_of_power(omega, unit_distance, u as nat);
        assert(unit_distance * t < unit_distance * u < unit_distance * height) by (nonlinear_arith)
            requires
                unit_distance >= 1,
                t < u < height,
        ;
        lemma_mul_nonnegative(unit_distance as int, t);
        fri_domain.lemma_omega_powers_differ(
            unit_distance * t as nat,
            unit_distance * u as nat,
        );
    }
    assert forall|t: int| 0 <= t < trace.len() implies Univariate::value(
        Univariate::power_minus_one(height),
        #[trigger] trace[t],
    ) == Xf::zero() by {
        univariate::lemma_power_minus_one(height, trace[t]);
        lemma_power_of_power(omicron, t as nat, height);
        lemma_mul_is_commutative(t, height as int);
        field_model::lemma_pow_wraps(omicron, height, t as nat, 0);
        assert(height * t as nat + 0 == t as nat * height);
        field_model::lemma_difference_zero(Xf::one(), Xf::one());
    }
    assert(trace.last() == Xf::pow(omicron, (height - 1) as nat));
    field_model::lemma_pow_canonical(omicron, (height - 1) as nat);
    field_model::lemma_inverse_unique(omicron, trace.last());
}

/// What the quotients of a valid trace are computed from.
#[verifier::opaque]
spec fn is_setting<T: Evaluable + ?Sized>(
    table: &T,
    fri_domain: FriDomain,
    columns: Seq<Seq<Xf>>,
    weights: Seq<Xf>,
    omicron: Xf,
    padded_height: usize,
    num_trace_randomizers: usize,
) -> bool {
    let degree = table_collection::spec_interpolant_degree(padded_height, num_trace_randomizers);
    let rows = codeword_rows(fri_domain, columns);
    &&& extends_trace(fri_domain, omicron, padded_height)
    &&& extension_table::all_quotients_exist(
        table,
        fri_domain,
        rows,
        weights,
        omicron,
        padded_height,
    )
    &&& extension_table::all_bounds_exist(table, padded_height, num_trace_randomizers)
    &&& extension_table::no_stored_bounds(table)
    &&& evaluates_its_constraints(table, weights)
    &&& all_degrees_agree(table, weights, degree)
    &&& columns.len() == table.table().full_width
    &&& composition::columns_bounded(
        columns,
        degree_bounds::uniform(columns.len(), degree),
    )
    &&& is_valid(table, weights, columns, omicron, padded_height as nat)
}

/// The rows of the columns' values on the domain.
pub open spec fn codeword_rows(fri_domain: FriDomain, columns: Seq<Seq<Xf>>) -> Seq<Seq<Xf>> {
    Seq::new(
        fri_domain.length as nat,
        |j: int| composition::row_at(columns, fri_domain.spec_value(j)),
    )
}

proof fn lemma_initial<T: Evaluable + ?Sized>(
    table: &T,
    fri_domain: FriDomain,
    columns: Seq<Seq<Xf>>,
    weights: Seq<Xf>,
    omicron: Xf,
    padded_height: usize,
    num_trace_randomizers: usize,
    i: int,
)
    requires
        is_setting(
            table,
            fri_domain,
            columns,
            weights,
            omicron,
            padded_height,
            num_trace_randomizers,
        ),
        0 <= i < table.initial_count(),
        extension_table::spec_initial_bounds(table, padded_height, num_trace_randomizers)[i]
            < fri_domain.length,
    ensures
        keeps_bound(
            fri_domain,
            extension_table::spec_initial_quotients(
                table,
                fri_domain,
                codeword_rows(fri_domain, columns),
                weights,
            )[i],
            extension_table::spec_initial_bounds(
                table,
                padded_height,
                num_trace_randomizers,
            )[i] as int,
        ),
{
    reveal(is_setting);
    let rows = codeword_rows(fri_domain, columns);
    let degree = table_collection::spec_interpolant_degree(padded_height, num_trace_randomizers);
    let degrees = degree_bounds::uniform(columns.len(), degree);
    let constraints = table.initial_constraints_for(weights);
    let placeholders = table.initial_constraints_for(table.placeholder_weights());
    let codeword = extension_table::spec_initial_quotients(table, fri_domain, rows, weights)[i];
    let zerofier = Univariate::linear(Xf::one());
    let roots = seq![Xf::one()];
    assert(constraints[i].exponents_match(columns.len()));
    laws::lemma_computed_bound(
        placeholders,
        columns.len(),
        padded_height,
        num_trace_randomizers,
        1,
        i,
    );
    univariate::lemma_linear(Xf::one(), Xf::one());
    field_model::lemma_difference_zero(Xf::one(), Xf::one());
    assert(trace_domain(omicron, padded_height as nat)[0] == Xf::one());
    assert(interpolation::vanishes(zerofier, roots));
    assert forall|j: int| 0 <= j < codeword.len() implies #[trigger] is_divided(
        codeword[j],
        constraints[i],
        columns,
        zerofier,
        fri_domain.spec_value(j),
    ) by {
        let x = fri_domain.spec_value(j);
        univariate::lemma_linear(Xf::one(), x);
        fri_domain.lemma_value_is_base(j);
        field_model::lemma_base_closed(x, Xf::one());
        assert(quotients::initial_zerofiers(fri_domain.spec_values())[j] != Xf::zero());
        assert(table.initial_values(rows[j], weights) == quotients::evaluations(
            constraints,
            rows[j],
        ));
    }
    lemma_quotient_keeps_bound(
        fri_domain,
        codeword,
        constraints[i],
        columns,
        degrees,
        zerofier,
        roots,
    );
}

proof fn lemma_consistency<T: Evaluable + ?Sized>(
    table: &T,
    fri_domain: FriDomain,
    columns: Seq<Seq<Xf>>,
    weights: Seq<Xf>,
    omicron: Xf,
    padded_height: usize,
    num_trace_randomizers: usize,
    i: int,
)
    requires
        is_setting(
            table,
            fri_domain,
            columns,
            weights,
            omicron,
            padded_height,
            num_trace_randomizers,
        ),
        0 <= i < table.consistency_count(),
        extension_table::spec_consistency_bounds(table, padded_height, num_trace_randomizers)[i]
            < fri_domain.length,
    ensures
        keeps_bound(
            fri_domain,
            extension_table::spec_consistency_quotients(
                table,
                fri_domain,
                codeword_rows(fri_domain, columns),
                weights,
                padded_height,
            )[i],
            extension_table::spec_consistency_bounds(
                table,
                padded_height,
                num_trace_randomizers,
            )[i] as int,
        ),
{
    reveal(is_setting);
    let rows = codeword_rows(fri_domain, columns);
    let height = padded_height as nat;
    let degree = table_collection::spec_interpolant_degree(padded_height, num_trace_randomizers);
    let degrees = degree_bounds::uniform(columns.len(), degree);
    let constraints = table.consistency_constraints_for(weights);
    let placeholders = table.consistency_constraints_for(table.placeholder_weights());
    let codeword = extension_table::spec_consistency_quotients(
        table,
        fri_domain,
        rows,
        weights,
        padded_height,
    )[i];
    let zerofier = Univariate::power_minus_one(height);
    let roots = trace_domain(omicron, height);
    lemma_trace_domain(fri_domain, omicron, padded_height);
    assert(constraints[i].exponents_match(columns.len()));
    laws::lemma_computed_bound(
        placeholders,
        columns.len(),
        padded_height,
        num_trace_randomizers,
        padded_height as int,
        i,
    );
    univariate::lemma_power_minus_one(height, Xf::one());
    assert forall|t: int| 0 <= t < roots.len() implies constraints[i].value(
        composition::row_at(columns, #[trigger] roots[t]),
    ) == Xf::zero() by {
        assert(hold_at(constraints, composition::row_at(columns, roots[t])));
    }
    assert forall|j: int| 0 <= j < codeword.len() implies #[trigger] is_divided(
        codeword[j],
        constraints[i],
        columns,
        zerofier,
        fri_domain.spec_value(j),
    ) by {
        let x = fri_domain.spec_value(j);
        univariate::lemma_power_minus_one(height, x);
        fri_domain.lemma_value_is_base(j);
        field_model::lemma_base_powers(x, height);
        field_model::lemma_base_closed(Xf::pow(x, height), Xf::one());
        assert(quotients::subgroup_zerofiers(
            fri_domain.spec_values(),
            padded_height as u32,
        )[j] != Xf::zero());
        assert(table.consistency_values(rows[j], weights) == quotients::evaluations(
            constraints,
            rows[j],
        ));
    }
    lemma_quotient_keeps_bound(
        fri_domain,
        codeword,
        constraints[i],
        columns,
        degrees,
        zerofier,
        roots,
    );
}

proof fn lemma_transition<T: Evaluable + ?Sized>(
    table: &T,
    fri_domain: FriDomain,
    columns: Seq<Seq<Xf>>,
    weights: Seq<Xf>,
    omicron: Xf,
    padded_height: usize,
    num_trace_randomizers: usize,
    i: int,
)
    requires
        is_setting(
            table,
            fri_domain,
            columns,
            weights,
            omicron,
            padded_height,
            num_trace_randomizers,
        ),
        0 <= i < table.transition_count(),
        extension_table::spec_transition_bounds(table, padded_height, num_trace_randomizers)[i]
            < fri_domain.length,
    ensures
        keeps_bound(
            fri_domain,
            extension_table::spec_transition_quotients(
                table,
                fri_domain,
                codeword_rows(fri_domain, columns),
                weights,
                omicron,
                padded_height,
            )[i],
            extension_table::spec_transition_bounds(
                table,
                padded_height,
                num_trace_randomizers,
            )[i] as int,
        ),
{
    reveal(is_setting);
    let rows = codeword_rows(fri_domain, columns);
    let height = padded_height as nat;
    let degree = table_collection::spec_interpolant_degree(padded_height, num_trace_randomizers);
    let both = composition::transition_columns(columns, omicron);
    let degrees = degree_bounds::uniform(both.len(), degree);
    let constraints = table.transition_constraints_for(weights);
    let placeholders = table.transition_constraints_for(table.placeholder_weights());
    let codeword = extension_table::spec_transition_quotients(
        table,
        fri_domain,
        rows,
        weights,
        omicron,
        padded_height,
    )[i];
    let trace = trace_domain(omicron, height);
    let k = choose|k: nat| fri_domain.length == #[trigger] pow2(k);
    lemma_trace_domain(fri_domain, omicron, padded_height);
    laws::law_transition_columns_are_bounded(columns, omicron, degree);
    assert(constraints[i].exponents_match(both.len()));
    laws::lemma_computed_bound(
        placeholders,
        both.len(),
        padded_height,
        num_trace_randomizers,
        padded_height - 1,
        i,
    );
    assert forall|t: int| 0 <= t < trace.len() - 1 implies constraints[i].value(
        composition::row_at(both, #[trigger] trace[t]),
    ) == Xf::zero() by {
        assert(hold_at(
            constraints,
            composition::row_at(columns, trace[t]) + composition::row_at(columns, trace[t + 1]),
        ));
        lemma_step(columns, omicron, trace[t]);
        field_model::lemma_mul_commutes(omicron, trace[t]);
        assert(trace[t + 1] == Xf::mul(trace[t], omicron)) by {
            assert(((t + 1) as nat - 1) as nat == t as nat);
        }
    }
    assert forall|j: int| 0 <= j < codeword.len() implies #[trigger] is_transition_divided(
        codeword[j],
        constraints[i],
        both,
        omicron,
        trace.len() as u32,
        fri_domain.spec_value(j),
    ) by {
        let x = fri_domain.spec_value(j);
        let next = quotients::successor(fri_domain, padded_height, j);
        fri_domain.lemma_value_is_base(j);
        field_model::lemma_base_powers(x, height);
        field_model::lemma_base_closed(Xf::pow(x, height), Xf::one());
        assert(quotients::subgroup_zerofiers(
            fri_domain.spec_values(),
            padded_height as u32,
        )[j] != Xf::zero());
        laws::law_transition_points_are_column_values(
            fri_domain,
            columns,
            rows,
            padded_height,
            omicron,
            j,
            k,
        );
        assert(table.transition_values(rows[j], rows[next], weights) == quotients::evaluations(
            constraints,
            rows[j] + rows[next],
        ));
    }
    lemma_transition_quotient_keeps_bound(
        fri_domain,
        codeword,
        constraints[i],
        both,
        degrees,
        omicron,
        trace,
    );
}

/// The columns one step further on have at `x` the values that the columns have at `omicron * x`.
pub proof fn lemma_step(columns: Seq<Seq<Xf>>, omicron: Xf, x: Xf)
    ensures
        composition::row_at(composition::transition_columns(columns, omicron), x)
            == composition::row_at(columns, x) + composition::row_at(columns, Xf::mul(omicron, x)),
{
    let both = composition::transition_columns(columns, omicron);
    let expected = composition::row_at(columns, x) + composition::row_at(
        columns,
        Xf::mul(omicron, x),
    );
    assert forall|l: int| 0 <= l < both.len() implies #[trigger] composition::row_at(both, x)[l]
        == expected[l] by {
        if l >= columns.len() {
            univariate::lemma_value_stretch(columns[l - columns.len()], omicron, x);
        }
    }
    assert(composition::row_at(both, x) =~= expected);
}

proof fn lemma_terminal<T: Evaluable + ?Sized>(
    table: &T,
    fri_domain: FriDomain,
    columns: Seq<Seq<Xf>>,
    weights: Seq<Xf>,
    omicron: Xf,
    padded_height: usize,
    num_trace_randomizers: usize,
    i: int,
)
    requires
        is_setting(
            table,
            fri_domain,
            columns,
            weights,
            omicron,
            padded_height,
            num_trace_randomizers,
        ),
        0 <= i < table.terminal_count(),
        extension_table::spec_terminal_bounds(table, padded_height, num_trace_randomizers)[i]
            < fri_domain.length,
    ensures
        keeps_bound(
            fri_domain,
            extension_table::spec_terminal_quotients(
                table,
                fri_domain,
                codeword_rows(fri_domain, columns),
                weights,
                omicron,
            )[i],
            extension_table::spec_terminal_bounds(
                table,
                padded_height,
                num_trace_randomizers,
            )[i] as int,
        ),
{
    reveal(is_setting);
    let rows = codeword_rows(fri_domain, columns);
    let degree = table_collection::spec_interpolant_degree(padded_height, num_trace_randomizers);
    let degrees = degree_bounds::uniform(columns.len(), degree);
    let constraints = table.terminal_constraints_for(weights);
    let placeholders = table.terminal_constraints_for(table.placeholder_weights());
    let codeword = extension_table::spec_terminal_quotients(
        table,
        fri_domain,
        rows,
        weights,
        omicron,
    )[i];
    let trace = trace_domain(omicron, padded_height as nat);
    let last = Xf::inv(omicron);
    let zerofier = Univariate::linear(last);
    let roots = seq![last];
    lemma_trace_domain(fri_domain, omicron, padded_height);
    assert(trace[trace.len() - 1] == last);
    assert(constraints[i].exponents_match(columns.len()));
    laws::lemma_computed_bound(
        placeholders,
        columns.len(),
        padded_height,
        num_trace_randomizers,
        1,
        i,
    );
    univariate::lemma_linear(last, last);
    field_model::lemma_difference_zero(last, last);
    assert(interpolation::vanishes(zerofier, roots));
    assert forall|j: int| 0 <= j < codeword.len() implies #[trigger] is_divided(
        codeword[j],
        constraints[i],
        columns,
        zerofier,
        fri_domain.spec_value(j),
    ) by {
        let x = fri_domain.spec_value(j);
        univariate::lemma_linear(last, x);
        fri_domain.lemma_value_is_base(j);
        field_model::lemma_base_closed(x, last);
        assert(quotients::terminal_zerofiers(fri_domain.spec_values(), omicron)[j] != Xf::zero());
        assert(table.terminal_values(rows[j], weights) == quotients::evaluations(
            constraints,
            rows[j],
        ));
    }
    lemma_quotient_keeps_bound(
        fri_domain,
        codeword,
        constraints[i],
        columns,
        degrees,
        zerofier,
        roots,
    );
}

/// The quotient and the bound at one index of all, by the kind that the index falls into.
proof fn lemma_parts<T: Evaluable + ?Sized>(
    table: &T,
    fri_domain: FriDomain,
    rows: Seq<Seq<Xf>>,
    weights: Seq<Xf>,
    omicron: Xf,
    h: usize,
    r: usize,
    i: int,
)
    requires
        extension_table::no_stored_bounds(table),
        table.initial_count() == table.initial_constraints_for(table.placeholder_weights()).len(),
        table.consistency_count() == table.consistency_constraints_for(
            table.placeholder_weights(),
        ).len(),
        table.transition_count() == table.transition_constraints_for(
            table.placeholder_weights(),
        ).len(),
        table.terminal_count() == table.terminal_constraints_for(table.placeholder_weights()).len(),
        0 <= i < extension_table::spec_all_bounds(table, h, r).len(),
    ensures
        ({
            let all = extension_table::spec_all_quotients(
                table,
                fri_domain,
                rows,
                weights,
                omicron,
                h,
            );
            let bounds = extension_table::spec_all_bounds(table, h, r);
            let a = table.initial_count() as int;
            let b = a + table.consistency_count();
            let c = b + table.transition_count();
            &&& all.len() == bounds.len() == c + table.terminal_count()
            &&& i < a ==> all[i] == extension_table::spec_initial_quotients(
                table,
                fri_domain,
                rows,
                weights,
            )[i] && bounds[i] == extension_table::spec_initial_bounds(table, h, r)[i]
            &&& a <= i < b ==> all[i] == extension_table::spec_consistency_quotients(
                table,
                fri_domain,
                rows,
                weights,
                h,
            )[i - a] && bounds[i] == extension_table::spec_consistency_bounds(table, h, r)[i - a]
            &&& b <= i < c ==> all[i] == extension_table::spec_transition_quotients(
                table,
                fri_domain,
                rows,
                weights,
                omicron,
                h,
            )[i - b] && bounds[i] == extension_table::spec_transition_bounds(table, h, r)[i - b]
            &&& c <= i ==> all[i] == extension_table::spec_terminal_quotients(
                table,
                fri_domain,
                rows,
                weights,
                omicron,
            )[i - c] && bounds[i] == extension_table::spec_terminal_bounds(table, h, r)[i - c]
        }),
{
}

/// On a valid trace every quotient keeps to the degree bound at its index: where the table's columns
/// are polynomials through the rows and the randomizers, and satisfy all constraints on the trace,
/// the interpolant of each quotient, unless that is zero throughout, has at most the degree that was
/// computed for it. The bound must be below the domain's length, and the domain must not meet the
/// trace's.
#[verifier::spinoff_prover]
#[verifier::rlimit(40)]
pub proof fn law_valid_trace_keeps_degree_bounds<T: Evaluable + ?Sized>(
    table: &T,
    fri_domain: FriDomain,
    columns: Seq<Seq<Xf>>,
    weights: Seq<Xf>,
    omicron: Xf,
    padded_height: usize,
    num_trace_randomizers: usize,
    i: int,
)
    requires
        extends_trace(fri_domain, omicron, padded_height),
        extension_table::all_quotients_exist(
            table,
            fri_domain,
            codeword_rows(fri_domain, columns),
            weights,
            omicron,
            padded_height,
        ),
        extension_table::all_bounds_exist(table, padded_height, num_trace_randomizers),
        extension_table::no_stored_bounds(table),
        evaluates_its_constraints(table, weights),
        all_degrees_agree(table, weights, padded_height + num_trace_randomizers - 1),
        columns.len() == table.table().full_width,
        composition::degrees_at_most(columns, padded_height + num_trace_randomizers - 1),
        is_valid(table, weights, columns, omicron, padded_height as nat),
        0 <= i < extension_table::spec_all_bounds(
            table,
            padded_height,
            num_trace_randomizers,
        ).len(),
        extension_table::spec_all_bounds(table, padded_height, num_trace_randomizers)[i]
            < fri_domain.length,
    ensures
        extension_table::spec_all_quotients(
            table,
            fri_domain,
            codeword_rows(fri_domain, columns),
            weights,
            omicron,
            padded_height,
        ).len() == extension_table::spec_all_bounds(
            table,
            padded_height,
            num_trace_randomizers,
        ).len(),
        keeps_bound(
            fri_domain,
            extension_table::spec_all_quotients(
                table,
                fri_domain,
                codeword_rows(fri_domain, columns),
                weights,
                omicron,
                padded_height,
            )[i],
            extension_table::spec_all_bounds(
                table,
                padded_height,
                num_trace_randomizers,
            )[i] as int,
        ),
{
    let h = padded_height;
    let r = num_trace_randomizers;
    let rows = codeword_rows(fri_domain, columns);
    assert(is_setting(table, fri_domain, columns, weights, omicron, h, r)) by {
        reveal(is_setting);
        composition::lemma_uniformly_bounded(columns, h + r - 1);
    }
    lemma_parts(table, fri_domain, rows, weights, omicron, h, r, i);
    let a = table.initial_count() as int;
    let b = a + table.consistency_count();
    let c = b + table.transition_count();
    if i < a {
        lemma_initial(table, fri_domain, columns, weights, omicron, h, r, i);
    } else if i < b {
        lemma_consistency(table, fri_domain, columns, weights, omicron, h, r, i - a);
    } else if i < c {
        lemma_transition(table, fri_domain, columns, weights, omicron, h, r, i - b);
    } else {
        lemma_terminal(table, fri_domain, columns, weights, omicron, h, r, i - c);
    }
}

/// The degree check accepts the quotients of a valid trace, where every degree bound is below the
/// largest degree that an interpolant can have.
pub proof fn law_valid_trace_passes_degree_check<T: Evaluable + ?Sized>(
    table: &T,
    fri_domain: FriDomain,
    columns: Seq<Seq<Xf>>,
    weights: Seq<Xf>,
    omicron: Xf,
    padded_height: usize,
    num_trace_randomizers: usize,
    outcome: Result<(), String>,
    quotient_type: Seq<char>,
    table_name: Seq<char>,
)
    requires
        extends_trace(fri_domain, omicron, padded_height),
        extension_table::all_quotients_exist(
            table,
            fri_domain,
            codeword_rows(fri_domain, columns),
            weights,
            omicron,
            padded_height,
        ),
        extension_table::all_bounds_exist(table, padded_height, num_trace_randomizers),
        extension_table::no_stored_bounds(table),
        evaluates_its_constraints(table, weights),
        all_degrees_agree(table, weights, padded_height + num_trace_randomizers - 1),
        columns.len() == table.table().full_width,
        composition::degrees_at_most(columns, padded_height + num_trace_randomizers - 1),
        is_valid(table, weights, columns, omicron, padded_height as nat),
        forall|i: int|
            0 <= i < extension_table::spec_all_bounds(
                table,
                padded_height,
                num_trace_randomizers,
            ).len() ==> #[trigger] extension_table::spec_all_bounds(
                table,
                padded_height,
                num_trace_randomizers,
            )[i] < fri_domain.length - 1,
        quotients::is_degree_check_outcome(
            outcome,
            quotients::interpolant_degrees(
                fri_domain,
                extension_table::spec_all_quotients(
                    table,
                    fri_domain,
                    codeword_rows(fri_domain, columns),
                    weights,
                    omicron,
                    padded_height,
                ),
            ),
            quotient_type,
            table_name,
            fri_domain.length,
        ),
    ensures
        outcome is Ok,
{
    let all = extension_table::spec_all_quotients(
        table,
        fri_domain,
        codeword_rows(fri_domain, columns),
        weights,
        omicron,
        padded_height,
    );
    let bounds = extension_table::spec_all_bounds(table, padded_height, num_trace_randomizers);
    let degrees = quotients::interpolant_degrees(fri_domain, all);
    assert(all.len() == bounds.len());
    assert forall|i: int| 0 <= i < degrees.len() implies quotients::degree_not_maximal(
        #[trigger] degrees[i],
        fri_domain.length,
    ) by {
        assert(bounds[i] < fri_domain.length - 1);
        law_valid_trace_keeps_degree_bounds(
            table,
            fri_domain,
            columns,
            weights,
            omicron,
            padded_height,
            num_trace_randomizers,
            i,
        );
    }
}

} // verus!
