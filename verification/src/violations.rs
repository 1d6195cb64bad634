//! Quotients of low degree come from constraints that hold: violated constraints show in the degree.
use crate::composition;
use crate::extension_table;
use crate::extension_table::Evaluable;
use crate::field_model;
use crate::field_model::Xf;
use crate::fri_domain::FriDomain;
use crate::interpolation;
use crate::laws;
use crate::mpolynomial::PolyModel;
use crate::operations;
use crate::prime;
use crate::quotients;
use crate::univariate;
use crate::univariate::Univariate;
use crate::valid_trace;
use vstd::arithmetic::power2::*;
use vstd::prelude::*;

verus! {

/// Where a codeword, times a zerofier, is at every domain value the value of another polynomial, and
/// the codeword's interpolant has so low a degree that the product fits the domain, the other
/// polynomial vanishes wherever the zerofier does.
proof fn lemma_low_degree(
    fri_domain: FriDomain,
    codeword: Seq<Xf>,
    dividend: Seq<Xf>,
    zerofier: Seq<Xf>,
    m: int,
    root: Xf,
)
    requires
        fri_domain.is_coset(),
        codeword.len() == fri_domain.length,
        Univariate::canonical(codeword),
        Univariate::canonical(dividend),
        Univariate::degree(dividend) < fri_domain.length,
        m >= 0,
        Univariate::degree_at_most(zerofier, m),
        Univariate::degree(fri_domain.interpolant(codeword)) + m < fri_domain.length,
        Univariate::value(zerofier, root) == Xf::zero(),
        forall|j: int|
            0 <= j < codeword.len() ==> Xf::mul(
                #[trigger] codeword[j],
                Univariate::value(zerofier, fri_domain.spec_value(j)),
            ) == Univariate::value(dividend, fri_domain.spec_value(j)),
    ensures
        Univariate::value(dividend, root) == Xf::zero(),
{
    let n = fri_domain.length as int;
    let g = fri_domain.interpolant(codeword);
    let degree = Univariate::degree(g);
    let product = Univariate::mul(g, zerofier);
    let points = fri_domain.spec_values();
    operations::law_codewords_are_interpolated(fri_domain, codeword, g);
    univariate::lemma_degree_range(g);
    univariate::lemma_degree(g, degree);
    univariate::lemma_degree_mul(g, zerofier, degree, m);
    assert(Univariate::degree_at_most(product, n - 1));
    univariate::lemma_degree(dividend, n - 1);
    interpolation::lemma_product_canonical(g, zerofier);
    fri_domain.lemma_values_separated();
    assert forall|j: int| 0 <= j < points.len() implies Univariate::value(
        product,
        #[trigger] points[j],
    ) == Univariate::value(dividend, points[j]) by {
        univariate::lemma_value_mul(g, zerofier, points[j]);
        assert(Univariate::value(g, fri_domain.spec_value(j)) == codeword[j]);
    }
    interpolation::law_values_determine_coefficients(product, dividend, points);
    univariate::lemma_value_same(product, dividend, root);
    univariate::lemma_value_mul(g, zerofier, root);
    field_model::lemma_mul_basics(Univariate::value(g, root));
}

/// Where an initial constraint is violated at the first row of a trace, its quotient has an interpolant
/// of the largest possible degree. So the degree check reports it.
pub proof fn law_violated_initial_constraints_show<T: Evaluable + ?Sized>(
    table: &T,
    fri_domain: FriDomain,
    columns: Seq<Seq<Xf>>,
    weights: Seq<Xf>,
    constraint: PolyModel,
    i: int,
)
    requires
        fri_domain.is_coset(),
        0 <= i < table.initial_count(),
        constraint.exponents_match(columns.len()),
        Univariate::degree(composition::compose(constraint, columns)) < fri_domain.length,
        forall|j: int|
            0 <= j < fri_domain.length ==> #[trigger] fri_domain.spec_value(j) != Xf::one(),
        forall|row: Seq<Xf>|
            row.len() == columns.len() ==> #[trigger] table.initial_values(row, weights)[i]
                == constraint.value(row),
        constraint.value(composition::row_at(columns, Xf::one())) != Xf::zero(),
    ensures
        Univariate::degree(
            fri_domain.interpolant(
                extension_table::spec_initial_quotients(
                    table,
                    fri_domain,
                    Seq::new(
                        fri_domain.length as nat,
                        |j: int| composition::row_at(columns, fri_domain.spec_value(j)),
                    ),
                    weights,
                )[i],
            ),
        ) >= fri_domain.length - 1,
{
    let rows = Seq::new(
        fri_domain.length as nat,
        |j: int| composition::row_at(columns, fri_domain.spec_value(j)),
    );
    let codeword = extension_table::spec_initial_quotients(table, fri_domain, rows, weights)[i];
    let dividend = composition::compose(constraint, columns);
    let zerofier = Univariate::linear(Xf::one());
    composition::lemma_composition_canonical(constraint, columns);
    univariate::lemma_linear(Xf::one(), Xf::one());
    field_model::lemma_difference_zero(Xf::one(), Xf::one());
    assert forall|j: int| 0 <= j < fri_domain.length implies Xf::mul(
        #[trigger] codeword[j],
        Univariate::value(zerofier, fri_domain.spec_value(j)),
    ) == Univariate::value(dividend, fri_domain.spec_value(j)) && codeword[j].canonical() by {
        let x = fri_domain.spec_value(j);
        assert(table.initial_values(rows[j], weights)[i] == constraint.value(rows[j]));
        constraint.lemma_value_canonical(rows[j]);
        operations::law_initial_quotient_divides(table, fri_domain, rows, weights, i, j);
        univariate::lemma_linear(Xf::one(), x);
        composition::law_composition_evaluates(constraint, columns, x);
        lemma_quotient_canonical(
            table.initial_values(rows[j], weights)[i],
            quotients::initial_factors(fri_domain.spec_values())[j],
        );
    }
    composition::law_composition_evaluates(constraint, columns, Xf::one());
    if Univariate::degree(fri_domain.interpolant(codeword)) < fri_domain.length - 1 {
        lemma_low_degree(fri_domain, codeword, dividend, zerofier, 1, Xf::one());
    }
}

/// Products are reduced.
proof fn lemma_quotient_canonical(a: Xf, b: Xf)
    ensures
        Xf::mul(a, b).canonical(),
{
    field_model::lemma_reduce(field_model::zmul(a, b));
}

/// Where a consistency constraint is violated at a row of a trace, its quotient has an interpolant of a
/// degree that, with that of the zerofier, does not fit the domain.
pub proof fn law_violated_consistency_constraints_show<T: Evaluable + ?Sized>(
    table: &T,
    fri_domain: FriDomain,
    columns: Seq<Seq<Xf>>,
    weights: Seq<Xf>,
    padded_height: usize,
    constraint: PolyModel,
    root: Xf,
    i: int,
)
    requires
        fri_domain.is_coset(),
        0 < padded_height <= u32::MAX,
        0 <= i < table.consistency_count(),
        constraint.exponents_match(columns.len()),
        Univariate::degree(composition::compose(constraint, columns)) < fri_domain.length,
        forall|j: int|
            0 <= j < fri_domain.length ==> Xf::pow(
                #[trigger] fri_domain.spec_value(j),
                padded_height as nat,
            ) != Xf::one(),
        forall|row: Seq<Xf>|
            row.len() == columns.len() ==> #[trigger] table.consistency_values(row, weights)[i]
                == constraint.value(row),
        Xf::pow(root, padded_height as nat) == Xf::one(),
        constraint.value(composition::row_at(columns, root)) != Xf::zero(),
    ensures
        Univariate::degree(
            fri_domain.interpolant(
                extension_table::spec_consistency_quotients(
                    table,
                    fri_domain,
                    Seq::new(
                        fri_domain.length as nat,
                        |j: int| composition::row_at(columns, fri_domain.spec_value(j)),
                    ),
                    weights,
                    padded_height,
                )[i],
            ),
        ) >= fri_domain.length - padded_height,
{
    let rows = Seq::new(
        fri_domain.length as nat,
        |j: int| composition::row_at(columns, fri_domain.spec_value(j)),
    );
    let codeword = extension_table::spec_consistency_quotients(
        table,
        fri_domain,
        rows,
        weights,
        padded_height,
    )[i];
    let height = padded_height as nat;
    let dividend = composition::compose(constraint, columns);
    let zerofier = Univariate::power_minus_one(height);
    composition::lemma_composition_canonical(constraint, columns);
    univariate::lemma_power_minus_one(height, root);
    field_model::lemma_difference_zero(Xf::one(), Xf::one());
    assert forall|j: int| 0 <= j < fri_domain.length implies Xf::mul(
        #[trigger] codeword[j],
        Univariate::value(zerofier, fri_domain.spec_value(j)),
    ) == Univariate::value(dividend, fri_domain.spec_value(j)) && codeword[j].canonical() by {
        let x = fri_domain.spec_value(j);
        assert(table.consistency_values(rows[j], weights)[i] == constraint.value(rows[j]));
        constraint.lemma_value_canonical(rows[j]);
        operations::law_consistency_quotient_divides(
            table,
            fri_domain,
            rows,
            weights,
            padded_height,
            i,
            j,
        );
        univariate::lemma_power_minus_one(height, x);
        composition::law_composition_evaluates(constraint, columns, x);
        lemma_quotient_canonical(
            table.consistency_values(rows[j], weights)[i],
            quotients::consistency_factors(fri_domain.spec_values(), padded_height as u32)[j],
        );
    }
    composition::law_composition_evaluates(constraint, columns, root);
    if Univariate::degree(fri_domain.interpolant(codeword)) < fri_domain.length - padded_height {
        lemma_low_degree(fri_domain, codeword, dividend, zerofier, height as int, root);
    }
}

/// Where a transition constraint is violated between a row of a trace, not its last, and the row one
/// step on, its quotient has an interpolant of a degree that, with that of the zerofier, does not fit
/// the domain.
pub proof fn law_violated_transition_constraints_show<T: Evaluable + ?Sized>(
    table: &T,
    fri_domain: FriDomain,
    columns: Seq<Seq<Xf>>,
    weights: Seq<Xf>,
    omicron: Xf,
    padded_height: usize,
    constraint: PolyModel,
    t: int,
    i: int,
)
    requires
        fri_domain.is_coset(),
        0 <= t < padded_height - 1,
        fri_domain.length % padded_height == 0,
        fri_domain.length - 1 + fri_domain.length as int / padded_height as int <= usize::MAX,
        omicron == Xf::pow(
            Xf { c0: fri_domain.omega@, c1: 0, c2: 0 },
            (fri_domain.length as int / padded_height as int) as nat,
        ),
        0 <= i < table.transition_count(),
        constraint.exponents_match(2 * columns.len()),
        Univariate::degree(
            composition::compose(constraint, composition::transition_columns(columns, omicron)),
        ) + 1 < fri_domain.length,
        forall|j: int|
            0 <= j < fri_domain.length ==> Xf::pow(
                #[trigger] fri_domain.spec_value(j),
                padded_height as nat,
            ) != Xf::one(),
        forall|row: Seq<Xf>, next_row: Seq<Xf>|
            row.len() == columns.len() && next_row.len() == columns.len()
                ==> #[trigger] table.transition_values(row, next_row, weights)[i]
                == constraint.value(row + next_row),
        constraint.value(
            composition::row_at(columns, Xf::pow(omicron, t as nat)) + composition::row_at(
                columns,
                Xf::pow(omicron, (t + 1) as nat),
            ),
        ) != Xf::zero(),
    ensures
        Univariate::degree(
            fri_domain.interpolant(
                extension_table::spec_transition_quotients(
                    table,
                    fri_domain,
                    Seq::new(
                        fri_domain.length as nat,
                        |j: int| composition::row_at(columns, fri_domain.spec_value(j)),
                    ),
                    weights,
                    omicron,
                    padded_height,
                )[i],
            ),
        ) >= fri_domain.length - padded_height,
{
    let rows = Seq::new(
        fri_domain.length as nat,
        |j: int| composition::row_at(columns, fri_domain.spec_value(j)),
    );
    let codeword = extension_table::spec_transition_quotients(
        table,
        fri_domain,
        rows,
        weights,
        omicron,
        padded_height,
    )[i];
    let n = fri_domain.length as int;
    let height = padded_height as nat;
    let both = composition::transition_columns(columns, omicron);
    let composed = composition::compose(constraint, both);
    let last = Xf::pow(omicron, (height - 1) as nat);
    let last_row = Univariate::linear(last);
    let dividend = Univariate::mul(composed, last_row);
    let zerofier = Univariate::power_minus_one(height);
    let trace = valid_trace::trace_domain(omicron, height);
    let root = trace[t];
    let k = choose|k: nat| fri_domain.length == #[trigger] pow2(k);
    valid_trace::lemma_trace_domain(fri_domain, omicron, padded_height);
    assert(trace[height - 1] == last);
    assert(root != last) by {
        assert(trace[t] != trace[height - 1]);
    }
    interpolation::lemma_product_canonical(composed, last_row);
    let degree = Univariate::degree(composed);
    univariate::lemma_degree_range(composed);
    univariate::lemma_degree(composed, degree);
    univariate::lemma_linear(last, root);
    univariate::lemma_degree_mul(composed, last_row, degree, 1);
    assert(Univariate::degree_at_most(dividend, n - 1));
    univariate::lemma_degree(dividend, n - 1);
    univariate::lemma_power_minus_one(height, root);
    assert forall|j: int| 0 <= j < fri_domain.length implies Xf::mul(
        #[trigger] codeword[j],
        Univariate::value(zerofier, fri_domain.spec_value(j)),
    ) == Univariate::value(dividend, fri_domain.spec_value(j)) && codeword[j].canonical() by {
        let x = fri_domain.spec_value(j);
        laws::law_successor_is_one_step(fri_domain, padded_height, omicron, j, k);
        laws::law_transition_points_are_column_values(
            fri_domain,
            columns,
            rows,
            padded_height,
            omicron,
            j,
            k,
        );
        let next = quotients::successor(fri_domain, padded_height, j);
        assert(table.transition_values(rows[j], rows[next], weights)[i] == constraint.value(
            rows[j] + rows[next],
        ));
        operations::law_transition_quotient_pairs_rows_one_step_apart(
            table,
            fri_domain,
            rows,
            weights,
            omicron,
            padded_height,
            i,
            j,
            next,
        );
        univariate::lemma_power_minus_one(height, x);
        univariate::lemma_linear(last, x);
        univariate::lemma_value_mul(composed, last_row, x);
        composition::law_composition_evaluates(constraint, both, x);
        lemma_quotient_canonical(
            table.transition_values(rows[j], rows[next], weights)[i],
            quotients::transition_factors(
                fri_domain.spec_values(),
                padded_height as u32,
                omicron,
            )[j],
        );
    }
    valid_trace::lemma_step(columns, omicron, root);
    field_model::lemma_mul_commutes(omicron, root);
    assert(((t + 1) as nat - 1) as nat == t as nat);
    composition::law_composition_evaluates(constraint, both, root);
    if Univariate::degree(fri_domain.interpolant(codeword)) < n - padded_height {
        lemma_low_degree(fri_domain, codeword, dividend, zerofier, height as int, root);
        univariate::lemma_value_mul(composed, last_row, root);
        univariate::lemma_value_canonical(composed, root);
        interpolation::lemma_base_difference(root, last);
        prime::lemma_no_zero_divisor(Univariate::value(composed, root), Xf::sub(root, last));
    }
}

/// Where a terminal constraint is violated at the last row of a trace, its quotient has an interpolant
/// of the largest possible degree. So the degree check reports it.
pub proof fn law_violated_terminal_constraints_show<T: Evaluable + ?Sized>(
    table: &T,
    fri_domain: FriDomain,
    columns: Seq<Seq<Xf>>,
    weights: Seq<Xf>,
    omicron: Xf,
    height: nat,
    constraint: PolyModel,
    i: int,
)
    requires
        fri_domain.is_coset(),
        omicron.is_base(),
        height > 0,
        Xf::pow(omicron, height) == Xf::one(),
        0 <= i < table.terminal_count(),
        constraint.exponents_match(columns.len()),
        Univariate::degree(composition::compose(constraint, columns)) < fri_domain.length,
        forall|j: int|
            0 <= j < fri_domain.length ==> #[trigger] fri_domain.spec_value(j) != Xf::pow(
                omicron,
                (height - 1) as nat,
            ),
        forall|row: Seq<Xf>|
            row.len() == columns.len() ==> #[trigger] table.terminal_values(row, weights)[i]
                == constraint.value(row),
        constraint.value(composition::row_at(columns, Xf::pow(omicron, (height - 1) as nat)))
            != Xf::zero(),
    ensures
        Univariate::degree(
            fri_domain.interpolant(
                extension_table::spec_terminal_quotients(
                    table,
                    fri_domain,
                    Seq::new(
                        fri_domain.length as nat,
                        |j: int| composition::row_at(columns, fri_domain.spec_value(j)),
                    ),
                    weights,
                    omicron,
                )[i],
            ),
        ) >= fri_domain.length - 1,
{
    let rows = Seq::new(
        fri_domain.length as nat,
        |j: int| composition::row_at(columns, fri_domain.spec_value(j)),
    );
    let codeword = extension_table::spec_terminal_quotients(
        table,
        fri_domain,
        rows,
        weights,
        omicron,
    )[i];
    let last = Xf::pow(omicron, (height - 1) as nat);
    let dividend = composition::compose(constraint, columns);
    let zerofier = Univariate::linear(last);
    field_model::lemma_base_powers(omicron, (height - 1) as nat);
    composition::lemma_composition_canonical(constraint, columns);
    univariate::lemma_linear(last, last);
    field_model::lemma_difference_zero(last, last);
    assert forall|j: int| 0 <= j < fri_domain.length implies Xf::mul(
        #[trigger] codeword[j],
        Univariate::value(zerofier, fri_domain.spec_value(j)),
    ) == Univariate::value(dividend, fri_domain.spec_value(j)) && codeword[j].canonical() by {
        let x = fri_domain.spec_value(j);
        let z = Xf::sub(x, last);
        fri_domain.lemma_value_is_base(j);
        interpolation::lemma_base_difference(x, last);
        prime::law_base_elements_have_inverses(z);
        assert(table.terminal_values(rows[j], weights)[i] == constraint.value(rows[j]));
        constraint.lemma_value_canonical(rows[j]);
        operations::law_terminal_quotient_divides(
            table,
            fri_domain,
            rows,
            weights,
            omicron,
            last,
            Xf::inv(z),
            i,
            j,
        );
        univariate::lemma_linear(last, x);
        composition::law_composition_evaluates(constraint, columns, x);
        lemma_quotient_canonical(
            table.terminal_values(rows[j], weights)[i],
            quotients::terminal_factors(fri_domain.spec_values(), omicron)[j],
        );
    }
    composition::law_composition_evaluates(constraint, columns, last);
    if Univariate::degree(fri_domain.interpolant(codeword)) < fri_domain.length - 1 {
        lemma_low_degree(fri_domain, codeword, dividend, zerofier, 1, last);
    }
}

} // verus!
