//! What holds of quotients, degree bounds and domains beyond the contract of any one function.
use crate::composition;
use crate::degree_bounds;
use crate::degree_with_origin;
use crate::extension_table;
use crate::extension_table::Evaluable;
use crate::extension_table::ExtensionTable;
use crate::field_model;
use crate::field_model::Xf;
use crate::fri_domain::FriDomain;
use crate::mpolynomial::PolyModel;
use crate::mpolynomial::TermModel;
use crate::quotients;
use crate::table_collection;
use crate::univariate;
use crate::univariate::Univariate;
use vstd::arithmetic::div_mod::*;
use vstd::arithmetic::mul::*;
use vstd::arithmetic::power2::*;
use vstd::bits::*;
use vstd::prelude::*;

verus! {

/// The initial zerofier vanishes at one, the domain value of the first row, and nowhere else.
pub proof fn law_initial_zerofier_root(x: Xf)
    requires
        x.canonical(),
    ensures
        quotients::initial_zerofier(x) == Xf::zero() <==> x == Xf::one(),
{
    field_model::lemma_difference_zero(x, Xf::one());
}

/// The subgroup zerofier vanishes at exactly those elements whose power by the height is one.
pub proof fn law_subgroup_zerofier_roots(x: Xf, height: u32)
    ensures
        quotients::subgroup_zerofier(x, height) == Xf::zero() <==> Xf::pow(x, height as nat)
            == Xf::one(),
{
    field_model::lemma_pow_canonical(x, height as nat);
    field_model::lemma_difference_zero(Xf::pow(x, height as nat), Xf::one());
}

/// The terminal zerofier vanishes at the last value of the cyclic group that `omicron` generates, and
/// nowhere else.
pub proof fn law_terminal_zerofier_root(x: Xf, omicron: Xf, order: nat)
    requires
        x.canonical(),
        order > 0,
        Xf::pow(omicron, order) == Xf::one(),
    ensures
        quotients::terminal_zerofier(x, omicron) == Xf::zero() <==> x == Xf::pow(
            omicron,
            (order - 1) as nat,
        ),
{
    let last = Xf::pow(omicron, (order - 1) as nat);
    field_model::lemma_pow_canonical(omicron, (order - 1) as nat);
    field_model::lemma_inverse_unique(omicron, last);
    field_model::lemma_difference_zero(x, last);
}

/// A quotient vanishes exactly where its constraint holds: dividing by what is not zero neither
/// adds nor removes roots.
pub proof fn law_quotient_vanishes_with_constraint(
    count: nat,
    values: Seq<Seq<Xf>>,
    factors: Seq<Xf>,
    zerofiers: Seq<Xf>,
    i: int,
    j: int,
)
    requires
        0 <= i < count,
        0 <= j < values.len(),
        quotients::divides_cleanly(
            quotients::quotient_codewords(count, values, factors),
            values,
            zerofiers,
        ),
    ensures
        quotients::quotient_codewords(count, values, factors)[i][j] == Xf::zero()
            <==> values[j][i] == Xf::zero(),
{
    let codewords = quotients::quotient_codewords(count, values, factors);
    assert(codewords[i][j] == Xf::mul(values[j][i], factors[j]));
    assert(Xf::mul(codewords[i][j], zerofiers[j]) == values[j][i]);
    field_model::lemma_mul_basics(zerofiers[j]);
    field_model::lemma_mul_basics(factors[j]);
}

/// A transition quotient vanishes exactly where its constraint holds, wherever the value that the
/// constraint is multiplied with has an inverse.
pub proof fn law_transition_quotient_vanishes_with_constraint(
    count: nat,
    values: Seq<Seq<Xf>>,
    factors: Seq<Xf>,
    zerofiers: Seq<Xf>,
    numerators: Seq<Xf>,
    numerator_inverse: Xf,
    i: int,
    j: int,
)
    requires
        0 <= i < count,
        0 <= j < values.len(),
        quotients::all_reduced(values, count),
        quotients::divides(
            quotients::quotient_codewords(count, values, factors),
            values,
            zerofiers,
            numerators,
        ),
        Xf::mul(numerator_inverse, numerators[j]) == Xf::one(),
    ensures
        quotients::quotient_codewords(count, values, factors)[i][j] == Xf::zero()
            <==> values[j][i] == Xf::zero(),
{
    let codewords = quotients::quotient_codewords(count, values, factors);
    let value = values[j][i];
    assert(values[j].len() == count);
    assert(value.canonical());
    assert(codewords[i][j] == Xf::mul(value, factors[j]));
    assert(Xf::mul(codewords[i][j], zerofiers[j]) == Xf::mul(value, numerators[j]));
    field_model::lemma_mul_basics(zerofiers[j]);
    field_model::lemma_mul_basics(factors[j]);
    if codewords[i][j] == Xf::zero() {
        // value == value * (numerator * inverse) == 0 * inverse
        field_model::lemma_mul_commutes(numerator_inverse, numerators[j]);
        field_model::lemma_mul_associates(value, numerators[j], numerator_inverse);
        field_model::lemma_mul_basics(numerator_inverse);
        field_model::lemma_mul_basics(value);
        field_model::lemma_reduce(value);
    }
}

/// Masking the index of a successor is reducing it modulo the domain's length, where that is a power
/// of two.
pub proof fn law_mask_is_modulo(j: int, unit_distance: int, length: usize, k: nat)
    requires
        length == pow2(k),
        0 <= j,
        0 <= unit_distance,
        j + unit_distance <= usize::MAX,
    ensures
        quotients::next_row_index(j, unit_distance, length) == (j + unit_distance) % (length as int),
{
    let n = (j + unit_distance) as usize;
    lemma_pow2_pos(k);
    if k >= usize::BITS {
        lemma_pow2_at_bits();
        if k > usize::BITS {
            lemma_pow2_strictly_increases(usize::BITS as nat, k);
        }
        assert(false);
    }
    lemma_usize_low_bits_mask_is_mod(n, k);
}

/// Two to the number of bits of an index is more than an index can be.
proof fn lemma_pow2_at_bits()
    ensures
        pow2(usize::BITS as nat) > usize::MAX,
{
    lemma2_to64();
    lemma2_to64_rest();
    assert(pow2(64) == 0x1_0000_0000_0000_0000);
}

/// The successor of a row on the domain is one step of the trace further on: its domain value is
/// that of the row times `omicron`, where `omicron` is the power of `omega` by the number of domain
/// values for each row of the trace.
pub proof fn law_successor_is_one_step(
    fri_domain: FriDomain,
    padded_height: usize,
    omicron: Xf,
    j: int,
    k: nat,
)
    requires
        fri_domain.length == pow2(k),
        Xf::pow(fri_domain.omega.lifted(), fri_domain.length as nat) == Xf::one(),
        padded_height > 0,
        fri_domain.length - 1 + fri_domain.length as int / padded_height as int <= usize::MAX,
        omicron == Xf::pow(
            fri_domain.omega.lifted(),
            (fri_domain.length as int / padded_height as int) as nat,
        ),
        0 <= j < fri_domain.length,
    ensures
        0 <= quotients::successor(fri_domain, padded_height, j) < fri_domain.length,
        fri_domain.spec_value(quotients::successor(fri_domain, padded_height, j)) == Xf::mul(
            omicron,
            fri_domain.spec_value(j),
        ),
{
    let omega = fri_domain.omega.lifted();
    let offset = fri_domain.offset.lifted();
    let length = fri_domain.length as int;
    let unit_distance = fri_domain.length as int / padded_height as int;
    lemma_div_pos_is_pos(length, padded_height as int);
    law_mask_is_modulo(j, unit_distance, fri_domain.length, k);
    let next = (j + unit_distance) % length;
    let turns = (j + unit_distance) / length;
    lemma_fundamental_div_mod(j + unit_distance, length);
    lemma_div_pos_is_pos(j + unit_distance, length);
    lemma_mod_bound(j + unit_distance, length);
    field_model::lemma_pow_wraps(omega, length as nat, turns as nat, next as nat);
    assert(length as nat * turns as nat + next as nat == unit_distance as nat + j as nat);
    field_model::lemma_pow_adds(omega, unit_distance as nat, j as nat);
    field_model::lemma_mul_associates(omicron, Xf::pow(omega, j as nat), offset);
}

/// There is one quotient for each constraint, and each is a codeword over the whole domain.
pub proof fn law_quotient_shape<T: Evaluable + ?Sized>(
    table: &T,
    fri_domain: FriDomain,
    rows: Seq<Seq<Xf>>,
    weights: Seq<Xf>,
    omicron: Xf,
    padded_height: usize,
)
    requires
        quotients::rows_match(fri_domain, rows),
    ensures
        ({
            let all = extension_table::spec_all_quotients(
                table,
                fri_domain,
                rows,
                weights,
                omicron,
                padded_height,
            );
            &&& all.len() == table.initial_count() + table.consistency_count()
                + table.transition_count() + table.terminal_count()
            &&& forall|i: int|
                0 <= i < all.len() ==> (#[trigger] all[i]).len() == fri_domain.length
        }),
{
}

/// Where a table evaluates as many constraints as it hands out, there is one computed degree bound
/// for each quotient.
pub proof fn law_one_bound_for_each_quotient<T: Evaluable + ?Sized>(
    table: &T,
    fri_domain: FriDomain,
    rows: Seq<Seq<Xf>>,
    weights: Seq<Xf>,
    omicron: Xf,
    padded_height: usize,
    num_trace_randomizers: usize,
)
    requires
        table.initial_count() == table.initial_constraints_for(table.placeholder_weights()).len(),
        table.consistency_count() == table.consistency_constraints_for(
            table.placeholder_weights(),
        ).len(),
        table.transition_count() == table.transition_constraints_for(
            table.placeholder_weights(),
        ).len(),
        table.terminal_count() == table.terminal_constraints_for(table.placeholder_weights()).len(),
        extension_table::no_stored_bounds(table),
    ensures
        extension_table::spec_all_bounds(table, padded_height, num_trace_randomizers).len()
            == extension_table::spec_all_quotients(
            table,
            fri_domain,
            rows,
            weights,
            omicron,
            padded_height,
        ).len(),
{
}

/// The degrees with origin are the degree bounds, in the same order.
pub proof fn law_degrees_are_bounds<T: ExtensionTable + ?Sized>(
    table: &T,
    padded_height: usize,
    num_trace_randomizers: usize,
)
    ensures
        ({
            let degrees = extension_table::spec_all_degrees_with_origin(
                table,
                padded_height,
                num_trace_randomizers,
            );
            let bounds = extension_table::spec_all_bounds(
                table,
                padded_height,
                num_trace_randomizers,
            );
            &&& degrees.len() == bounds.len()
            &&& forall|i: int| 0 <= i < bounds.len() ==> (#[trigger] degrees[i]).degree == bounds[i]
        }),
{
}

/// Where every column has the same degree, a term's degree is that times its total degree.
pub proof fn lemma_uniform_term(exponents: Seq<u8>, width: nat, degree: int)
    requires
        exponents.len() <= width,
        0 <= degree <= i64::MAX,
    ensures
        TermModel::weighted_degree(exponents, degree_bounds::uniform(width, degree)) == degree
            * TermModel::total_degree(exponents),
    decreases exponents.len(),
{
    let degrees = degree_bounds::uniform(width, degree);
    if exponents.len() > 0 {
        let rest = exponents.drop_last();
        let last = exponents.last() as int;
        lemma_uniform_term(rest, width, degree);
        assert(degrees[exponents.len() - 1] == degree);
        assert(TermModel::weighted_degree(exponents, degrees) == TermModel::weighted_degree(
            rest,
            degrees,
        ) + degree * last);
        assert(TermModel::total_degree(exponents) == TermModel::total_degree(rest) + last);
        lemma_mul_is_distributive_add(degree, TermModel::total_degree(rest) as int, last);
    } else {
        assert(TermModel::weighted_degree(exponents, degrees) == 0);
        assert(TermModel::total_degree(exponents) == 0);
    }
}

/// Where every column has the same degree, a constraint's degree bound is that times its total
/// degree, unless it is zero.
proof fn lemma_uniform_max(terms: Seq<TermModel>, width: nat, degree: int)
    requires
        forall|i: int| 0 <= i < terms.len() ==> (#[trigger] terms[i]).exponents.len() == width,
        0 <= degree <= i64::MAX,
    ensures
        PolyModel::max_weighted_degree(terms, degree_bounds::uniform(width, degree)) == (
        if PolyModel::max_total_degree(terms) < 0 {
            -1
        } else {
            degree * PolyModel::max_total_degree(terms)
        }),
        PolyModel::max_total_degree(terms) >= -1,
    decreases terms.len(),
{
    if terms.len() > 0 {
        let rest = terms.drop_last();
        assert forall|i: int| 0 <= i < rest.len() implies (#[trigger] rest[i]).exponents.len()
            == width by {
            assert(rest[i] == terms[i]);
        }
        lemma_uniform_max(rest, width, degree);
        let last = terms.last();
        assert(last == terms[terms.len() - 1]);
        lemma_uniform_term(last.exponents, width, degree);
        let a = TermModel::total_degree(last.exponents) as int;
        let b = PolyModel::max_total_degree(rest);
        lemma_mul_nonnegative(degree, a);
        if a <= b {
            lemma_mul_inequality(a, b, degree);
            lemma_mul_is_commutative(a, degree);
            lemma_mul_is_commutative(b, degree);
        } else if b >= 0 {
            lemma_mul_inequality(b, a, degree);
            lemma_mul_is_commutative(a, degree);
            lemma_mul_is_commutative(b, degree);
        }
    }
}

/// A degree that was computed from a constraint other than zero can be described, and the description
/// gives the constraint's total degree: the degree of the quotient, plus that of the zerofier, is a
/// multiple of the degree of the columns' interpolants.
pub proof fn law_computed_degrees_are_describable(
    constraints: Seq<PolyModel>,
    width: nat,
    padded_height: usize,
    num_trace_randomizers: usize,
    zerofier_degree: int,
    table_name: Seq<char>,
    constraint_type: Seq<char>,
    i: int,
)
    requires
        0 <= i < constraints.len(),
        constraints[i].exponents_match(width),
        degree_bounds::quotient_bounds_exist(
            None,
            constraints,
            width as int,
            padded_height,
            num_trace_randomizers,
            zerofier_degree,
        ),
        -1 <= zerofier_degree <= i64::MAX,
        constraints[i].degree() >= 0,
        table_collection::spec_interpolant_degree(padded_height, num_trace_randomizers) != 0,
    ensures
        ({
            let origin = degree_with_origin::with_origin(
                degree_bounds::quotient_bounds(
                    None,
                    constraints,
                    width as int,
                    padded_height,
                    num_trace_randomizers,
                    zerofier_degree,
                ),
                zerofier_degree,
                table_name,
                padded_height,
                num_trace_randomizers,
                constraint_type,
            )[i];
            &&& origin.is_describable()
            &&& origin.corrected_degree() / origin.interpolant_degree() == constraints[i].degree()
        }),
{
    let degree = table_collection::spec_interpolant_degree(padded_height, num_trace_randomizers);
    let degrees = degree_bounds::uniform(width, degree);
    lemma_uniform_max(constraints[i].terms, width, degree);
    degree_bounds::lemma_degree_bound_range(constraints[i], degrees);
    let total = constraints[i].degree();
    assert(constraints[i].degree_bound(degrees) == degree * total);
    lemma_div_multiples_vanish(total, degree);
    lemma_mod_multiples_basic(total, degree);
    lemma_mul_is_commutative(total, degree);
}

/// Constraints in `width` variables, none of them zero.
pub open spec fn nonzero_constraints(constraints: Seq<PolyModel>, width: nat) -> bool {
    forall|i: int|
        0 <= i < constraints.len() ==> (#[trigger] constraints[i]).degree() >= 0
            && constraints[i].exponents_match(width)
}

/// All degrees with origin can be described, where the degree bounds are computed from constraints
/// other than zero, and each description gives the total degree of the constraint at the same place.
pub proof fn law_all_degrees_are_describable<T: ExtensionTable + ?Sized>(
    table: &T,
    padded_height: usize,
    num_trace_randomizers: usize,
    i: int,
)
    requires
        extension_table::all_bounds_exist(table, padded_height, num_trace_randomizers),
        padded_height <= i64::MAX,
        extension_table::no_stored_bounds(table),
        nonzero_constraints(
            table.initial_constraints_for(table.placeholder_weights()),
            table.table().full_width as nat,
        ),
        nonzero_constraints(
            table.consistency_constraints_for(table.placeholder_weights()),
            table.table().full_width as nat,
        ),
        nonzero_constraints(
            table.transition_constraints_for(table.placeholder_weights()),
            (2 * table.table().full_width) as nat,
        ),
        nonzero_constraints(
            table.terminal_constraints_for(table.placeholder_weights()),
            table.table().full_width as nat,
        ),
        table_collection::spec_interpolant_degree(padded_height, num_trace_randomizers) != 0,
        0 <= i < extension_table::spec_all_degrees_with_origin(
            table,
            padded_height,
            num_trace_randomizers,
        ).len(),
    ensures
        ({
            let origin = extension_table::spec_all_degrees_with_origin(
                table,
                padded_height,
                num_trace_randomizers,
            )[i];
            let constraint = extension_table::all_constraints_for(
                table,
                table.placeholder_weights(),
            )[i];
            &&& origin.is_describable()
            &&& origin.corrected_degree() / origin.interpolant_degree() == constraint.degree()
        }),
{
    let weights = table.placeholder_weights();
    let width = table.table().full_width as nat;
    let initial = table.initial_constraints_for(weights);
    let consistency = table.consistency_constraints_for(weights);
    let transition = table.transition_constraints_for(weights);
    let terminal = table.terminal_constraints_for(weights);
    let a = initial.len() as int;
    let b = a + consistency.len();
    let c = b + transition.len();
    if i < a {
        law_computed_degrees_are_describable(
            initial,
            width,
            padded_height,
            num_trace_randomizers,
            1,
            table.table().name@,
            "initial constraint"@,
            i,
        );
    } else if i < b {
        law_computed_degrees_are_describable(
            consistency,
            width,
            padded_height,
            num_trace_randomizers,
            padded_height as int,
            table.table().name@,
            "consistency constraint"@,
            i - a,
        );
    } else if i < c {
        law_computed_degrees_are_describable(
            transition,
            2 * width,
            padded_height,
            num_trace_randomizers,
            padded_height - 1,
            table.table().name@,
            "transition constraint"@,
            i - b,
        );
    } else {
        law_computed_degrees_are_describable(
            terminal,
            width,
            padded_height,
            num_trace_randomizers,
            1,
            table.table().name@,
            "terminal constraint"@,
            i - c,
        );
    }
}

/// The zerofiers are monic polynomials, of the degrees that the degree bounds are lessened by.
pub proof fn law_zerofier_degrees(x: Xf, height: u32, omicron: Xf)
    requires
        height > 0,
    ensures
        Univariate::monic(Univariate::linear(Xf::one()), 1),
        Univariate::value(Univariate::linear(Xf::one()), x) == quotients::initial_zerofier(x),
        Univariate::monic(Univariate::power_minus_one(height as nat), height as int),
        Univariate::value(Univariate::power_minus_one(height as nat), x)
            == quotients::subgroup_zerofier(x, height),
        Univariate::monic(Univariate::linear(Xf::inv(omicron)), 1),
        Univariate::value(Univariate::linear(Xf::inv(omicron)), x) == quotients::terminal_zerofier(
            x,
            omicron,
        ),
{
    univariate::lemma_linear(Xf::one(), x);
    univariate::lemma_power_minus_one(height as nat, x);
    univariate::lemma_linear(Xf::inv(omicron), x);
}

/// A computed degree bound, as a number.
pub proof fn lemma_computed_bound(
    constraints: Seq<PolyModel>,
    width: nat,
    padded_height: usize,
    num_trace_randomizers: usize,
    zerofier_degree: int,
    i: int,
)
    requires
        0 <= i < constraints.len(),
        degree_bounds::quotient_bounds_exist(
            None,
            constraints,
            width as int,
            padded_height,
            num_trace_randomizers,
            zerofier_degree,
        ),
        zerofier_degree <= i64::MAX,
    ensures
        degree_bounds::quotient_bounds(
            None,
            constraints,
            width as int,
            padded_height,
            num_trace_randomizers,
            zerofier_degree,
        )[i] == constraints[i].degree_bound(
            degree_bounds::uniform(
                width,
                table_collection::spec_interpolant_degree(padded_height, num_trace_randomizers),
            ),
        ) - zerofier_degree,
{
    let degrees = degree_bounds::uniform(
        width,
        table_collection::spec_interpolant_degree(padded_height, num_trace_randomizers),
    );
    assert(constraints[i].degree_bound_fits(degrees));
    degree_bounds::lemma_degree_bound_range(constraints[i], degrees);
}

/// Computed degree bounds bound the degrees of quotients: where every column of a table interpolates
/// its rows and randomizers, and a constraint of these columns is the product of a quotient and a
/// monic zerofier, the quotient has at most the degree that was computed for it, or is zero.
pub proof fn law_quotient_degree_is_bounded(
    constraints: Seq<PolyModel>,
    columns: Seq<Seq<Xf>>,
    padded_height: usize,
    num_trace_randomizers: usize,
    zerofier: Seq<Xf>,
    zerofier_degree: int,
    quotient: Seq<Xf>,
    i: int,
)
    requires
        0 <= i < constraints.len(),
        constraints[i].exponents_match(columns.len()),
        degree_bounds::quotient_bounds_exist(
            None,
            constraints,
            columns.len() as int,
            padded_height,
            num_trace_randomizers,
            zerofier_degree,
        ),
        composition::degrees_at_most(columns, padded_height + num_trace_randomizers - 1),
        0 <= zerofier_degree <= i64::MAX,
        Univariate::monic(zerofier, zerofier_degree),
        Univariate::canonical(quotient),
        Univariate::same(
            Univariate::mul(quotient, zerofier),
            composition::compose(constraints[i], columns),
        ),
    ensures
        Univariate::degree(quotient) == -1 || Univariate::degree(quotient)
            <= degree_bounds::quotient_bounds(
            None,
            constraints,
            columns.len() as int,
            padded_height,
            num_trace_randomizers,
            zerofier_degree,
        )[i],
{
    let degrees = degree_bounds::uniform(
        columns.len(),
        table_collection::spec_interpolant_degree(padded_height, num_trace_randomizers),
    );
    let composed = composition::compose(constraints[i], columns);
    let bound = constraints[i].degree_bound(degrees);
    composition::lemma_uniformly_bounded(columns, padded_height + num_trace_randomizers - 1);
    lemma_computed_bound(
        constraints,
        columns.len(),
        padded_height,
        num_trace_randomizers,
        zerofier_degree,
        i,
    );
    composition::law_composition_degree(constraints[i], columns, degrees);
    assert(constraints[i].degree_bound_fits(degrees));
    degree_bounds::lemma_degree_bound_range(constraints[i], degrees);
    univariate::lemma_degree(composed, bound);
    univariate::lemma_quotient_degree(quotient, zerofier, composed, zerofier_degree, bound);
}

/// The same for transition quotients, whose zerofier leaves out the last row: there the constraint of
/// the columns, times the terminal zerofier, is the product of the quotient and the subgroup zerofier.
pub proof fn law_transition_quotient_degree_is_bounded(
    constraints: Seq<PolyModel>,
    columns: Seq<Seq<Xf>>,
    padded_height: usize,
    num_trace_randomizers: usize,
    omicron: Xf,
    quotient: Seq<Xf>,
    i: int,
)
    requires
        0 <= i < constraints.len(),
        padded_height > 0,
        constraints[i].exponents_match(columns.len()),
        degree_bounds::quotient_bounds_exist(
            None,
            constraints,
            columns.len() as int,
            padded_height,
            num_trace_randomizers,
            padded_height - 1,
        ),
        composition::degrees_at_most(columns, padded_height + num_trace_randomizers - 1),
        Univariate::canonical(quotient),
        Univariate::same(
            Univariate::mul(quotient, Univariate::power_minus_one(padded_height as nat)),
            Univariate::mul(
                composition::compose(constraints[i], columns),
                Univariate::linear(Xf::inv(omicron)),
            ),
        ),
    ensures
        Univariate::degree(quotient) == -1 || Univariate::degree(quotient)
            <= degree_bounds::quotient_bounds(
            None,
            constraints,
            columns.len() as int,
            padded_height,
            num_trace_randomizers,
            padded_height - 1,
        )[i],
{
    let degrees = degree_bounds::uniform(
        columns.len(),
        table_collection::spec_interpolant_degree(padded_height, num_trace_randomizers),
    );
    let composed = composition::compose(constraints[i], columns);
    let last_row = Univariate::linear(Xf::inv(omicron));
    let bound = constraints[i].degree_bound(degrees);
    composition::lemma_uniformly_bounded(columns, padded_height + num_trace_randomizers - 1);
    lemma_computed_bound(
        constraints,
        columns.len(),
        padded_height,
        num_trace_randomizers,
        padded_height - 1,
        i,
    );
    composition::law_composition_degree(constraints[i], columns, degrees);
    assert(constraints[i].degree_bound_fits(degrees));
    degree_bounds::lemma_degree_bound_range(constraints[i], degrees);
    univariate::lemma_degree(composed, bound);
    univariate::lemma_linear(Xf::inv(omicron), Xf::zero());
    univariate::lemma_degree_mul(composed, last_row, bound, 1);
    univariate::lemma_power_minus_one(padded_height as nat, Xf::zero());
    univariate::lemma_quotient_degree(
        quotient,
        Univariate::power_minus_one(padded_height as nat),
        Univariate::mul(composed, last_row),
        padded_height as int,
        if bound == -1 {
            -1
        } else {
            bound + 1
        },
    );
}

/// A quotient codeword holds the values of the quotient polynomial: where the rows are the values of
/// columns, and a constraint of these columns is the product of a quotient and a zerofier, the
/// codeword has at every domain value the value of that quotient.
pub proof fn law_codeword_holds_quotient_values(
    constraints: Seq<PolyModel>,
    columns: Seq<Seq<Xf>>,
    values: Seq<Xf>,
    zerofier: Seq<Xf>,
    factors: Seq<Xf>,
    quotient: Seq<Xf>,
    i: int,
    j: int,
)
    requires
        0 <= i < constraints.len(),
        0 <= j < values.len(),
        constraints[i].exponents_match(columns.len()),
        Univariate::same(
            Univariate::mul(quotient, zerofier),
            composition::compose(constraints[i], columns),
        ),
        quotients::factors_cancel(
            factors,
            Seq::new(values.len(), |k: int| Univariate::value(zerofier, values[k])),
            quotients::ones(values.len()),
        ),
    ensures
        quotients::quotient_codewords(
            constraints.len(),
            composition::values_at(constraints, columns, values),
            factors,
        )[i][j] == Univariate::value(quotient, values[j]),
{
    let x = values[j];
    let q = Univariate::value(quotient, x);
    let z = Univariate::value(zerofier, x);
    composition::law_composition_evaluates(constraints[i], columns, x);
    univariate::lemma_value_same(
        Univariate::mul(quotient, zerofier),
        composition::compose(constraints[i], columns),
        x,
    );
    univariate::lemma_value_mul(quotient, zerofier, x);
    assert(Xf::mul(factors[j], z) == Xf::one());
    field_model::lemma_mul_commutes(factors[j], z);
    field_model::lemma_mul_associates(q, z, factors[j]);
    field_model::lemma_mul_basics(q);
    univariate::lemma_value_canonical(quotient, x);
}

/// The same for transition quotients: where a constraint of the columns, times the terminal zerofier,
/// is the product of a quotient and the subgroup zerofier, the codeword has at every domain value the
/// value of that quotient.
pub proof fn law_transition_codeword_holds_quotient_values(
    constraints: Seq<PolyModel>,
    columns: Seq<Seq<Xf>>,
    values: Seq<Xf>,
    height: u32,
    omicron: Xf,
    quotient: Seq<Xf>,
    i: int,
    j: int,
)
    requires
        0 <= i < constraints.len(),
        0 <= j < values.len(),
        height > 0,
        constraints[i].exponents_match(columns.len()),
        Univariate::same(
            Univariate::mul(quotient, Univariate::power_minus_one(height as nat)),
            Univariate::mul(
                composition::compose(constraints[i], columns),
                Univariate::linear(Xf::inv(omicron)),
            ),
        ),
        quotients::factors_cancel(
            quotients::consistency_factors(values, height),
            quotients::subgroup_zerofiers(values, height),
            quotients::ones(values.len()),
        ),
    ensures
        quotients::quotient_codewords(
            constraints.len(),
            composition::values_at(constraints, columns, values),
            quotients::transition_factors(values, height, omicron),
        )[i][j] == Univariate::value(quotient, values[j]),
{
    let x = values[j];
    let q = Univariate::value(quotient, x);
    let z = quotients::subgroup_zerofier(x, height);
    let n = quotients::terminal_zerofier(x, omicron);
    let c = constraints[i].value(composition::row_at(columns, x));
    let composed = composition::compose(constraints[i], columns);
    let all = Univariate::power_minus_one(height as nat);
    let last_row = Univariate::linear(Xf::inv(omicron));
    composition::law_composition_evaluates(constraints[i], columns, x);
    law_zerofier_degrees(x, height, omicron);
    univariate::lemma_value_same(
        Univariate::mul(quotient, all),
        Univariate::mul(composed, last_row),
        x,
    );
    univariate::lemma_value_mul(quotient, all, x);
    univariate::lemma_value_mul(composed, last_row, x);
    assert(Xf::mul(q, z) == Xf::mul(c, n));
    let inverse = quotients::consistency_factors(values, height)[j];
    assert(Xf::mul(inverse, quotients::subgroup_zerofiers(values, height)[j]) == Xf::one());
    // c * (n * inverse) == (q * z) * inverse == q
    field_model::lemma_mul_associates(c, n, inverse);
    field_model::lemma_mul_associates(q, z, inverse);
    field_model::lemma_mul_commutes(inverse, z);
    field_model::lemma_mul_basics(q);
    univariate::lemma_value_canonical(quotient, x);
}

/// Where the rows are the values of columns, a row and its successor are the values, at the row's
/// domain value, of the columns and of the columns one step further on.
pub proof fn law_transition_points_are_column_values(
    fri_domain: FriDomain,
    columns: Seq<Seq<Xf>>,
    rows: Seq<Seq<Xf>>,
    padded_height: usize,
    omicron: Xf,
    j: int,
    k: nat,
)
    requires
        fri_domain.length == pow2(k),
        Xf::pow(fri_domain.omega.lifted(), fri_domain.length as nat) == Xf::one(),
        padded_height > 0,
        fri_domain.length - 1 + fri_domain.length as int / padded_height as int <= usize::MAX,
        omicron == Xf::pow(
            fri_domain.omega.lifted(),
            (fri_domain.length as int / padded_height as int) as nat,
        ),
        rows == Seq::new(
            fri_domain.length as nat,
            |l: int| composition::row_at(columns, fri_domain.spec_value(l)),
        ),
        0 <= j < fri_domain.length,
    ensures
        0 <= quotients::successor(fri_domain, padded_height, j) < fri_domain.length,
        rows[j] + rows[quotients::successor(fri_domain, padded_height, j)] == composition::row_at(
            composition::transition_columns(columns, omicron),
            fri_domain.spec_value(j),
        ),
{
    let x = fri_domain.spec_value(j);
    let length = fri_domain.length as int;
    let unit_distance = fri_domain.length as int / padded_height as int;
    let next = quotients::next_row_index(j, unit_distance, fri_domain.length);
    lemma_div_pos_is_pos(length, padded_height as int);
    law_mask_is_modulo(j, unit_distance, fri_domain.length, k);
    lemma_mod_bound(j + unit_distance, length);
    law_successor_is_one_step(fri_domain, padded_height, omicron, j, k);
    let both = composition::transition_columns(columns, omicron);
    let expected = composition::row_at(both, x);
    assert forall|l: int| 0 <= l < expected.len() implies #[trigger] expected[l] == (rows[j]
        + rows[next])[l] by {
        if l >= columns.len() {
            univariate::lemma_value_stretch(columns[l - columns.len()], omicron, x);
        }
    }
    assert(expected =~= rows[j] + rows[next]);
}

/// Columns one step further on have no higher degrees.
pub proof fn law_transition_columns_are_bounded(
    columns: Seq<Seq<Xf>>,
    omicron: Xf,
    degree: int,
)
    requires
        composition::columns_bounded(columns, degree_bounds::uniform(columns.len(), degree)),
    ensures
        composition::columns_bounded(
            composition::transition_columns(columns, omicron),
            degree_bounds::uniform(2 * columns.len(), degree),
        ),
{
    let both = composition::transition_columns(columns, omicron);
    let degrees = degree_bounds::uniform(columns.len(), degree);
    let twice = degree_bounds::uniform(2 * columns.len(), degree);
    assert forall|k: int| 0 <= k < both.len() implies Univariate::degree_at_most(
        #[trigger] both[k],
        twice[k] as int,
    ) && twice[k] >= 0 by {
        if k < columns.len() {
            assert(Univariate::degree_at_most(columns[k], degrees[k] as int));
        } else {
            let l = k - columns.len();
            assert(Univariate::degree_at_most(columns[l], degrees[l] as int));
            univariate::lemma_stretch_degree(columns[l], omicron, degrees[l] as int);
        }
    }
}

} // verus!
