//! What each operation yields, by its inputs and by what a table's constraints evaluate to.
use crate::b_field_element::BFieldElement;
use crate::decimal;
use crate::degree_bounds;
use crate::degree_with_origin::DegreeWithOrigin;
use crate::degree_with_origin::OriginModel;
use crate::extension_table;
use crate::extension_table::Evaluable;
use crate::extension_table::ExtensionTable;
use crate::extension_table::StoresConstraints;
use crate::field_model;
use crate::field_model::Xf;
use crate::fri_domain::FriDomain;
use crate::interpolation;
use crate::laws;
use crate::mpolynomial::Degree;
use crate::mpolynomial::MPolynomial;
use crate::mpolynomial::PolyModel;
use crate::mpolynomial::TermModel;
use crate::prime;
use crate::quotients;
use crate::table_collection;
use crate::univariate;
use crate::univariate::Univariate;
use crate::valid_trace;
use crate::x_field_element::XFieldElement;
use vstd::arithmetic::div_mod::*;
use vstd::arithmetic::mul::*;
use vstd::arithmetic::power2::*;
use vstd::prelude::*;

verus! {

/// Lists and matrices denote their elements, each at its place.
pub proof fn law_elements_are_denoted(
    elements: Seq<XFieldElement>,
    rows: Seq<Vec<XFieldElement>>,
    polynomials: Seq<MPolynomial>,
)
    ensures
        XFieldElement::views(elements).len() == elements.len(),
        forall|i: int|
            0 <= i < elements.len() ==> #[trigger] XFieldElement::views(elements)[i]
                == elements[i]@,
        quotients::matrix(rows).len() == rows.len(),
        forall|j: int|
            0 <= j < rows.len() ==> (#[trigger] quotients::matrix(rows)[j]).len()
                == rows[j]@.len(),
        forall|j: int, i: int|
            0 <= j < rows.len() && 0 <= i < rows[j]@.len() ==> #[trigger] quotients::matrix(
                rows,
            )[j][i] == rows[j]@[i]@,
        MPolynomial::views(polynomials).len() == polynomials.len(),
        forall|i: int|
            0 <= i < polynomials.len() ==> #[trigger] MPolynomial::views(polynomials)[i]
                == polynomials[i]@,
{
}

/// The domain starts at its offset, and each value is the one before it times `omega`.
pub proof fn law_domain_is_geometric(fri_domain: FriDomain, j: int)
    requires
        0 <= j < fri_domain.length,
    ensures
        fri_domain.spec_values().len() == fri_domain.length,
        fri_domain.spec_values()[j] == fri_domain.spec_value(j),
        fri_domain.spec_value(0) == (Xf { c0: fri_domain.offset@, c1: 0, c2: 0 }),
        fri_domain.spec_value(j + 1) == Xf::mul(
            fri_domain.spec_value(j),
            Xf { c0: fri_domain.omega@, c1: 0, c2: 0 },
        ),
{
    let omega = fri_domain.omega.lifted();
    let offset = fri_domain.offset.lifted();
    let power = Xf::pow(omega, j as nat);
    BFieldElement::lemma_canonical(fri_domain.offset);
    assert(Xf::pow(omega, 0) == Xf::one());
    field_model::lemma_mul_basics(offset);
    field_model::lemma_reduce(offset);
    assert(((j + 1) as nat - 1) as nat == j as nat);
    field_model::lemma_mul_associates(power, omega, offset);
    field_model::lemma_mul_commutes(omega, offset);
    field_model::lemma_mul_associates(power, offset, omega);
}

/// Every initial quotient, times the domain value less one, is the constraint's value at the row.
pub proof fn law_initial_quotient_divides<T: Evaluable + ?Sized>(
    table: &T,
    fri_domain: FriDomain,
    rows: Seq<Seq<Xf>>,
    weights: Seq<Xf>,
    i: int,
    j: int,
)
    requires
        rows.len() == fri_domain.length,
        0 <= i < table.initial_count(),
        0 <= j < fri_domain.length,
        fri_domain.spec_value(j) != Xf::one(),
        table.initial_values(rows[j], weights)[i].canonical(),
    ensures
        ({
            let quotients = extension_table::spec_initial_quotients(
                table,
                fri_domain,
                rows,
                weights,
            );
            &&& quotients.len() == table.initial_count()
            &&& quotients[i].len() == fri_domain.length
            &&& Xf::mul(quotients[i][j], Xf::sub(fri_domain.spec_value(j), Xf::one()))
                == table.initial_values(rows[j], weights)[i]
        }),
{
    let x = fri_domain.spec_value(j);
    fri_domain.lemma_value_is_base(j);
    interpolation::lemma_base_difference(x, Xf::one());
    lemma_division_undone(table.initial_values(rows[j], weights)[i], Xf::sub(x, Xf::one()));
}

/// What is multiplied with the inverse of a base element other than zero is got back by multiplying
/// with that element.
proof fn lemma_division_undone(value: Xf, z: Xf)
    requires
        value.canonical(),
        z.canonical(),
        z.is_base(),
        z != Xf::zero(),
    ensures
        Xf::mul(Xf::mul(value, Xf::inv(z)), z) == value,
{
    prime::law_base_elements_have_inverses(z);
    field_model::lemma_divide_multiply(value, z, Xf::inv(z));
    field_model::lemma_reduce(value);
}

/// Every consistency quotient, times the power of the domain value by the height less one, is the
/// constraint's value at the row.
pub proof fn law_consistency_quotient_divides<T: Evaluable + ?Sized>(
    table: &T,
    fri_domain: FriDomain,
    rows: Seq<Seq<Xf>>,
    weights: Seq<Xf>,
    padded_height: usize,
    i: int,
    j: int,
)
    requires
        rows.len() == fri_domain.length,
        0 <= i < table.consistency_count(),
        0 <= j < fri_domain.length,
        Xf::pow(fri_domain.spec_value(j), padded_height as u32 as nat) != Xf::one(),
        table.consistency_values(rows[j], weights)[i].canonical(),
    ensures
        ({
            let quotients = extension_table::spec_consistency_quotients(
                table,
                fri_domain,
                rows,
                weights,
                padded_height,
            );
            &&& quotients.len() == table.consistency_count()
            &&& quotients[i].len() == fri_domain.length
            &&& Xf::mul(
                quotients[i][j],
                Xf::sub(
                    Xf::pow(fri_domain.spec_value(j), padded_height as u32 as nat),
                    Xf::one(),
                ),
            ) == table.consistency_values(rows[j], weights)[i]
        }),
{
    let x = fri_domain.spec_value(j);
    let power = Xf::pow(x, padded_height as u32 as nat);
    fri_domain.lemma_value_is_base(j);
    field_model::lemma_base_powers(x, padded_height as u32 as nat);
    interpolation::lemma_base_difference(power, Xf::one());
    lemma_division_undone(
        table.consistency_values(rows[j], weights)[i],
        Xf::sub(power, Xf::one()),
    );
}

/// Every transition quotient, times the power of the domain value by the height less one, is the
/// constraint's value at the row and at the row as many places further on as the domain has values
/// for each row of the trace, times the domain value less the last value of the trace. `last` is that
/// value, the inverse of `omicron`.
pub proof fn law_transition_quotient_divides<T: Evaluable + ?Sized>(
    table: &T,
    fri_domain: FriDomain,
    rows: Seq<Seq<Xf>>,
    weights: Seq<Xf>,
    omicron: Xf,
    last: Xf,
    padded_height: usize,
    i: int,
    j: int,
)
    requires
        rows.len() == fri_domain.length,
        padded_height > 0,
        0 <= i < table.transition_count(),
        0 <= j < fri_domain.length,
        Xf::pow(fri_domain.spec_value(j), padded_height as u32 as nat) != Xf::one(),
        last.canonical(),
        Xf::mul(last, omicron) == Xf::one(),
    ensures
        ({
            let quotients = extension_table::spec_transition_quotients(
                table,
                fri_domain,
                rows,
                weights,
                omicron,
                padded_height,
            );
            let next = ((j + fri_domain.length as int / padded_height as int) as usize & (
            fri_domain.length - 1) as usize) as int;
            &&& quotients.len() == table.transition_count()
            &&& quotients[i].len() == fri_domain.length
            &&& Xf::mul(
                quotients[i][j],
                Xf::sub(
                    Xf::pow(fri_domain.spec_value(j), padded_height as u32 as nat),
                    Xf::one(),
                ),
            ) == Xf::mul(
                table.transition_values(rows[j], rows[next], weights)[i],
                Xf::sub(fri_domain.spec_value(j), last),
            )
        }),
{
    let x = fri_domain.spec_value(j);
    let power = Xf::pow(x, padded_height as u32 as nat);
    let z = Xf::sub(power, Xf::one());
    let next = ((j + fri_domain.length as int / padded_height as int) as usize & (fri_domain.length
        - 1) as usize) as int;
    let value = table.transition_values(rows[j], rows[next], weights)[i];
    let numerator = Xf::sub(x, last);
    field_model::lemma_inverse_unique(omicron, last);
    fri_domain.lemma_value_is_base(j);
    field_model::lemma_base_powers(x, padded_height as u32 as nat);
    interpolation::lemma_base_difference(power, Xf::one());
    field_model::lemma_mul_associates(value, numerator, Xf::inv(z));
    field_model::lemma_reduce(field_model::zmul(value, numerator));
    lemma_division_undone(Xf::mul(value, numerator), z);
}

/// Over a coset whose length is a multiple of the height, the row that a transition constraint is
/// evaluated at besides the current one is the one whose domain value is `omicron` times that of the
/// current one, where `omicron` generates the trace's domain.
pub proof fn law_transition_quotient_pairs_rows_one_step_apart<T: Evaluable + ?Sized>(
    table: &T,
    fri_domain: FriDomain,
    rows: Seq<Seq<Xf>>,
    weights: Seq<Xf>,
    omicron: Xf,
    padded_height: usize,
    i: int,
    j: int,
    next: int,
)
    requires
        fri_domain.is_coset(),
        rows.len() == fri_domain.length,
        padded_height > 0,
        fri_domain.length % padded_height == 0,
        fri_domain.length - 1 + fri_domain.length as int / padded_height as int <= usize::MAX,
        omicron == Xf::pow(
            Xf { c0: fri_domain.omega@, c1: 0, c2: 0 },
            (fri_domain.length as int / padded_height as int) as nat,
        ),
        0 <= i < table.transition_count(),
        0 <= j < fri_domain.length,
        0 <= next < fri_domain.length,
        fri_domain.spec_value(next) == Xf::mul(omicron, fri_domain.spec_value(j)),
        Xf::pow(fri_domain.spec_value(j), padded_height as nat) != Xf::one(),
    ensures
        Xf::mul(
            extension_table::spec_transition_quotients(
                table,
                fri_domain,
                rows,
                weights,
                omicron,
                padded_height,
            )[i][j],
            Xf::sub(Xf::pow(fri_domain.spec_value(j), padded_height as nat), Xf::one()),
        ) == Xf::mul(
            table.transition_values(rows[j], rows[next], weights)[i],
            Xf::sub(fri_domain.spec_value(j), Xf::pow(omicron, (padded_height - 1) as nat)),
        ),
        quotients::spec_unit_distance(fri_domain, padded_height) * padded_height
            == fri_domain.length,
{
    let height = padded_height as nat;
    let last = Xf::pow(omicron, (height - 1) as nat);
    let k = choose|k: nat| fri_domain.length == #[trigger] pow2(k);
    lemma_fundamental_div_mod(fri_domain.length as int, padded_height as int);
    lemma_mul_is_commutative(
        padded_height as int,
        fri_domain.length as int / padded_height as int,
    );
    valid_trace::lemma_trace_domain(fri_domain, omicron, padded_height);
    field_model::lemma_pow_canonical(omicron, (height - 1) as nat);
    laws::law_successor_is_one_step(fri_domain, padded_height, omicron, j, k);
    let successor = quotients::successor(fri_domain, padded_height, j);
    fri_domain.lemma_values_separated();
    assert(fri_domain.spec_values()[next] == fri_domain.spec_values()[successor]);
    assert(next == successor);
    law_transition_quotient_divides(
        table,
        fri_domain,
        rows,
        weights,
        omicron,
        last,
        padded_height,
        i,
        j,
    );
}

/// Every terminal quotient, times the domain value less the last value of the trace, is the
/// constraint's value at the row. `last` is that value, the inverse of `omicron`.
pub proof fn law_terminal_quotient_divides<T: Evaluable + ?Sized>(
    table: &T,
    fri_domain: FriDomain,
    rows: Seq<Seq<Xf>>,
    weights: Seq<Xf>,
    omicron: Xf,
    last: Xf,
    zerofier_inverse: Xf,
    i: int,
    j: int,
)
    requires
        rows.len() == fri_domain.length,
        0 <= i < table.terminal_count(),
        0 <= j < fri_domain.length,
        last.canonical(),
        Xf::mul(last, omicron) == Xf::one(),
        zerofier_inverse.canonical(),
        Xf::mul(zerofier_inverse, Xf::sub(fri_domain.spec_value(j), last)) == Xf::one(),
        table.terminal_values(rows[j], weights)[i].canonical(),
    ensures
        ({
            let quotients = extension_table::spec_terminal_quotients(
                table,
                fri_domain,
                rows,
                weights,
                omicron,
            );
            &&& quotients.len() == table.terminal_count()
            &&& quotients[i].len() == fri_domain.length
            &&& Xf::mul(quotients[i][j], Xf::sub(fri_domain.spec_value(j), last))
                == table.terminal_values(rows[j], weights)[i]
        }),
{
    let z = Xf::sub(fri_domain.spec_value(j), last);
    let value = table.terminal_values(rows[j], weights)[i];
    field_model::lemma_inverse_unique(omicron, last);
    field_model::lemma_inverse_unique(z, zerofier_inverse);
    field_model::lemma_divide_multiply(value, z, zerofier_inverse);
    field_model::lemma_reduce(value);
}

/// All quotients are those of the four kinds, in order.
pub proof fn law_all_quotients_come_in_order<T: Evaluable + ?Sized>(
    table: &T,
    fri_domain: FriDomain,
    rows: Seq<Seq<Xf>>,
    weights: Seq<Xf>,
    omicron: Xf,
    padded_height: usize,
    i: int,
)
    ensures
        ({
            let all = extension_table::spec_all_quotients(
                table,
                fri_domain,
                rows,
                weights,
                omicron,
                padded_height,
            );
            let a = table.initial_count() as int;
            let b = a + table.consistency_count();
            let c = b + table.transition_count();
            &&& all.len() == c + table.terminal_count()
            &&& 0 <= i < a ==> all[i] == extension_table::spec_initial_quotients(
                table,
                fri_domain,
                rows,
                weights,
            )[i]
            &&& a <= i < b ==> all[i] == extension_table::spec_consistency_quotients(
                table,
                fri_domain,
                rows,
                weights,
                padded_height,
            )[i - a]
            &&& b <= i < c ==> all[i] == extension_table::spec_transition_quotients(
                table,
                fri_domain,
                rows,
                weights,
                omicron,
                padded_height,
            )[i - b]
            &&& c <= i < all.len() ==> all[i] == extension_table::spec_terminal_quotients(
                table,
                fri_domain,
                rows,
                weights,
                omicron,
            )[i - c]
        }),
{
}

/// Initial quotients exist wherever there is a row for each domain value, each of a width at which the
/// constraints can be evaluated, and the domain does not hold one.
pub proof fn law_initial_quotients_exist<T: Evaluable + ?Sized>(
    table: &T,
    fri_domain: FriDomain,
    rows: Seq<Seq<Xf>>,
    weights: Seq<Xf>,
)
    requires
        fri_domain.length > 0,
        rows.len() == fri_domain.length,
        forall|j: int|
            0 <= j < rows.len() ==> table.initial_evaluable((#[trigger] rows[j]).len(), weights),
        forall|j: int|
            0 <= j < fri_domain.length ==> #[trigger] fri_domain.spec_value(j) != Xf::one(),
    ensures
        extension_table::initial_quotients_exist(table, fri_domain, rows, weights),
{
    let zerofiers = quotients::initial_zerofiers(fri_domain.spec_values());
    assert forall|j: int| 0 <= j < zerofiers.len() implies #[trigger] zerofiers[j]
        != Xf::zero() by {
        fri_domain.lemma_value_is_base(j);
        interpolation::lemma_base_difference(fri_domain.spec_value(j), Xf::one());
    }
}

/// Consistency quotients exist wherever there is a row for each domain value, each of a width at which
/// the constraints can be evaluated, and no power of a domain value by the height is one.
pub proof fn law_consistency_quotients_exist<T: Evaluable + ?Sized>(
    table: &T,
    fri_domain: FriDomain,
    rows: Seq<Seq<Xf>>,
    weights: Seq<Xf>,
    padded_height: usize,
)
    requires
        fri_domain.length > 0,
        rows.len() == fri_domain.length,
        forall|j: int|
            0 <= j < rows.len() ==> table.consistency_evaluable(
                (#[trigger] rows[j]).len(),
                weights,
            ),
        forall|j: int|
            0 <= j < fri_domain.length ==> Xf::pow(
                #[trigger] fri_domain.spec_value(j),
                padded_height as u32 as nat,
            ) != Xf::one(),
    ensures
        extension_table::consistency_quotients_exist(
            table,
            fri_domain,
            rows,
            weights,
            padded_height,
        ),
{
    lemma_subgroup_zerofiers_nonzero(fri_domain, padded_height);
}

proof fn lemma_subgroup_zerofiers_nonzero(fri_domain: FriDomain, padded_height: usize)
    requires
        forall|j: int|
            0 <= j < fri_domain.length ==> Xf::pow(
                #[trigger] fri_domain.spec_value(j),
                padded_height as u32 as nat,
            ) != Xf::one(),
    ensures
        quotients::none_zero(
            quotients::subgroup_zerofiers(fri_domain.spec_values(), padded_height as u32),
        ),
{
    let zerofiers = quotients::subgroup_zerofiers(
        fri_domain.spec_values(),
        padded_height as u32,
    );
    assert forall|j: int| 0 <= j < zerofiers.len() implies #[trigger] zerofiers[j]
        != Xf::zero() by {
        let x = fri_domain.spec_value(j);
        fri_domain.lemma_value_is_base(j);
        field_model::lemma_base_powers(x, padded_height as u32 as nat);
        interpolation::lemma_base_difference(
            Xf::pow(x, padded_height as u32 as nat),
            Xf::one(),
        );
    }
}

/// Transition quotients exist wherever there is a row for each domain value, each of a width at which,
/// with that of the row further on, the constraints can be evaluated, and no power of a domain value
/// by the height is one.
pub proof fn law_transition_quotients_exist<T: Evaluable + ?Sized>(
    table: &T,
    fri_domain: FriDomain,
    rows: Seq<Seq<Xf>>,
    weights: Seq<Xf>,
    padded_height: usize,
)
    requires
        fri_domain.length > 0,
        rows.len() == fri_domain.length,
        padded_height > 0,
        fri_domain.length - 1 + fri_domain.length as int / padded_height as int <= usize::MAX,
        forall|j: int|
            0 <= j < rows.len() ==> table.transition_evaluable(
                (#[trigger] rows[j]).len(),
                rows[((j + fri_domain.length as int / padded_height as int) as usize & (
                fri_domain.length - 1) as usize) as int].len(),
                weights,
            ),
        forall|j: int|
            0 <= j < fri_domain.length ==> Xf::pow(
                #[trigger] fri_domain.spec_value(j),
                padded_height as u32 as nat,
            ) != Xf::one(),
    ensures
        extension_table::transition_quotients_exist(
            table,
            fri_domain,
            rows,
            weights,
            padded_height,
        ),
{
    lemma_subgroup_zerofiers_nonzero(fri_domain, padded_height);
}

/// Terminal quotients exist wherever there is a row for each domain value, each of a width at which the
/// constraints can be evaluated, and the domain does not hold the inverse of `omicron`.
pub proof fn law_terminal_quotients_exist<T: Evaluable + ?Sized>(
    table: &T,
    fri_domain: FriDomain,
    rows: Seq<Seq<Xf>>,
    weights: Seq<Xf>,
    omicron: Xf,
    last: Xf,
)
    requires
        fri_domain.length > 0,
        rows.len() == fri_domain.length,
        forall|j: int|
            0 <= j < rows.len() ==> table.terminal_evaluable((#[trigger] rows[j]).len(), weights),
        last.canonical(),
        Xf::mul(last, omicron) == Xf::one(),
        forall|j: int|
            0 <= j < fri_domain.length ==> #[trigger] fri_domain.spec_value(j) != last,
    ensures
        extension_table::terminal_quotients_exist(table, fri_domain, rows, weights, omicron),
{
    let zerofiers = quotients::terminal_zerofiers(fri_domain.spec_values(), omicron);
    field_model::lemma_inverse_unique(omicron, last);
    assert forall|j: int| 0 <= j < zerofiers.len() implies #[trigger] zerofiers[j]
        != Xf::zero() by {
        fri_domain.lemma_value_is_base(j);
        field_model::lemma_difference_zero(fri_domain.spec_value(j), last);
    }
}

/// A table that stores its constraints evaluates each of them at the row it is given, whatever the
/// challenges, wherever they are set and in as many variables as the row has columns.
pub proof fn law_stored_constraints_yield_their_values<T: StoresConstraints + ?Sized>(
    table: &T,
    row: Seq<Xf>,
    next_row: Seq<Xf>,
    weights: Seq<Xf>,
)
    ensures
        table.initial_evaluable(row.len(), weights) <==> {
            &&& table.table().initial_constraints is Some
            &&& forall|i: int|
                0 <= i < table.table().initial_constraints->0@.len() ==> (
                #[trigger] table.table().initial_constraints->0@[i])@.variable_count == row.len()
        },
        table.initial_count() == table.table().initial_constraints->0@.len(),
        table.initial_values(row, weights).len() == table.table().initial_constraints->0@.len(),
        forall|i: int|
            0 <= i < table.table().initial_constraints->0@.len() ==> #[trigger] table.initial_values(row, weights)[i]
                == table.table().initial_constraints->0@[i]@.value(row),
        table.consistency_evaluable(row.len(), weights) <==> {
            &&& table.table().consistency_constraints is Some
            &&& forall|i: int|
                0 <= i < table.table().consistency_constraints->0@.len() ==> (
                #[trigger] table.table().consistency_constraints->0@[i])@.variable_count == row.len()
        },
        table.consistency_count() == table.table().consistency_constraints->0@.len(),
        table.consistency_values(row, weights).len() == table.table().consistency_constraints->0@.len(),
        forall|i: int|
            0 <= i < table.table().consistency_constraints->0@.len() ==> #[trigger] table.consistency_values(row, weights)[i]
                == table.table().consistency_constraints->0@[i]@.value(row),
        table.transition_evaluable(row.len(), next_row.len(), weights) <==> {
            &&& table.table().transition_constraints is Some
            &&& forall|i: int|
                0 <= i < table.table().transition_constraints->0@.len() ==> (
                #[trigger] table.table().transition_constraints->0@[i])@.variable_count == row.len() + next_row.len()
        },
        table.transition_count() == table.table().transition_constraints->0@.len(),
        table.transition_values(row, next_row, weights).len() == table.table().transition_constraints->0@.len(),
        forall|i: int|
            0 <= i < table.table().transition_constraints->0@.len() ==> #[trigger] table.transition_values(row, next_row, weights)[i]
                == table.table().transition_constraints->0@[i]@.value(row + next_row),
        table.terminal_evaluable(row.len(), weights) <==> {
            &&& table.table().terminal_constraints is Some
            &&& forall|i: int|
                0 <= i < table.table().terminal_constraints->0@.len() ==> (
                #[trigger] table.table().terminal_constraints->0@[i])@.variable_count == row.len()
        },
        table.terminal_count() == table.table().terminal_constraints->0@.len(),
        table.terminal_values(row, weights).len() == table.table().terminal_constraints->0@.len(),
        forall|i: int|
            0 <= i < table.table().terminal_constraints->0@.len() ==> #[trigger] table.terminal_values(row, weights)[i]
                == table.table().terminal_constraints->0@[i]@.value(row),
{
    lemma_all_in(table.table().initial_constraints->0@, row.len());
    lemma_all_in(table.table().consistency_constraints->0@, row.len());
    lemma_all_in(table.table().transition_constraints->0@, row.len() + next_row.len());
    lemma_all_in(table.table().terminal_constraints->0@, row.len());
}

proof fn lemma_all_in(constraints: Seq<MPolynomial>, width: nat)
    ensures
        quotients::all_in(MPolynomial::views(constraints), width) <==> forall|i: int|
            0 <= i < constraints.len() ==> (#[trigger] constraints[i])@.variable_count == width,
{
    let models = MPolynomial::views(constraints);
    if quotients::all_in(models, width) {
        assert forall|i: int| 0 <= i < constraints.len() implies (
        #[trigger] constraints[i])@.variable_count == width by {
            assert(models[i].variable_count == width);
        }
    }
}

/// What a computed bound is, by the terms of its constraint: no term with a coefficient other than
/// zero exceeds it, and one meets it, unless there is none.
proof fn lemma_least_bound(
    constraints: Seq<PolyModel>,
    width: nat,
    padded_height: usize,
    num_trace_randomizers: usize,
    zerofier_degree: int,
    i: int,
)
    requires
        0 <= i < constraints.len(),
        constraints[i].exponents_match(width),
        zerofier_degree <= i64::MAX,
        degree_bounds::quotient_bounds_exist(
            None,
            constraints,
            width as int,
            padded_height,
            num_trace_randomizers,
            zerofier_degree,
        ),
    ensures
        ({
            let bound = degree_bounds::quotient_bounds(
                None,
                constraints,
                width as int,
                padded_height,
                num_trace_randomizers,
                zerofier_degree,
            )[i] as int;
            let terms = constraints[i].terms;
            let degree = padded_height + num_trace_randomizers - 1;
            &&& forall|t: int|
                0 <= t < terms.len() && (#[trigger] terms[t]).coefficient != Xf::zero()
                    ==> degree * TermModel::total_degree(terms[t].exponents) - zerofier_degree
                    <= bound
            &&& bound == -1 - zerofier_degree || exists|t: int|
                0 <= t < terms.len() && (#[trigger] terms[t]).coefficient != Xf::zero() && degree
                    * TermModel::total_degree(terms[t].exponents) - zerofier_degree == bound
        }),
{
    let degree = table_collection::spec_interpolant_degree(padded_height, num_trace_randomizers);
    let degrees = degree_bounds::uniform(width, degree);
    let terms = constraints[i].terms;
    laws::lemma_computed_bound(
        constraints,
        width,
        padded_height,
        num_trace_randomizers,
        zerofier_degree,
        i,
    );
    degree_bounds::lemma_max_is_attained(terms, degrees);
    assert forall|t: int| 0 <= t < terms.len() implies TermModel::weighted_degree(
        (#[trigger] terms[t]).exponents,
        degrees,
    ) == degree * TermModel::total_degree(terms[t].exponents) && terms.contains(terms[t]) by {
        laws::lemma_uniform_term(terms[t].exponents, width, degree);
    }
}

/// The degree bounds of initial quotients are those that are set, or else the least that hold: with
/// columns through the table's rows and the randomizers, no term of a constraint exceeds the bound
/// and the zerofier's degree together, and one meets them.
pub proof fn law_initial_bounds_are_least<T: ExtensionTable + ?Sized>(
    table: &T,
    padded_height: usize,
    num_trace_randomizers: usize,
    i: int,
)
    requires
        extension_table::initial_bounds_exist(table, padded_height, num_trace_randomizers),
    ensures
        table.table().initial_quotient_degree_bounds matches Some(bounds)
            ==> extension_table::spec_initial_bounds(table, padded_height, num_trace_randomizers)
            == bounds@,
        table.table().initial_quotient_degree_bounds is None ==> {
            let constraints = table.initial_constraints_for(table.placeholder_weights());
            let bounds = extension_table::spec_initial_bounds(
                table,
                padded_height,
                num_trace_randomizers,
            );
            let terms = constraints[i].terms;
            let degree = padded_height + num_trace_randomizers - 1;
            &&& bounds.len() == constraints.len()
            &&& 0 <= i < constraints.len() && constraints[i].exponents_match(
                table.table().full_width as nat,
            ) ==> {
                &&& forall|t: int|
                    0 <= t < terms.len() && (#[trigger] terms[t]).coefficient != Xf::zero()
                        ==> degree * TermModel::total_degree(terms[t].exponents) - 1
                        <= bounds[i]
                &&& bounds[i] == -2 || exists|t: int|
                    0 <= t < terms.len() && (#[trigger] terms[t]).coefficient != Xf::zero()
                        && degree * TermModel::total_degree(terms[t].exponents) - 1
                        == bounds[i]
            }
        },
{
    let constraints = table.initial_constraints_for(table.placeholder_weights());
    if table.table().initial_quotient_degree_bounds is None && 0 <= i < constraints.len()
        && constraints[i].exponents_match(table.table().full_width as nat) {
        lemma_least_bound(
            constraints,
            table.table().full_width as nat,
            padded_height,
            num_trace_randomizers,
            1,
            i,
        );
    }
}

/// The degree bounds of consistency quotients are those that are set, or else the least that hold: with
/// columns through the table's rows and the randomizers, no term of a constraint exceeds the bound
/// and the zerofier's degree together, and one meets them.
pub proof fn law_consistency_bounds_are_least<T: ExtensionTable + ?Sized>(
    table: &T,
    padded_height: usize,
    num_trace_randomizers: usize,
    i: int,
)
    requires
        padded_height <= i64::MAX,
        extension_table::consistency_bounds_exist(table, padded_height, num_trace_randomizers),
    ensures
        table.table().consistency_quotient_degree_bounds matches Some(bounds)
            ==> extension_table::spec_consistency_bounds(table, padded_height, num_trace_randomizers)
            == bounds@,
        table.table().consistency_quotient_degree_bounds is None ==> {
            let constraints = table.consistency_constraints_for(table.placeholder_weights());
            let bounds = extension_table::spec_consistency_bounds(
                table,
                padded_height,
                num_trace_randomizers,
            );
            let terms = constraints[i].terms;
            let degree = padded_height + num_trace_randomizers - 1;
            &&& bounds.len() == constraints.len()
            &&& 0 <= i < constraints.len() && constraints[i].exponents_match(
                table.table().full_width as nat,
            ) ==> {
                &&& forall|t: int|
                    0 <= t < terms.len() && (#[trigger] terms[t]).coefficient != Xf::zero()
                        ==> degree * TermModel::total_degree(terms[t].exponents) - padded_height
                        <= bounds[i]
                &&& bounds[i] == -1 - padded_height || exists|t: int|
                    0 <= t < terms.len() && (#[trigger] terms[t]).coefficient != Xf::zero()
                        && degree * TermModel::total_degree(terms[t].exponents) - padded_height
                        == bounds[i]
            }
        },
{
    let constraints = table.consistency_constraints_for(table.placeholder_weights());
    if table.table().consistency_quotient_degree_bounds is None && 0 <= i < constraints.len()
        && constraints[i].exponents_match(table.table().full_width as nat) {
        lemma_least_bound(
            constraints,
            table.table().full_width as nat,
            padded_height,
            num_trace_randomizers,
            padded_height as int,
            i,
        );
    }
}

/// The degree bounds of transition quotients are those that are set, or else the least that hold: with
/// columns through the table's rows and the randomizers, no term of a constraint exceeds the bound
/// and the zerofier's degree together, and one meets them.
pub proof fn law_transition_bounds_are_least<T: ExtensionTable + ?Sized>(
    table: &T,
    padded_height: usize,
    num_trace_randomizers: usize,
    i: int,
)
    requires
        padded_height <= i64::MAX,
        extension_table::transition_bounds_exist(table, padded_height, num_trace_randomizers),
    ensures
        table.table().transition_quotient_degree_bounds matches Some(bounds)
            ==> extension_table::spec_transition_bounds(table, padded_height, num_trace_randomizers)
            == bounds@,
        table.table().transition_quotient_degree_bounds is None ==> {
            let constraints = table.transition_constraints_for(table.placeholder_weights());
            let bounds = extension_table::spec_transition_bounds(
                table,
                padded_height,
                num_trace_randomizers,
            );
            let terms = constraints[i].terms;
            let degree = padded_height + num_trace_randomizers - 1;
            &&& bounds.len() == constraints.len()
            &&& 0 <= i < constraints.len() && constraints[i].exponents_match(
                (2 * table.table().full_width) as nat,
            ) ==> {
                &&& forall|t: int|
                    0 <= t < terms.len() && (#[trigger] terms[t]).coefficient != Xf::zero()
                        ==> degree * TermModel::total_degree(terms[t].exponents) - (padded_height - 1)
                        <= bounds[i]
                &&& bounds[i] == -padded_height || exists|t: int|
                    0 <= t < terms.len() && (#[trigger] terms[t]).coefficient != Xf::zero()
                        && degree * TermModel::total_degree(terms[t].exponents) - (padded_height - 1)
                        == bounds[i]
            }
        },
{
    let constraints = table.transition_constraints_for(table.placeholder_weights());
    if table.table().transition_quotient_degree_bounds is None && 0 <= i < constraints.len()
        && constraints[i].exponents_match((2 * table.table().full_width) as nat) {
        lemma_least_bound(
            constraints,
            (2 * table.table().full_width) as nat,
            padded_height,
            num_trace_randomizers,
            padded_height - 1,
            i,
        );
    }
}

/// The degree bounds of terminal quotients are those that are set, or else the least that hold: with
/// columns through the table's rows and the randomizers, no term of a constraint exceeds the bound
/// and the zerofier's degree together, and one meets them.
pub proof fn law_terminal_bounds_are_least<T: ExtensionTable + ?Sized>(
    table: &T,
    padded_height: usize,
    num_trace_randomizers: usize,
    i: int,
)
    requires
        extension_table::terminal_bounds_exist(table, padded_height, num_trace_randomizers),
    ensures
        table.table().terminal_quotient_degree_bounds matches Some(bounds)
            ==> extension_table::spec_terminal_bounds(table, padded_height, num_trace_randomizers)
            == bounds@,
        table.table().terminal_quotient_degree_bounds is None ==> {
            let constraints = table.terminal_constraints_for(table.placeholder_weights());
            let bounds = extension_table::spec_terminal_bounds(
                table,
                padded_height,
                num_trace_randomizers,
            );
            let terms = constraints[i].terms;
            let degree = padded_height + num_trace_randomizers - 1;
            &&& bounds.len() == constraints.len()
            &&& 0 <= i < constraints.len() && constraints[i].exponents_match(
                table.table().full_width as nat,
            ) ==> {
                &&& forall|t: int|
                    0 <= t < terms.len() && (#[trigger] terms[t]).coefficient != Xf::zero()
                        ==> degree * TermModel::total_degree(terms[t].exponents) - 1
                        <= bounds[i]
                &&& bounds[i] == -2 || exists|t: int|
                    0 <= t < terms.len() && (#[trigger] terms[t]).coefficient != Xf::zero()
                        && degree * TermModel::total_degree(terms[t].exponents) - 1
                        == bounds[i]
            }
        },
{
    let constraints = table.terminal_constraints_for(table.placeholder_weights());
    if table.table().terminal_quotient_degree_bounds is None && 0 <= i < constraints.len()
        && constraints[i].exponents_match(table.table().full_width as nat) {
        lemma_least_bound(
            constraints,
            table.table().full_width as nat,
            padded_height,
            num_trace_randomizers,
            1,
            i,
        );
    }
}

proof fn lemma_bounds_exist(
    constraints: Seq<PolyModel>,
    width: nat,
    padded_height: usize,
    num_trace_randomizers: usize,
    zerofier_degree: int,
)
    requires
        width <= usize::MAX,
        0 <= zerofier_degree <= i64::MAX,
        1 <= padded_height + num_trace_randomizers <= usize::MAX,
        padded_height + num_trace_randomizers - 1 <= i64::MAX,
        forall|i: int|
            0 <= i < constraints.len() ==> (#[trigger] constraints[i]).variable_count == width
                && constraints[i].exponents_match(width),
        forall|i: int, t: int|
            0 <= i < constraints.len() && 0 <= t < constraints[i].terms.len()
                && constraints[i].terms[t].coefficient != Xf::zero() ==> (padded_height
                + num_trace_randomizers - 1) * TermModel::total_degree(
                (#[trigger] constraints[i].terms[t]).exponents,
            ) <= i64::MAX,
    ensures
        degree_bounds::quotient_bounds_exist(
            None,
            constraints,
            width as int,
            padded_height,
            num_trace_randomizers,
            zerofier_degree,
        ),
{
    let degree = table_collection::spec_interpolant_degree(padded_height, num_trace_randomizers);
    let degrees = degree_bounds::uniform(width, degree);
    assert forall|i: int| 0 <= i < constraints.len() implies (
    #[trigger] constraints[i]).degree_bound_fits(degrees) && constraints[i].degree_bound(degrees)
        - zerofier_degree <= i64::MAX by {
        let terms = constraints[i].terms;
        assert forall|t: int|
            0 <= t < terms.len() && (#[trigger] terms[t]).coefficient
                != Xf::zero() implies TermModel::weighted_degree(terms[t].exponents, degrees)
            <= i64::MAX by {
            laws::lemma_uniform_term(terms[t].exponents, width, degree);
            assert(constraints[i].terms[t] == terms[t]);
        }
        degree_bounds::lemma_degree_bound_range(constraints[i], degrees);
    }
}

/// The degree bounds of initial quotients exist where they are set, and wherever the constraints are in as
/// many variables as there are columns and no degree on the way exceeds the largest that is held.
pub proof fn law_initial_bounds_exist<T: ExtensionTable + ?Sized>(
    table: &T,
    padded_height: usize,
    num_trace_randomizers: usize,
)
    ensures
        table.table().initial_quotient_degree_bounds is Some ==> extension_table::initial_bounds_exist(
            table,
            padded_height,
            num_trace_randomizers,
        ),
        ({
            let constraints = table.initial_constraints_for(table.placeholder_weights());
            let width = table.table().full_width as nat;
            &&& 1 <= padded_height + num_trace_randomizers <= usize::MAX
            &&& padded_height + num_trace_randomizers - 1 <= i64::MAX
            &&& forall|i: int|
                0 <= i < constraints.len() ==> (#[trigger] constraints[i]).variable_count == width
                    && constraints[i].exponents_match(width)
            &&& forall|i: int, t: int|
                0 <= i < constraints.len() && 0 <= t < constraints[i].terms.len()
                    && constraints[i].terms[t].coefficient != Xf::zero() ==> (padded_height
                    + num_trace_randomizers - 1) * TermModel::total_degree(
                    (#[trigger] constraints[i].terms[t]).exponents,
                ) <= i64::MAX
        }) ==> extension_table::initial_bounds_exist(table, padded_height, num_trace_randomizers),
{
    let constraints = table.initial_constraints_for(table.placeholder_weights());
    let width = table.table().full_width as nat;
    if 1 <= padded_height + num_trace_randomizers <= usize::MAX && padded_height
        + num_trace_randomizers - 1 <= i64::MAX && 0 <= 1 <= i64::MAX && width <= usize::MAX && (
    forall|i: int|
        0 <= i < constraints.len() ==> (#[trigger] constraints[i]).variable_count == width
            && constraints[i].exponents_match(width)) && (forall|i: int, t: int|
        0 <= i < constraints.len() && 0 <= t < constraints[i].terms.len()
            && constraints[i].terms[t].coefficient != Xf::zero() ==> (padded_height
            + num_trace_randomizers - 1) * TermModel::total_degree(
            (#[trigger] constraints[i].terms[t]).exponents,
        ) <= i64::MAX) {
        lemma_bounds_exist(
            constraints,
            width,
            padded_height,
            num_trace_randomizers,
            1,
        );
    }
}

/// The degree bounds of consistency quotients exist where they are set, and wherever the constraints are in as
/// many variables as there are columns and no degree on the way exceeds the largest that is held.
pub proof fn law_consistency_bounds_exist<T: ExtensionTable + ?Sized>(
    table: &T,
    padded_height: usize,
    num_trace_randomizers: usize,
)
    ensures
        table.table().consistency_quotient_degree_bounds is Some ==> extension_table::consistency_bounds_exist(
            table,
            padded_height,
            num_trace_randomizers,
        ),
        ({
            let constraints = table.consistency_constraints_for(table.placeholder_weights());
            let width = table.table().full_width as nat;
            &&& 1 <= padded_height + num_trace_randomizers <= usize::MAX
            &&& padded_height + num_trace_randomizers - 1 <= i64::MAX
            &&& padded_height <= i64::MAX
            &&& forall|i: int|
                0 <= i < constraints.len() ==> (#[trigger] constraints[i]).variable_count == width
                    && constraints[i].exponents_match(width)
            &&& forall|i: int, t: int|
                0 <= i < constraints.len() && 0 <= t < constraints[i].terms.len()
                    && constraints[i].terms[t].coefficient != Xf::zero() ==> (padded_height
                    + num_trace_randomizers - 1) * TermModel::total_degree(
                    (#[trigger] constraints[i].terms[t]).exponents,
                ) <= i64::MAX
        }) ==> extension_table::consistency_bounds_exist(table, padded_height, num_trace_randomizers),
{
    let constraints = table.consistency_constraints_for(table.placeholder_weights());
    let width = table.table().full_width as nat;
    if 1 <= padded_height + num_trace_randomizers <= usize::MAX && padded_height
        + num_trace_randomizers - 1 <= i64::MAX && 0 <= padded_height as int <= i64::MAX && width <= usize::MAX && (
    forall|i: int|
        0 <= i < constraints.len() ==> (#[trigger] constraints[i]).variable_count == width
            && constraints[i].exponents_match(width)) && (forall|i: int, t: int|
        0 <= i < constraints.len() && 0 <= t < constraints[i].terms.len()
            && constraints[i].terms[t].coefficient != Xf::zero() ==> (padded_height
            + num_trace_randomizers - 1) * TermModel::total_degree(
            (#[trigger] constraints[i].terms[t]).exponents,
        ) <= i64::MAX) {
        lemma_bounds_exist(
            constraints,
            width,
            padded_height,
            num_trace_randomizers,
            padded_height as int,
        );
    }
}

/// The degree bounds of transition quotients exist where they are set, and wherever the constraints are in as
/// many variables as there are columns and no degree on the way exceeds the largest that is held.
pub proof fn law_transition_bounds_exist<T: ExtensionTable + ?Sized>(
    table: &T,
    padded_height: usize,
    num_trace_randomizers: usize,
)
    ensures
        table.table().transition_quotient_degree_bounds is Some ==> extension_table::transition_bounds_exist(
            table,
            padded_height,
            num_trace_randomizers,
        ),
        ({
            let constraints = table.transition_constraints_for(table.placeholder_weights());
            let width = (2 * table.table().full_width) as nat;
            &&& 1 <= padded_height + num_trace_randomizers <= usize::MAX
            &&& padded_height + num_trace_randomizers - 1 <= i64::MAX
            &&& 1 <= padded_height <= i64::MAX
            &&& 2 * table.table().full_width <= usize::MAX
            &&& forall|i: int|
                0 <= i < constraints.len() ==> (#[trigger] constraints[i]).variable_count == width
                    && constraints[i].exponents_match(width)
            &&& forall|i: int, t: int|
                0 <= i < constraints.len() && 0 <= t < constraints[i].terms.len()
                    && constraints[i].terms[t].coefficient != Xf::zero() ==> (padded_height
                    + num_trace_randomizers - 1) * TermModel::total_degree(
                    (#[trigger] constraints[i].terms[t]).exponents,
                ) <= i64::MAX
        }) ==> extension_table::transition_bounds_exist(table, padded_height, num_trace_randomizers),
{
    let constraints = table.transition_constraints_for(table.placeholder_weights());
    let width = (2 * table.table().full_width) as nat;
    if 1 <= padded_height + num_trace_randomizers <= usize::MAX && padded_height
        + num_trace_randomizers - 1 <= i64::MAX && 0 <= padded_height - 1 <= i64::MAX && width <= usize::MAX && (
    forall|i: int|
        0 <= i < constraints.len() ==> (#[trigger] constraints[i]).variable_count == width
            && constraints[i].exponents_match(width)) && (forall|i: int, t: int|
        0 <= i < constraints.len() && 0 <= t < constraints[i].terms.len()
            && constraints[i].terms[t].coefficient != Xf::zero() ==> (padded_height
            + num_trace_randomizers - 1) * TermModel::total_degree(
            (#[trigger] constraints[i].terms[t]).exponents,
        ) <= i64::MAX) {
        lemma_bounds_exist(
            constraints,
            width,
            padded_height,
            num_trace_randomizers,
            padded_height - 1,
        );
    }
}

/// The degree bounds of terminal quotients exist where they are set, and wherever the constraints are in as
/// many variables as there are columns and no degree on the way exceeds the largest that is held.
pub proof fn law_terminal_bounds_exist<T: ExtensionTable + ?Sized>(
    table: &T,
    padded_height: usize,
    num_trace_randomizers: usize,
)
    ensures
        table.table().terminal_quotient_degree_bounds is Some ==> extension_table::terminal_bounds_exist(
            table,
            padded_height,
            num_trace_randomizers,
        ),
        ({
            let constraints = table.terminal_constraints_for(table.placeholder_weights());
            let width = table.table().full_width as nat;
            &&& 1 <= padded_height + num_trace_randomizers <= usize::MAX
            &&& padded_height + num_trace_randomizers - 1 <= i64::MAX
            &&& forall|i: int|
                0 <= i < constraints.len() ==> (#[trigger] constraints[i]).variable_count == width
                    && constraints[i].exponents_match(width)
            &&& forall|i: int, t: int|
                0 <= i < constraints.len() && 0 <= t < constraints[i].terms.len()
                    && constraints[i].terms[t].coefficient != Xf::zero() ==> (padded_height
                    + num_trace_randomizers - 1) * TermModel::total_degree(
                    (#[trigger] constraints[i].terms[t]).exponents,
                ) <= i64::MAX
        }) ==> extension_table::terminal_bounds_exist(table, padded_height, num_trace_randomizers),
{
    let constraints = table.terminal_constraints_for(table.placeholder_weights());
    let width = table.table().full_width as nat;
    if 1 <= padded_height + num_trace_randomizers <= usize::MAX && padded_height
        + num_trace_randomizers - 1 <= i64::MAX && 0 <= 1 <= i64::MAX && width <= usize::MAX && (
    forall|i: int|
        0 <= i < constraints.len() ==> (#[trigger] constraints[i]).variable_count == width
            && constraints[i].exponents_match(width)) && (forall|i: int, t: int|
        0 <= i < constraints.len() && 0 <= t < constraints[i].terms.len()
            && constraints[i].terms[t].coefficient != Xf::zero() ==> (padded_height
            + num_trace_randomizers - 1) * TermModel::total_degree(
            (#[trigger] constraints[i].terms[t]).exponents,
        ) <= i64::MAX) {
        lemma_bounds_exist(
            constraints,
            width,
            padded_height,
            num_trace_randomizers,
            1,
        );
    }
}

/// A degree with origin holds its fields, each under its name.
pub proof fn law_origins_hold_their_fields(entry: DegreeWithOrigin)
    ensures
        entry@.degree == entry.degree,
        entry@.zerofier_degree == entry.zerofier_degree,
        entry@.table_name == entry.origin_table_name@,
        entry@.index == entry.origin_index,
        entry@.table_height == entry.origin_table_height,
        entry@.num_trace_randomizers == entry.origin_num_trace_randomizers,
        entry@.constraint_type == entry.origin_constraint_type@,
{
}

/// All degree bounds are those of the four kinds, in order.
pub proof fn law_all_bounds_come_in_order<T: ExtensionTable + ?Sized>(
    table: &T,
    padded_height: usize,
    num_trace_randomizers: usize,
    i: int,
)
    ensures
        ({
            let all = extension_table::spec_all_bounds(
                table,
                padded_height,
                num_trace_randomizers,
            );
            let initial = extension_table::spec_initial_bounds(
                table,
                padded_height,
                num_trace_randomizers,
            );
            let consistency = extension_table::spec_consistency_bounds(
                table,
                padded_height,
                num_trace_randomizers,
            );
            let transition = extension_table::spec_transition_bounds(
                table,
                padded_height,
                num_trace_randomizers,
            );
            let terminal = extension_table::spec_terminal_bounds(
                table,
                padded_height,
                num_trace_randomizers,
            );
            let a = initial.len() as int;
            let b = a + consistency.len();
            let c = b + transition.len();
            &&& all.len() == c + terminal.len()
            &&& 0 <= i < a ==> all[i] == initial[i]
            &&& a <= i < b ==> all[i] == consistency[i - a]
            &&& b <= i < c ==> all[i] == transition[i - b]
            &&& c <= i < all.len() ==> all[i] == terminal[i - c]
        }),
{
}

/// Every degree carries the origin that it has, whether degree bounds are set or computed: the degree
/// of what vanishes on the rows that its kind of constraint speaks of, and its place among the
/// constraints of its kind.
pub proof fn law_degrees_carry_their_origin<T: ExtensionTable + ?Sized>(
    table: &T,
    padded_height: usize,
    num_trace_randomizers: usize,
    i: int,
)
    requires
        padded_height <= i64::MAX,
        0 <= i < extension_table::spec_all_degrees_with_origin(
            table,
            padded_height,
            num_trace_randomizers,
        ).len(),
    ensures
        ({
            let all = extension_table::spec_all_degrees_with_origin(
                table,
                padded_height,
                num_trace_randomizers,
            );
            let initial = extension_table::spec_initial_bounds(
                table,
                padded_height,
                num_trace_randomizers,
            );
            let consistency = extension_table::spec_consistency_bounds(
                table,
                padded_height,
                num_trace_randomizers,
            );
            let transition = extension_table::spec_transition_bounds(
                table,
                padded_height,
                num_trace_randomizers,
            );
            let terminal = extension_table::spec_terminal_bounds(
                table,
                padded_height,
                num_trace_randomizers,
            );
            let a = initial.len() as int;
            let b = a + consistency.len();
            let c = b + transition.len();
            &&& all.len() == c + terminal.len()
            &&& all[i].table_name == table.table().name@
            &&& all[i].table_height == padded_height
            &&& all[i].num_trace_randomizers == num_trace_randomizers
            &&& i < a ==> {
                &&& all[i].degree == initial[i]
                &&& all[i].zerofier_degree == 1
                &&& all[i].index == i
                &&& all[i].constraint_type == "initial constraint"@
            }
            &&& a <= i < b ==> {
                &&& all[i].degree == consistency[i - a]
                &&& all[i].zerofier_degree == padded_height
                &&& all[i].index == i - a
                &&& all[i].constraint_type == "consistency constraint"@
            }
            &&& b <= i < c ==> {
                &&& all[i].degree == transition[i - b]
                &&& all[i].zerofier_degree == padded_height - 1
                &&& all[i].index == i - b
                &&& all[i].constraint_type == "transition constraint"@
            }
            &&& c <= i ==> {
                &&& all[i].degree == terminal[i - c]
                &&& all[i].zerofier_degree == 1
                &&& all[i].index == i - c
                &&& all[i].constraint_type == "terminal constraint"@
            }
        }),
{
}

/// The zerofier degrees that degrees with origin carry are those of the zerofiers that the quotients
/// are divided by: each zerofier, by its values at all domain values, is a monic polynomial of that
/// degree, or for transition quotients a monic polynomial of that degree and one more, divided by one
/// of degree one.
pub proof fn law_zerofier_degrees_are_those_divided_by<T: ExtensionTable + ?Sized>(
    table: &T,
    padded_height: usize,
    num_trace_randomizers: usize,
    i: int,
    x: Xf,
)
    requires
        0 < padded_height <= u32::MAX,
        0 <= i < extension_table::spec_all_degrees_with_origin(
            table,
            padded_height,
            num_trace_randomizers,
        ).len(),
    ensures
        ({
            let entry = extension_table::spec_all_degrees_with_origin(
                table,
                padded_height,
                num_trace_randomizers,
            )[i];
            let one_row = Univariate::linear(Xf::one());
            let all_rows = Univariate::power_minus_one(padded_height as nat);
            &&& Univariate::value(one_row, x) == Xf::sub(x, Xf::one())
            &&& Univariate::value(all_rows, x) == Xf::sub(
                Xf::pow(x, padded_height as nat),
                Xf::one(),
            )
            &&& entry.constraint_type == "initial constraint"@ ==> Univariate::monic(
                one_row,
                entry.zerofier_degree,
            )
            &&& entry.constraint_type == "consistency constraint"@ ==> Univariate::monic(
                all_rows,
                entry.zerofier_degree,
            )
            &&& entry.constraint_type == "transition constraint"@ ==> Univariate::monic(
                all_rows,
                entry.zerofier_degree + 1,
            )
            &&& entry.constraint_type == "terminal constraint"@ ==> Univariate::monic(
                one_row,
                entry.zerofier_degree,
            )
        }),
{
    reveal_strlit("initial constraint");
    reveal_strlit("consistency constraint");
    reveal_strlit("transition constraint");
    reveal_strlit("terminal constraint");
    assert("initial constraint"@.len() == 18);
    assert("consistency constraint"@.len() == 22);
    assert("transition constraint"@.len() == 21);
    assert("terminal constraint"@.len() == 19);
    univariate::lemma_linear(Xf::one(), x);
    univariate::lemma_power_minus_one(padded_height as nat, x);
}

/// Over a coset every codeword has an interpolant, which has as many coefficients as the domain has
/// values and the codeword's values there; and it is the only such polynomial.
pub proof fn law_codewords_are_interpolated(fri_domain: FriDomain, codeword: Seq<Xf>, p: Seq<Xf>)
    requires
        fri_domain.is_coset(),
        codeword.len() == fri_domain.length,
        Univariate::canonical(codeword),
    ensures
        fri_domain.interpolant(codeword).len() == fri_domain.length,
        Univariate::canonical(fri_domain.interpolant(codeword)),
        forall|j: int|
            0 <= j < fri_domain.length ==> Univariate::value(
                fri_domain.interpolant(codeword),
                fri_domain.spec_value(j),
            ) == #[trigger] codeword[j],
        p.len() == fri_domain.length && Univariate::canonical(p) && (forall|j: int|
            0 <= j < fri_domain.length ==> Univariate::value(p, fri_domain.spec_value(j))
                == #[trigger] codeword[j]) ==> fri_domain.interpolant(codeword) == p,
{
    let points = fri_domain.spec_values();
    let n = fri_domain.length as int;
    fri_domain.lemma_values_separated();
    let q = interpolation::law_interpolants_exist(points, codeword);
    univariate::lemma_degree(q, n - 1);
    assert forall|j: int| 0 <= j < codeword.len() implies #[trigger] codeword[j]
        == Univariate::value(q, fri_domain.spec_value(j)) by {
        assert(Univariate::value(q, points[j]) == codeword[j]);
    }
    valid_trace::lemma_polynomial_is_interpolant(fri_domain, codeword, q);
    if p.len() == fri_domain.length && Univariate::canonical(p) && (forall|j: int|
        0 <= j < fri_domain.length ==> Univariate::value(p, fri_domain.spec_value(j))
            == #[trigger] codeword[j]) {
        fri_domain.law_interpolant_is_unique(codeword, p);
    }
}

/// The degree check accepts exactly those codewords whose interpolants have no coefficient at the
/// highest power that a polynomial with as many coefficients as the domain has values can have.
/// Otherwise its message is about the first codeword for which there is one.
pub proof fn law_degree_check_reports_maximal_degrees(
    fri_domain: FriDomain,
    codewords: Seq<Seq<Xf>>,
    outcome: Result<(), String>,
    quotient_type: Seq<char>,
    table_name: Seq<char>,
)
    requires
        fri_domain.is_coset(),
        forall|i: int|
            0 <= i < codewords.len() ==> (#[trigger] codewords[i]).len() == fri_domain.length
                && Univariate::canonical(codewords[i]),
        quotients::is_degree_check_outcome(
            outcome,
            quotients::interpolant_degrees(fri_domain, codewords),
            quotient_type,
            table_name,
            fri_domain.length,
        ),
    ensures
        outcome is Ok <==> forall|i: int|
            0 <= i < codewords.len() ==> fri_domain.interpolant(
                #[trigger] codewords[i],
            )[fri_domain.length - 1] == Xf::zero(),
        outcome is Ok <==> forall|i: int|
            0 <= i < codewords.len() ==> Univariate::degree(
                fri_domain.interpolant(#[trigger] codewords[i]),
            ) < fri_domain.length - 1,
        outcome matches Err(message) ==> exists|i: int|
            {
                &&& 0 <= i < codewords.len()
                &&& fri_domain.interpolant(#[trigger] codewords[i])[fri_domain.length - 1]
                    != Xf::zero()
                &&& forall|j: int|
                    0 <= j < i ==> fri_domain.interpolant(
                        #[trigger] codewords[j],
                    )[fri_domain.length - 1] == Xf::zero()
                &&& message@ == "Degree of "@ + quotient_type + " quotient index "@
                    + decimal::digits(i as nat) + " (total "@ + decimal::digits(codewords.len())
                    + " quotients) in "@ + table_name + " must not be maximal. Got degree "@
                    + decimal::signed_digits(fri_domain.length - 1)
                    + ", and FRI domain length was "@ + decimal::digits(
                    fri_domain.length as nat,
                ) + "."@
            },
{
    let degrees = quotients::interpolant_degrees(fri_domain, codewords);
    let n = fri_domain.length as int;
    assert forall|i: int| 0 <= i < codewords.len() implies {
        let top = fri_domain.interpolant(#[trigger] codewords[i])[n - 1];
        &&& degrees[i] == Univariate::degree(fri_domain.interpolant(codewords[i]))
        &&& degrees[i] < n - 1 <==> top == Xf::zero()
        &&& degrees[i] <= n - 1
    } by {
        let p = fri_domain.interpolant(codewords[i]);
        law_codewords_are_interpolated(fri_domain, codewords[i], p);
        assert(Univariate::coefficient(p, n - 1) == p[n - 1]);
        univariate::lemma_degree(p, n - 1);
        univariate::lemma_degree(p, n - 2);
        if p[n - 1] == Xf::zero() {
            assert forall|k: int| k > n - 2 implies #[trigger] Univariate::coefficient(p, k)
                == Xf::zero() by {}
        }
    }
    match outcome {
        Ok(_) => {
            assert forall|i: int| 0 <= i < codewords.len() implies fri_domain.interpolant(
                #[trigger] codewords[i],
            )[n - 1] == Xf::zero() by {
                assert(quotients::degree_not_maximal(degrees[i], fri_domain.length));
            }
        },
        Err(message) => {
            let i = choose|i: int| #[trigger]
                quotients::is_first_maximal(i, degrees, fri_domain.length) && message@
                    == quotients::maximal_degree_message(
                    quotient_type,
                    i as nat,
                    degrees.len(),
                    table_name,
                    degrees[i],
                    fri_domain.length,
                );
            assert(quotients::is_first_maximal(i, degrees, fri_domain.length));
            assert(fri_domain.interpolant(codewords[i])[n - 1] != Xf::zero());
            assert forall|j: int| 0 <= j < i implies fri_domain.interpolant(
                #[trigger] codewords[j],
            )[n - 1] == Xf::zero() by {
                assert(quotients::degree_not_maximal(degrees[j], fri_domain.length));
            }
        },
    }
}

/// The degree check rejects the values of every polynomial of the highest degree that fits the domain,
/// and accepts those of every polynomial of a smaller degree.
pub proof fn law_degree_check_tells_polynomials_apart(
    fri_domain: FriDomain,
    p: Seq<Xf>,
    outcome: Result<(), String>,
    quotient_type: Seq<char>,
    table_name: Seq<char>,
)
    requires
        fri_domain.is_coset(),
        p.len() == fri_domain.length,
        Univariate::canonical(p),
        quotients::is_degree_check_outcome(
            outcome,
            quotients::interpolant_degrees(
                fri_domain,
                seq![
                    Seq::new(
                        fri_domain.length as nat,
                        |j: int| Univariate::value(p, fri_domain.spec_value(j)),
                    ),
                ],
            ),
            quotient_type,
            table_name,
            fri_domain.length,
        ),
    ensures
        outcome is Ok <==> p[fri_domain.length - 1] == Xf::zero(),
{
    let codeword = Seq::new(
        fri_domain.length as nat,
        |j: int| Univariate::value(p, fri_domain.spec_value(j)),
    );
    let codewords = seq![codeword];
    assert forall|j: int| 0 <= j < codeword.len() implies (#[trigger] codeword[j]).canonical() by {
        univariate::lemma_value_canonical(p, fri_domain.spec_value(j));
    }
    assert forall|i: int| 0 <= i < codewords.len() implies (#[trigger] codewords[i]).len()
        == fri_domain.length && Univariate::canonical(codewords[i]) by {}
    law_codewords_are_interpolated(fri_domain, codeword, p);
    law_degree_check_reports_maximal_degrees(
        fri_domain,
        codewords,
        outcome,
        quotient_type,
        table_name,
    );
    assert(codewords[0] == codeword);
}

/// The domains that codewords can be interpolated over.
pub proof fn law_cosets(fri_domain: FriDomain, k: nat)
    ensures
        2 <= fri_domain.length < 0x1_0000_0000 && fri_domain.length == pow2(k) && Xf::pow(
            Xf { c0: fri_domain.omega@, c1: 0, c2: 0 },
            fri_domain.length as nat,
        ) == Xf::one() && Xf::pow(
            Xf { c0: fri_domain.omega@, c1: 0, c2: 0 },
            (fri_domain.length / 2) as nat,
        ) != Xf::one() && fri_domain.offset@ != 0 ==> fri_domain.is_coset(),
{
}

/// A degree can be described wherever the degree, with that of the zerofier, is a multiple of the
/// degree of the columns; the description then gives the factor.
pub proof fn law_description_gives_the_factor(origin: OriginModel, factor: int)
    requires
        2 <= origin.table_height + origin.num_trace_randomizers <= usize::MAX,
        origin.table_height + origin.num_trace_randomizers - 1 <= i64::MAX,
        i64::MIN <= origin.degree + origin.zerofier_degree <= i64::MAX,
        factor * (origin.table_height + origin.num_trace_randomizers - 1) == origin.degree
            + origin.zerofier_degree,
    ensures
        origin.is_describable(),
        origin.description() == "Degree of poly for table "@ + origin.table_name + " (index "@
            + decimal::two_digits(origin.index as nat) + ") of type "@ + origin.constraint_type
            + " is "@ + decimal::signed_digits(factor) + "."@,
{
    let degree = origin.table_height + origin.num_trace_randomizers - 1;
    lemma_mul_is_commutative(factor, degree);
    lemma_div_multiples_vanish(factor, degree);
    lemma_mod_multiples_basic(factor, degree);
}

} // verus!
