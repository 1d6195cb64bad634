//! Quotient codewords: evaluated constraints, divided by what vanishes where they must hold.
use crate::decimal;
use crate::field_model;
use crate::field_model::Xf;
use crate::fri_domain::univariate_degree;
use crate::fri_domain::FriDomain;
use crate::mpolynomial::MPolynomial;
use crate::mpolynomial::PolyModel;
use crate::parallel::par_map;
use crate::univariate::Univariate;
use crate::x_field_element::XFieldElement;
use vstd::prelude::*;
use vstd::string::StringExecFns;

verus! {

/// Vanishes at one, the domain value of the first row.
pub open spec fn initial_zerofier(x: Xf) -> Xf {
    Xf::sub(x, Xf::one())
}

/// Vanishes at every element whose order divides `height`: the domain values of all rows.
pub open spec fn subgroup_zerofier(x: Xf, height: u32) -> Xf {
    Xf::sub(Xf::pow(x, height as nat), Xf::one())
}

/// Vanishes at the inverse of `omicron`, the domain value of the last row.
pub open spec fn terminal_zerofier(x: Xf, omicron: Xf) -> Xf {
    Xf::sub(x, Xf::inv(omicron))
}

/// The initial zerofier at every domain value.
pub open spec fn initial_zerofiers(values: Seq<Xf>) -> Seq<Xf> {
    Seq::new(values.len(), |j: int| initial_zerofier(values[j]))
}

/// The subgroup zerofier at every domain value.
pub open spec fn subgroup_zerofiers(values: Seq<Xf>, height: u32) -> Seq<Xf> {
    Seq::new(values.len(), |j: int| subgroup_zerofier(values[j], height))
}

/// The terminal zerofier at every domain value.
pub open spec fn terminal_zerofiers(values: Seq<Xf>, omicron: Xf) -> Seq<Xf> {
    Seq::new(values.len(), |j: int| terminal_zerofier(values[j], omicron))
}

/// What the evaluated initial constraints are multiplied with at each domain value.
pub open spec fn initial_factors(values: Seq<Xf>) -> Seq<Xf> {
    Seq::new(values.len(), |j: int| Xf::inv(initial_zerofier(values[j])))
}

/// What the evaluated consistency constraints are multiplied with at each domain value.
pub open spec fn consistency_factors(values: Seq<Xf>, height: u32) -> Seq<Xf> {
    Seq::new(values.len(), |j: int| Xf::inv(subgroup_zerofier(values[j], height)))
}

/// What the evaluated transition constraints are multiplied with at each domain value. The last
/// row has no successor, so its domain value is taken out of the zerofier.
pub open spec fn transition_factors(values: Seq<Xf>, height: u32, omicron: Xf) -> Seq<Xf> {
    Seq::new(
        values.len(),
        |j: int|
            Xf::mul(
                terminal_zerofier(values[j], omicron),
                Xf::inv(subgroup_zerofier(values[j], height)),
            ),
    )
}

/// What the evaluated terminal constraints are multiplied with at each domain value.
pub open spec fn terminal_factors(values: Seq<Xf>, omicron: Xf) -> Seq<Xf> {
    Seq::new(values.len(), |j: int| Xf::inv(terminal_zerofier(values[j], omicron)))
}

/// The rows that `rows` denotes.
pub open spec fn matrix(rows: Seq<Vec<XFieldElement>>) -> Seq<Seq<Xf>> {
    Seq::new(rows.len(), |j: int| XFieldElement::views(rows[j]@))
}

/// The values of all constraints at one point.
pub open spec fn evaluations(constraints: Seq<PolyModel>, point: Seq<Xf>) -> Seq<Xf> {
    Seq::new(constraints.len(), |i: int| constraints[i].value(point))
}

/// Every element times `factor`.
pub open spec fn scaled(elements: Seq<Xf>, factor: Xf) -> Seq<Xf> {
    Seq::new(elements.len(), |i: int| Xf::mul(elements[i], factor))
}

/// One codeword for each of `count` constraints: at each place the constraint's value there, times the
/// factor there. The values come by place, and for each place by constraint.
pub open spec fn quotient_codewords(
    count: nat,
    values: Seq<Seq<Xf>>,
    factors: Seq<Xf>,
) -> Seq<Seq<Xf>> {
    Seq::new(
        count,
        |i: int| Seq::new(values.len(), |j: int| Xf::mul(values[j][i], factors[j])),
    )
}

/// The row that holds the successor, one step of the trace further on, of row `j`: the indices
/// wrap around by a mask.
pub open spec fn next_row_index(j: int, unit_distance: int, length: usize) -> int {
    ((j + unit_distance) as usize & (length - 1) as usize) as int
}

/// Every constraint is in `width` variables.
pub open spec fn all_in(constraints: Seq<PolyModel>, width: nat) -> bool {
    forall|i: int|
        0 <= i < constraints.len() ==> (#[trigger] constraints[i]).variable_count == width
}

/// There are `count` values for each place, and all are reduced.
pub open spec fn all_reduced(values: Seq<Seq<Xf>>, count: nat) -> bool {
    forall|j: int|
        0 <= j < values.len() ==> (#[trigger] values[j]).len() == count && Univariate::canonical(
            values[j],
        )
}

/// No element is zero.
pub open spec fn none_zero(elements: Seq<Xf>) -> bool {
    forall|j: int| 0 <= j < elements.len() ==> #[trigger] elements[j] != Xf::zero()
}

/// Each factor, times the zerofier at the same place, is the numerator there.
pub open spec fn factors_cancel(
    factors: Seq<Xf>,
    zerofiers: Seq<Xf>,
    numerators: Seq<Xf>,
) -> bool {
    &&& factors.len() == zerofiers.len() == numerators.len()
    &&& forall|j: int|
        0 <= j < factors.len() ==> Xf::mul(#[trigger] factors[j], zerofiers[j]) == numerators[j]
}

/// One, as often as `length` says.
pub open spec fn ones(length: nat) -> Seq<Xf> {
    Seq::new(length, |j: int| Xf::one())
}

/// Each quotient, times the zerofier, is the constraint's value, times the numerator, at every place.
pub open spec fn divides(
    codewords: Seq<Seq<Xf>>,
    values: Seq<Seq<Xf>>,
    zerofiers: Seq<Xf>,
    numerators: Seq<Xf>,
) -> bool {
    forall|i: int, j: int|
        0 <= i < codewords.len() && 0 <= j < values.len() ==> Xf::mul(
            #[trigger] codewords[i][j],
            zerofiers[j],
        ) == Xf::mul(values[j][i], numerators[j])
}

/// Each quotient, times the zerofier, is the constraint's value at every place.
pub open spec fn divides_cleanly(
    codewords: Seq<Seq<Xf>>,
    values: Seq<Seq<Xf>>,
    zerofiers: Seq<Xf>,
) -> bool {
    forall|i: int, j: int|
        0 <= i < codewords.len() && 0 <= j < values.len() ==> Xf::mul(
            #[trigger] codewords[i][j],
            zerofiers[j],
        ) == values[j][i]
}

/// There is one row for each value of the domain, and at least one.
pub open spec fn rows_match(fri_domain: FriDomain, rows: Seq<Seq<Xf>>) -> bool {
    fri_domain.length > 0 && rows.len() == fri_domain.length
}

/// How many domain values lie between those of a row and of its successor.
pub open spec fn spec_unit_distance(fri_domain: FriDomain, padded_height: usize) -> int {
    fri_domain.length as int / padded_height as int
}

/// The row that holds the successor of row `j` on the domain.
pub open spec fn successor(fri_domain: FriDomain, padded_height: usize, j: int) -> int {
    next_row_index(j, spec_unit_distance(fri_domain, padded_height), fri_domain.length)
}

/// Calls `other::transpose` of `twenty_first`: the columns of a regular matrix as rows. It panics
/// where there is no row, and where a row is shorter than the first.
#[verifier::external_body]
fn transpose(rows: &Vec<Vec<XFieldElement>>) -> (r: Vec<Vec<XFieldElement>>)
    requires
        rows@.len() > 0,
        forall|j: int| 0 <= j < rows@.len() ==> (#[trigger] rows@[j])@.len() == rows@[0]@.len(),
    ensures
        r@.len() == rows@[0]@.len(),
        forall|i: int| 0 <= i < r@.len() ==> (#[trigger] r@[i])@.len() == rows@.len(),
        forall|i: int, j: int|
            0 <= i < r@.len() && 0 <= j < rows@.len() ==> #[trigger] r@[i]@[j] == rows@[j]@[i],
{
    twenty_first::shared_math::other::transpose(rows)
}

/// The values of all constraints at one point.
pub fn evaluate_all(constraints: &Vec<MPolynomial>, point: &[XFieldElement]) -> (r: Vec<
    XFieldElement,
>)
    requires
        all_in(MPolynomial::views(constraints@), point@.len()),
    ensures
        r@.len() == constraints@.len(),
        forall|i: int|
            0 <= i < r@.len() ==> (#[trigger] r@[i])@ == constraints@[i]@.value(
                XFieldElement::views(point@),
            ),
        XFieldElement::views(r@) == evaluations(
            MPolynomial::views(constraints@),
            XFieldElement::views(point@),
        ),
{
    let mut r: Vec<XFieldElement> = Vec::new();
    for i in 0..constraints.len()
        invariant
            all_in(MPolynomial::views(constraints@), point@.len()),
            r@.len() == i,
            forall|j: int|
                0 <= j < i ==> (#[trigger] r@[j])@ == constraints@[j]@.value(
                    XFieldElement::views(point@),
                ),
    {
        assert(MPolynomial::views(constraints@)[i as int].variable_count == point@.len());
        r.push(constraints[i].evaluate(point));
    }
    assert(XFieldElement::views(r@) =~= evaluations(
        MPolynomial::views(constraints@),
        XFieldElement::views(point@),
    ));
    r
}

/// Every element times `factor`.
pub fn scale_all(elements: &Vec<XFieldElement>, factor: &XFieldElement) -> (r: Vec<XFieldElement>)
    ensures
        r@.len() == elements@.len(),
        forall|i: int|
            0 <= i < r@.len() ==> (#[trigger] r@[i])@ == Xf::mul(elements@[i]@, factor@),
        XFieldElement::views(r@) == scaled(XFieldElement::views(elements@), factor@),
{
    let mut r: Vec<XFieldElement> = Vec::new();
    for i in 0..elements.len()
        invariant
            r@.len() == i,
            forall|j: int|
                0 <= j < i ==> (#[trigger] r@[j])@ == Xf::mul(elements@[j]@, factor@),
    {
        r.push(elements[i].mul(factor));
    }
    assert(XFieldElement::views(r@) =~= scaled(XFieldElement::views(elements@), factor@));
    r
}

/// The rows that hold, for each place, the evaluated constraints times the factor there.
fn quotient_rows<F>(zerofier_inverse: &Vec<XFieldElement>, evaluate: F) -> (r: Vec<
    Vec<XFieldElement>,
>) where F: Fn(usize) -> Vec<XFieldElement> + Copy + Send + Sync
    requires
        forall|i: usize| i < zerofier_inverse@.len() ==> #[trigger] evaluate.requires((i,)),
    ensures
        r@.len() == zerofier_inverse@.len(),
        forall|j: int|
            0 <= j < r@.len() ==> is_quotient_row(
                evaluate,
                j as usize,
                zerofier_inverse@[j]@,
                #[trigger] r@[j],
            ),
{
    let quotient_row = |i: usize| -> (row: Vec<XFieldElement>)
        requires
            i < zerofier_inverse@.len(),
            evaluate.requires((i,)),
        ensures
            is_quotient_row(evaluate, i, zerofier_inverse@[i as int]@, row),
        {
            let evaluated = evaluate(i);
            scale_all(&evaluated, &zerofier_inverse[i])
        };
    let r = par_map(zerofier_inverse.len(), quotient_row);
    assert forall|j: int| 0 <= j < r@.len() implies is_quotient_row(
        evaluate,
        j as usize,
        zerofier_inverse@[j]@,
        #[trigger] r@[j],
    ) by {
        assert(quotient_row.ensures((j as usize,), r@[j]));
    }
    r
}

/// What `evaluate` yields for `i`, times `factor`.
spec fn is_quotient_row<F: Fn(usize) -> Vec<XFieldElement>>(
    evaluate: F,
    i: usize,
    factor: Xf,
    row: Vec<XFieldElement>,
) -> bool {
    exists|evaluated: Vec<XFieldElement>| #[trigger]
        evaluate.ensures((i,), evaluated) && XFieldElement::views(row@) == scaled(
            XFieldElement::views(evaluated@),
            factor,
        )
}

/// The quotient codewords of `count` constraints, where `evaluate` yields the constraints' values at
/// each place, and `zerofier_inverse` what they are multiplied with.
pub(crate) fn divide<F>(
    zerofier_inverse: &Vec<XFieldElement>,
    evaluate: F,
    count: Ghost<nat>,
    values: Ghost<Seq<Seq<Xf>>>,
) -> (r: Vec<Vec<XFieldElement>>) where F: Fn(usize) -> Vec<XFieldElement> + Copy + Send + Sync
    requires
        zerofier_inverse@.len() > 0,
        zerofier_inverse@.len() == values@.len(),
        forall|i: usize| i < zerofier_inverse@.len() ==> #[trigger] evaluate.requires((i,)),
        forall|i: usize, evaluated: Vec<XFieldElement>|
            i < zerofier_inverse@.len() && #[trigger] evaluate.ensures((i,), evaluated)
                ==> evaluated@.len() == count@ && XFieldElement::views(evaluated@)
                == values@[i as int],
    ensures
        matrix(r@) == quotient_codewords(
            count@,
            values@,
            XFieldElement::views(zerofier_inverse@),
        ),
        all_reduced(values@, count@),
{
    let rows = quotient_rows(zerofier_inverse, evaluate);
    assert(zerofier_inverse@.len() == zerofier_inverse.len());
    let ghost factors = XFieldElement::views(zerofier_inverse@);
    assert forall|j: int| 0 <= j < rows@.len() implies values@[j].len() == count@
        && Univariate::canonical(values@[j]) && XFieldElement::views((#[trigger] rows@[j])@)
        == scaled(values@[j], factors[j]) by {
        assert(is_quotient_row(evaluate, j as usize, zerofier_inverse@[j]@, rows@[j]));
        let evaluated = choose|evaluated: Vec<XFieldElement>| #[trigger]
            evaluate.ensures((j as usize,), evaluated) && XFieldElement::views(rows@[j]@)
                == scaled(XFieldElement::views(evaluated@), zerofier_inverse@[j]@);
        assert(evaluate.ensures((j as usize,), evaluated));
        assert(values@[j] == XFieldElement::views(evaluated@));
        assert forall|i: int| 0 <= i < values@[j].len() implies (
        #[trigger] values@[j][i]).canonical() by {
            XFieldElement::lemma_canonical(evaluated@[i]);
        }
    }
    assert forall|j: int| 0 <= j < values@.len() implies (#[trigger] values@[j]).len() == count@
        && Univariate::canonical(values@[j]) by {
        assert(XFieldElement::views(rows@[j]@) == scaled(values@[j], factors[j]));
    }
    assert forall|j: int| 0 <= j < rows@.len() implies (#[trigger] rows@[j])@.len() == count@ by {
        assert(XFieldElement::views(rows@[j]@).len() == values@[j].len());
    }
    let r = transpose(&rows);
    proof {
        let expected = quotient_codewords(count@, values@, factors);
        assert forall|i: int| 0 <= i < count@ implies #[trigger] matrix(r@)[i] == expected[i] by {
            assert forall|j: int| 0 <= j < values@.len() implies #[trigger] matrix(r@)[i][j]
                == expected[i][j] by {
                assert(r@[i]@[j] == rows@[j]@[i]);
                assert(XFieldElement::views(rows@[j]@)[i] == rows@[j]@[i]@);
            }
            assert(matrix(r@)[i] =~= expected[i]);
        }
        assert(matrix(r@) =~= expected);
    }
    r
}

/// Every element minus `subtrahend`.
fn subtract_from_all(elements: &Vec<XFieldElement>, subtrahend: &XFieldElement) -> (r: Vec<
    XFieldElement,
>)
    ensures
        r@.len() == elements@.len(),
        forall|j: int|
            0 <= j < r@.len() ==> (#[trigger] r@[j])@ == Xf::sub(elements@[j]@, subtrahend@),
{
    let mut r: Vec<XFieldElement> = Vec::new();
    for i in 0..elements.len()
        invariant
            r@.len() == i,
            forall|j: int|
                0 <= j < i ==> (#[trigger] r@[j])@ == Xf::sub(elements@[j]@, subtrahend@),
    {
        r.push(elements[i].sub(subtrahend));
    }
    r
}

/// The inverted subgroup zerofier at every element.
fn subgroup_zerofier_inverse(elements: &Vec<XFieldElement>, height: u32) -> (r: Vec<XFieldElement>)
    requires
        none_zero(subgroup_zerofiers(XFieldElement::views(elements@), height)),
    ensures
        XFieldElement::views(r@) == consistency_factors(XFieldElement::views(elements@), height),
        factors_cancel(
            XFieldElement::views(r@),
            subgroup_zerofiers(XFieldElement::views(elements@), height),
            ones(r@.len()),
        ),
{
    let one = XFieldElement::one();
    let zerofier = |i: usize| -> (z: XFieldElement)
        requires
            i < elements@.len(),
        ensures
            z@ == subgroup_zerofier(elements@[i as int]@, height),
        { elements[i].mod_pow_u32(height).sub(&one) };
    let codeword = par_map(elements.len(), zerofier);
    let ghost zerofiers = subgroup_zerofiers(XFieldElement::views(elements@), height);
    assert forall|j: int| 0 <= j < codeword@.len() implies (#[trigger] codeword@[j])@
        == zerofiers[j] by {
        assert(zerofier.ensures((j as usize,), codeword@[j]));
    }
    let r = XFieldElement::batch_inversion(&codeword);
    assert(XFieldElement::views(r@) =~= consistency_factors(
        XFieldElement::views(elements@),
        height,
    ));
    r
}

/// The factors of the initial quotients.
pub fn initial_zerofier_inverse(fri_domain: &FriDomain) -> (r: Vec<XFieldElement>)
    requires
        none_zero(initial_zerofiers(fri_domain.spec_values())),
    ensures
        r@.len() == fri_domain.length,
        forall|j: int|
            0 <= j < fri_domain.length ==> Xf::mul(
                (#[trigger] r@[j])@,
                Xf::sub(fri_domain.spec_value(j), Xf::one()),
            ) == Xf::one(),
        XFieldElement::views(r@) == initial_factors(fri_domain.spec_values()),
        factors_cancel(
            XFieldElement::views(r@),
            initial_zerofiers(fri_domain.spec_values()),
            ones(r@.len()),
        ),
{
    let values = fri_domain.domain_values();
    let codeword = subtract_from_all(&values, &XFieldElement::one());
    let ghost zerofiers = initial_zerofiers(fri_domain.spec_values());
    assert forall|j: int| 0 <= j < codeword@.len() implies (#[trigger] codeword@[j])@
        == zerofiers[j] by {
        assert(XFieldElement::views(values@)[j] == values@[j]@);
    }
    let r = XFieldElement::batch_inversion(&codeword);
    assert(XFieldElement::views(r@) =~= initial_factors(fri_domain.spec_values()));
    assert(XFieldElement::views(values@).len() == fri_domain.length);
    r
}

/// The factors of the consistency quotients.
pub fn consistency_zerofier_inverse(fri_domain: &FriDomain, padded_height: usize) -> (r: Vec<
    XFieldElement,
>)
    requires
        none_zero(subgroup_zerofiers(fri_domain.spec_values(), padded_height as u32)),
    ensures
        r@.len() == fri_domain.length,
        forall|j: int|
            0 <= j < fri_domain.length ==> Xf::mul(
                (#[trigger] r@[j])@,
                Xf::sub(
                    Xf::pow(fri_domain.spec_value(j), padded_height as u32 as nat),
                    Xf::one(),
                ),
            ) == Xf::one(),
        XFieldElement::views(r@) == consistency_factors(
            fri_domain.spec_values(),
            padded_height as u32,
        ),
        factors_cancel(
            XFieldElement::views(r@),
            subgroup_zerofiers(fri_domain.spec_values(), padded_height as u32),
            ones(r@.len()),
        ),
{
    let r = subgroup_zerofier_inverse(&fri_domain.domain_values(), padded_height as u32);
    proof {
        let factors = XFieldElement::views(r@);
        let zerofiers = subgroup_zerofiers(fri_domain.spec_values(), padded_height as u32);
        assert(factors.len() == fri_domain.length);
        assert forall|j: int| 0 <= j < fri_domain.length implies Xf::mul(
            (#[trigger] r@[j])@,
            Xf::sub(Xf::pow(fri_domain.spec_value(j), padded_height as u32 as nat), Xf::one()),
        ) == Xf::one() by {
            assert(factors[j] == r@[j]@);
            assert(Xf::mul(factors[j], zerofiers[j]) == Xf::one());
        }
    }
    r
}

/// The factors of the transition quotients.
pub fn transition_zerofier_inverse(
    fri_domain: &FriDomain,
    padded_height: usize,
    omicron: &XFieldElement,
) -> (r: Vec<XFieldElement>)
    requires
        none_zero(subgroup_zerofiers(fri_domain.spec_values(), padded_height as u32)),
    ensures
        r@.len() == fri_domain.length,
        forall|j: int|
            0 <= j < fri_domain.length ==> Xf::mul(
                (#[trigger] r@[j])@,
                Xf::sub(
                    Xf::pow(fri_domain.spec_value(j), padded_height as u32 as nat),
                    Xf::one(),
                ),
            ) == Xf::sub(fri_domain.spec_value(j), Xf::inv(omicron@)),
        XFieldElement::views(r@) == transition_factors(
            fri_domain.spec_values(),
            padded_height as u32,
            omicron@,
        ),
        factors_cancel(
            XFieldElement::views(r@),
            subgroup_zerofiers(fri_domain.spec_values(), padded_height as u32),
            terminal_zerofiers(fri_domain.spec_values(), omicron@),
        ),
{
    let omicron_inverse = omicron.inverse();
    let values = fri_domain.domain_values();
    let subgroup_inverse = subgroup_zerofier_inverse(&values, padded_height as u32);
    let ghost expected = transition_factors(
        fri_domain.spec_values(),
        padded_height as u32,
        omicron@,
    );
    assert(XFieldElement::views(values@).len() == XFieldElement::views(subgroup_inverse@).len());
    let factor = |i: usize| -> (z: XFieldElement)
        requires
            i < values@.len(),
            i < subgroup_inverse@.len(),
        ensures
            z@ == Xf::mul(
                terminal_zerofier(values@[i as int]@, omicron@),
                subgroup_inverse@[i as int]@,
            ),
        { values[i].sub(&omicron_inverse).mul(&subgroup_inverse[i]) };
    let r = par_map(values.len(), factor);
    assert forall|j: int| 0 <= j < r@.len() implies (#[trigger] r@[j])@ == expected[j] by {
        assert(factor.ensures((j as usize,), r@[j]));
        assert(XFieldElement::views(values@)[j] == values@[j]@);
        assert(XFieldElement::views(subgroup_inverse@)[j] == subgroup_inverse@[j]@);
    }
    assert(XFieldElement::views(r@) =~= expected);
    proof {
        let zerofiers = subgroup_zerofiers(fri_domain.spec_values(), padded_height as u32);
        let numerators = terminal_zerofiers(fri_domain.spec_values(), omicron@);
        assert forall|j: int| 0 <= j < expected.len() implies Xf::mul(
            #[trigger] expected[j],
            zerofiers[j],
        ) == numerators[j] by {
            let inverses = XFieldElement::views(subgroup_inverse@);
            assert(Xf::mul(inverses[j], zerofiers[j]) == Xf::one());
            field_model::lemma_divide_multiply(numerators[j], zerofiers[j], inverses[j]);
            field_model::lemma_sub_reduced(fri_domain.spec_values()[j], Xf::inv(omicron@));
        }
        assert(XFieldElement::views(r@).len() == fri_domain.length);
        assert forall|j: int| 0 <= j < fri_domain.length implies Xf::mul(
            (#[trigger] r@[j])@,
            Xf::sub(Xf::pow(fri_domain.spec_value(j), padded_height as u32 as nat), Xf::one()),
        ) == Xf::sub(fri_domain.spec_value(j), Xf::inv(omicron@)) by {
            assert(Xf::mul(expected[j], zerofiers[j]) == numerators[j]);
        }
    }
    r
}

/// The factors of the terminal quotients.
pub fn terminal_zerofier_inverse(fri_domain: &FriDomain, omicron: &XFieldElement) -> (r: Vec<
    XFieldElement,
>)
    requires
        none_zero(terminal_zerofiers(fri_domain.spec_values(), omicron@)),
    ensures
        r@.len() == fri_domain.length,
        forall|j: int|
            0 <= j < fri_domain.length ==> Xf::mul(
                (#[trigger] r@[j])@,
                Xf::sub(fri_domain.spec_value(j), Xf::inv(omicron@)),
            ) == Xf::one(),
        XFieldElement::views(r@) == terminal_factors(fri_domain.spec_values(), omicron@),
        factors_cancel(
            XFieldElement::views(r@),
            terminal_zerofiers(fri_domain.spec_values(), omicron@),
            ones(r@.len()),
        ),
{
    let values = fri_domain.domain_values();
    // The zerofier has its root in the last value of the cyclic group that omicron generates.
    let codeword = subtract_from_all(&values, &omicron.inverse());
    let ghost zerofiers = terminal_zerofiers(fri_domain.spec_values(), omicron@);
    assert forall|j: int| 0 <= j < codeword@.len() implies (#[trigger] codeword@[j])@
        == zerofiers[j] by {
        assert(XFieldElement::views(values@)[j] == values@[j]@);
    }
    let r = XFieldElement::batch_inversion(&codeword);
    assert(XFieldElement::views(r@) =~= terminal_factors(fri_domain.spec_values(), omicron@));
    assert(XFieldElement::views(values@).len() == fri_domain.length);
    r
}

/// Where the factors cancel against the zerofiers, quotients times zerofiers are the constraints'
/// values times what is left of the factors.
pub proof fn lemma_divides(
    count: nat,
    values: Seq<Seq<Xf>>,
    factors: Seq<Xf>,
    zerofiers: Seq<Xf>,
    numerators: Seq<Xf>,
)
    requires
        factors.len() == values.len(),
        factors_cancel(factors, zerofiers, numerators),
    ensures
        divides(quotient_codewords(count, values, factors), values, zerofiers, numerators),
{
    let codewords = quotient_codewords(count, values, factors);
    assert forall|i: int, j: int|
        0 <= i < codewords.len() && 0 <= j < values.len() implies Xf::mul(
        #[trigger] codewords[i][j],
        zerofiers[j],
    ) == Xf::mul(values[j][i], numerators[j]) by {
        assert(Xf::mul(factors[j], zerofiers[j]) == numerators[j]);
        field_model::lemma_mul_associates(values[j][i], factors[j], zerofiers[j]);
    }
}

/// Quotients divide cleanly where their factors are the inverses of the zerofiers.
pub proof fn lemma_divides_cleanly(
    count: nat,
    values: Seq<Seq<Xf>>,
    factors: Seq<Xf>,
    zerofiers: Seq<Xf>,
)
    requires
        factors.len() == values.len(),
        all_reduced(values, count),
        factors_cancel(factors, zerofiers, ones(factors.len())),
    ensures
        divides_cleanly(quotient_codewords(count, values, factors), values, zerofiers),
{
    let codewords = quotient_codewords(count, values, factors);
    lemma_divides(count, values, factors, zerofiers, ones(factors.len()));
    assert forall|i: int, j: int|
        0 <= i < codewords.len() && 0 <= j < values.len() implies Xf::mul(
        #[trigger] codewords[i][j],
        zerofiers[j],
    ) == values[j][i] by {
        assert(values[j].len() == count);
        assert(values[j][i].canonical());
        field_model::lemma_mul_basics(values[j][i]);
        field_model::lemma_reduce(values[j][i]);
    }
}

/// One row followed by another.
pub(crate) fn concatenate(first: &[XFieldElement], second: &[XFieldElement]) -> (r: Vec<
    XFieldElement,
>)
    ensures
        r@ == first@ + second@,
        XFieldElement::views(r@) == XFieldElement::views(first@) + XFieldElement::views(second@),
{
    let mut r: Vec<XFieldElement> = Vec::new();
    for i in 0..first.len()
        invariant
            r@ =~= first@.take(i as int),
    {
        r.push(first[i]);
    }
    for i in 0..second.len()
        invariant
            r@ =~= first@ + second@.take(i as int),
    {
        r.push(second[i]);
    }
    assert(XFieldElement::views(r@) =~= XFieldElement::views(first@) + XFieldElement::views(
        second@,
    ));
    r
}

/// The quotients of all kinds in one list: initial, consistency, transition and terminal quotients.
pub fn join(
    initial: Vec<Vec<XFieldElement>>,
    consistency: Vec<Vec<XFieldElement>>,
    transition: Vec<Vec<XFieldElement>>,
    terminal: Vec<Vec<XFieldElement>>,
) -> (r: Vec<Vec<XFieldElement>>)
    ensures
        r@ == initial@ + consistency@ + transition@ + terminal@,
        matrix(r@) == matrix(initial@) + matrix(consistency@) + matrix(transition@) + matrix(
            terminal@,
        ),
{
    let ghost parts = (initial@, consistency@, transition@, terminal@);
    let mut r = initial;
    let mut consistency = consistency;
    let mut transition = transition;
    let mut terminal = terminal;
    r.append(&mut consistency);
    r.append(&mut transition);
    r.append(&mut terminal);
    assert(matrix(r@) =~= matrix(parts.0) + matrix(parts.1) + matrix(parts.2) + matrix(parts.3));
    r
}

/// What a mask leaves of a number is at most the mask.
pub(crate) proof fn lemma_masked(n: usize, mask: usize)
    ensures
        n & mask <= mask,
{
    assert(n & mask <= mask) by (bit_vector);
}

/// Whether the interpolant of a codeword has less than the largest possible degree.
pub open spec fn degree_not_maximal(degree: int, length: usize) -> bool {
    degree < length - 1
}

/// The message about a quotient whose interpolant has the largest possible degree.
pub open spec fn maximal_degree_message(
    quotient_type: Seq<char>,
    index: nat,
    total: nat,
    table_name: Seq<char>,
    degree: int,
    length: usize,
) -> Seq<char> {
    "Degree of "@ + quotient_type + " quotient index "@ + decimal::digits(index) + " (total "@
        + decimal::digits(total) + " quotients) in "@ + table_name
        + " must not be maximal. Got degree "@ + decimal::signed_digits(degree)
        + ", and FRI domain length was "@ + decimal::digits(length as nat) + "."@
}

/// Writes the message about a quotient whose interpolant has the largest possible degree.
fn write_maximal_degree_message(
    quotient_type: &str,
    index: usize,
    total: usize,
    table_name: &str,
    degree: isize,
    length: usize,
) -> (r: String)
    ensures
        r@ == maximal_degree_message(
            quotient_type@,
            index as nat,
            total as nat,
            table_name@,
            degree as int,
            length,
        ),
{
    let mut r = String::from_str("Degree of ");
    r.append(quotient_type);
    r.append(" quotient index ");
    r.append(decimal::decimal(index as u64).as_str());
    r.append(" (total ");
    r.append(decimal::decimal(total as u64).as_str());
    r.append(" quotients) in ");
    r.append(table_name);
    r.append(" must not be maximal. Got degree ");
    r.append(decimal::signed_decimal(degree as i64).as_str());
    r.append(", and FRI domain length was ");
    r.append(decimal::decimal(length as u64).as_str());
    r.append(".");
    r
}

/// What checking the degrees of the interpolants of some quotients yields: nothing where none is
/// maximal, or else the message about the first that is.
pub open spec fn is_degree_check_outcome(
    r: Result<(), String>,
    degrees: Seq<int>,
    quotient_type: Seq<char>,
    table_name: Seq<char>,
    length: usize,
) -> bool {
    match r {
        Ok(_) => forall|i: int|
            0 <= i < degrees.len() ==> degree_not_maximal(#[trigger] degrees[i], length),
        Err(message) => exists|i: int| #[trigger]
            is_first_maximal(i, degrees, length) && message@ == maximal_degree_message(
                quotient_type,
                i as nat,
                degrees.len(),
                table_name,
                degrees[i],
                length,
            ),
    }
}

/// The degree at `i` is the first that is maximal.
pub open spec fn is_first_maximal(i: int, degrees: Seq<int>, length: usize) -> bool {
    &&& 0 <= i < degrees.len()
    &&& !degree_not_maximal(degrees[i], length)
    &&& forall|j: int| 0 <= j < i ==> degree_not_maximal(#[trigger] degrees[j], length)
}

/// Checks that no interpolant has the largest possible degree, which would indicate that a quotient
/// is most probably the result of unclean division.
pub fn check_interpolant_degrees(
    degrees: &Vec<isize>,
    quotient_type: &str,
    table_name: &str,
    length: usize,
) -> (r: Result<(), String>)
    requires
        degrees@.len() > 0 ==> length <= isize::MAX,
    ensures
        r is Ok <==> forall|i: int|
            0 <= i < degrees@.len() ==> (#[trigger] degrees@[i]) < length - 1,
        r matches Err(message) ==> exists|i: int|
            {
                &&& 0 <= i < degrees@.len()
                &&& (#[trigger] degrees@[i]) >= length - 1
                &&& forall|j: int| 0 <= j < i ==> (#[trigger] degrees@[j]) < length - 1
                &&& message@ == "Degree of "@ + quotient_type@ + " quotient index "@
                    + decimal::digits(i as nat) + " (total "@ + decimal::digits(degrees@.len())
                    + " quotients) in "@ + table_name@ + " must not be maximal. Got degree "@
                    + decimal::signed_digits(degrees@[i] as int)
                    + ", and FRI domain length was "@ + decimal::digits(length as nat) + "."@
            },
        is_degree_check_outcome(
            r,
            degrees@.map_values(|d: isize| d as int),
            quotient_type@,
            table_name@,
            length,
        ),
{
    let ghost models = degrees@.map_values(|d: isize| d as int);
    for i in 0..degrees.len()
        invariant
            degrees@.len() > 0 ==> length <= isize::MAX,
            models == degrees@.map_values(|d: isize| d as int),
            forall|j: int| 0 <= j < i ==> degree_not_maximal(#[trigger] models[j], length),
            forall|j: int| 0 <= j < i ==> (#[trigger] degrees@[j]) < length - 1,
    {
        assert(models[i as int] == degrees@[i as int] as int);
        if degrees[i] >= length as isize - 1 {
            let message = write_maximal_degree_message(
                quotient_type,
                i,
                degrees.len(),
                table_name,
                degrees[i],
                length,
            );
            assert(is_first_maximal(i as int, models, length));
            return Err(message);
        }
    }
    Ok(())
}

/// The degrees of the interpolants of codewords over a domain.
pub open spec fn interpolant_degrees(
    fri_domain: FriDomain,
    codewords: Seq<Seq<Xf>>,
) -> Seq<int> {
    Seq::new(
        codewords.len(),
        |i: int| Univariate::degree(fri_domain.interpolant(codewords[i])),
    )
}

/// Every codeword has an interpolant over the domain.
pub open spec fn are_interpolated(fri_domain: FriDomain, codewords: Seq<Seq<Xf>>) -> bool {
    forall|i: int|
        0 <= i < codewords.len() ==> fri_domain.is_interpolant(
            #[trigger] codewords[i],
            fri_domain.interpolant(codewords[i]),
        )
}

/// Interpolates codewords over a domain, and yields the degrees.
pub(crate) fn interpolate_degrees(fri_domain: &FriDomain, codewords: &[Vec<XFieldElement>]) -> (r:
    Vec<isize>)
    requires
        codewords@.len() > 0 ==> fri_domain.is_coset(),
        forall|i: int|
            0 <= i < codewords@.len() ==> (#[trigger] codewords@[i])@.len() == fri_domain.length,
    ensures
        r@.len() == codewords@.len(),
        r@.map_values(|d: isize| d as int) == interpolant_degrees(*fri_domain, matrix(codewords@)),
        are_interpolated(*fri_domain, matrix(codewords@)),
{
    let ghost expected = interpolant_degrees(*fri_domain, matrix(codewords@));
    let mut r: Vec<isize> = Vec::new();
    for i in 0..codewords.len()
        invariant
            codewords@.len() > 0 ==> fri_domain.is_coset(),
            forall|i: int|
                0 <= i < codewords@.len() ==> (#[trigger] codewords@[i])@.len()
                    == fri_domain.length,
            expected == interpolant_degrees(*fri_domain, matrix(codewords@)),
            r@.len() == i,
            forall|j: int| 0 <= j < i ==> (#[trigger] r@[j]) as int == expected[j],
            forall|j: int|
                0 <= j < i ==> fri_domain.is_interpolant(
                    #[trigger] matrix(codewords@)[j],
                    fri_domain.interpolant(matrix(codewords@)[j]),
                ),
    {
        let interpolated = fri_domain.interpolate(&codewords[i]);
        assert(matrix(codewords@)[i as int] == XFieldElement::views(codewords@[i as int]@));
        r.push(univariate_degree(&interpolated));
    }
    assert(r@.map_values(|d: isize| d as int) =~= expected);
    r
}

} // verus!
