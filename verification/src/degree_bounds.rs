//! Upper bounds on the degrees of quotients.
use crate::field_model::Xf;
use crate::mpolynomial::Degree;
use crate::mpolynomial::MPolynomial;
use crate::mpolynomial::PolyModel;
use crate::mpolynomial::TermModel;
use crate::table_collection;
use vstd::prelude::*;

verus! {

/// The same degree for each of `width` variables.
pub open spec fn uniform(width: nat, degree: int) -> Seq<Degree> {
    Seq::new(width, |i: int| degree as Degree)
}

/// The degree bound of each constraint, less the degree of the zerofier that divides it.
pub open spec fn computed_bounds(
    constraints: Seq<PolyModel>,
    degrees: Seq<Degree>,
    zerofier_degree: int,
) -> Seq<Degree> {
    Seq::new(
        constraints.len(),
        |i: int| (constraints[i].degree_bound(degrees) - zerofier_degree) as Degree,
    )
}

/// Every bound can be computed: there is one degree for each variable, and no number on the way
/// exceeds the largest [`Degree`].
pub open spec fn bounds_fit(
    constraints: Seq<PolyModel>,
    degrees: Seq<Degree>,
    zerofier_degree: int,
) -> bool {
    forall|i: int|
        0 <= i < constraints.len() ==> (#[trigger] constraints[i]).degree_bound_fits(degrees)
            && constraints[i].degree_bound(degrees) - zerofier_degree <= i64::MAX
}

/// Whether the degree bounds of a table's quotients of one kind exist. Bounds that are set always
/// do.
pub open spec fn quotient_bounds_exist(
    known: Option<Vec<Degree>>,
    constraints: Seq<PolyModel>,
    width: int,
    padded_height: usize,
    num_trace_randomizers: usize,
    zerofier_degree: int,
) -> bool {
    known is None ==> {
        &&& width <= usize::MAX
        &&& i64::MIN <= zerofier_degree <= i64::MAX
        &&& table_collection::interpolant_degree_fits(padded_height, num_trace_randomizers)
        &&& bounds_fit(
            constraints,
            uniform(
                width as nat,
                table_collection::spec_interpolant_degree(padded_height, num_trace_randomizers),
            ),
            zerofier_degree,
        )
    }
}

/// The degree bounds of a table's quotients of one kind: those that are set, or else those computed
/// from the constraints, each column having the degree of an interpolant.
pub open spec fn quotient_bounds(
    known: Option<Vec<Degree>>,
    constraints: Seq<PolyModel>,
    width: int,
    padded_height: usize,
    num_trace_randomizers: usize,
    zerofier_degree: int,
) -> Seq<Degree> {
    match known {
        Some(bounds) => bounds@,
        None => computed_bounds(
            constraints,
            uniform(
                width as nat,
                table_collection::spec_interpolant_degree(padded_height, num_trace_randomizers),
            ),
            zerofier_degree,
        ),
    }
}

/// A degree bound is at least `-1`, and no more than what fits.
pub proof fn lemma_degree_bound_range(constraint: PolyModel, degrees: Seq<Degree>)
    requires
        constraint.degree_bound_fits(degrees),
    ensures
        -1 <= constraint.degree_bound(degrees) <= i64::MAX,
{
    lemma_max_range(constraint.terms, degrees);
}

proof fn lemma_max_range(terms: Seq<TermModel>, degrees: Seq<Degree>)
    requires
        forall|i: int|
            0 <= i < terms.len() && (#[trigger] terms[i]).coefficient != Xf::zero()
                ==> TermModel::weighted_degree(terms[i].exponents, degrees) <= i64::MAX,
    ensures
        -1 <= PolyModel::max_weighted_degree(terms, degrees) <= i64::MAX,
    decreases terms.len(),
{
    if terms.len() > 0 {
        let rest = terms.drop_last();
        assert forall|i: int|
            0 <= i < rest.len() && (#[trigger] rest[i]).coefficient
                != Xf::zero() implies TermModel::weighted_degree(rest[i].exponents, degrees)
            <= i64::MAX by {
            assert(rest[i] == terms[i]);
        }
        lemma_max_range(rest, degrees);
        assert(terms.last() == terms[terms.len() - 1]);
    }
}

/// The largest weighted degree is that of some term with a coefficient other than zero, and no such
/// term has a larger one.
pub proof fn lemma_max_is_attained(terms: Seq<TermModel>, degrees: Seq<Degree>)
    ensures
        forall|t: TermModel|
            #![trigger terms.contains(t)]
            terms.contains(t) && t.coefficient != Xf::zero() ==> TermModel::weighted_degree(
                t.exponents,
                degrees,
            ) <= PolyModel::max_weighted_degree(terms, degrees),
        PolyModel::max_weighted_degree(terms, degrees) == -1 || exists|t: TermModel|
            #![trigger terms.contains(t)]
            terms.contains(t) && t.coefficient != Xf::zero() && TermModel::weighted_degree(
                t.exponents,
                degrees,
            ) == PolyModel::max_weighted_degree(terms, degrees),
        PolyModel::max_weighted_degree(terms, degrees) >= -1,
    decreases terms.len(),
{
    if terms.len() > 0 {
        let rest = terms.drop_last();
        let last = terms.last();
        lemma_max_is_attained(rest, degrees);
        assert(terms[terms.len() - 1] == last);
        assert(terms.contains(last));
        assert forall|t: TermModel| #[trigger] rest.contains(t) implies terms.contains(t) by {
            let i = choose|i: int| 0 <= i < rest.len() && rest[i] == t;
            assert(terms[i] == t);
        }
        assert forall|t: TermModel| #[trigger] terms.contains(t) implies t == last || rest.contains(
            t,
        ) by {
            let i = choose|i: int| 0 <= i < terms.len() && terms[i] == t;
            if i < rest.len() {
                assert(rest[i] == t);
            }
        }
    }
}

/// Neither the degree bound of a constraint nor whether it fits depends on the order of the terms.
pub proof fn law_order_of_terms_is_free(a: PolyModel, b: PolyModel, degrees: Seq<Degree>)
    requires
        a.same_terms(b),
    ensures
        a.degree_bound(degrees) == b.degree_bound(degrees),
        a.degree_bound_fits(degrees) == b.degree_bound_fits(degrees),
{
    assert forall|t: TermModel| #[trigger] a.terms.contains(t) <==> b.terms.contains(t) by {
        a.terms.to_multiset_ensures();
        b.terms.to_multiset_ensures();
        assert(a.terms.contains(t) <==> a.terms.to_multiset().count(t) > 0);
        assert(b.terms.contains(t) <==> b.terms.to_multiset().count(t) > 0);
    }
    lemma_max_is_attained(a.terms, degrees);
    lemma_max_is_attained(b.terms, degrees);
    assert forall|i: int| 0 <= i < a.terms.len() implies b.terms.contains(
        #[trigger] a.terms[i],
    ) by {
        assert(a.terms.contains(a.terms[i]));
    }
    assert forall|i: int| 0 <= i < b.terms.len() implies a.terms.contains(
        #[trigger] b.terms[i],
    ) by {
        assert(b.terms.contains(b.terms[i]));
    }
}

/// Computed bounds do not depend on the order of the terms.
pub(crate) proof fn lemma_bounds_of_same(
    a: Seq<PolyModel>,
    b: Seq<PolyModel>,
    degrees: Seq<Degree>,
    zerofier_degree: int,
)
    requires
        PolyModel::all_same(a, b),
    ensures
        computed_bounds(a, degrees, zerofier_degree) == computed_bounds(
            b,
            degrees,
            zerofier_degree,
        ),
        bounds_fit(b, degrees, zerofier_degree) ==> bounds_fit(a, degrees, zerofier_degree),
{
    assert forall|i: int| 0 <= i < a.len() implies #[trigger] a[i].degree_bound(degrees)
        == b[i].degree_bound(degrees) && a[i].degree_bound_fits(degrees)
        == b[i].degree_bound_fits(degrees) by {
        assert(a[i].same_terms(b[i]));
        law_order_of_terms_is_free(a[i], b[i], degrees);
    }
    assert(computed_bounds(a, degrees, zerofier_degree) =~= computed_bounds(
        b,
        degrees,
        zerofier_degree,
    ));
    if bounds_fit(b, degrees, zerofier_degree) {
        assert forall|i: int| 0 <= i < a.len() implies (#[trigger] a[i]).degree_bound_fits(degrees)
            && a[i].degree_bound(degrees) - zerofier_degree <= i64::MAX by {
            assert(b[i].degree_bound_fits(degrees));
            assert(a[i].degree_bound(degrees) == b[i].degree_bound(degrees));
        }
    }
}

/// Computed bounds, one by one, as numbers.
pub(crate) proof fn lemma_bounds_written_out(
    constraints: Seq<PolyModel>,
    width: nat,
    interpolant_degree: Degree,
    zerofier_degree: int,
)
    requires
        bounds_fit(constraints, uniform(width, interpolant_degree as int), zerofier_degree),
        i64::MIN <= zerofier_degree <= i64::MAX,
    ensures
        forall|i: int|
            0 <= i < constraints.len() ==> (#[trigger] computed_bounds(
                constraints,
                uniform(width, interpolant_degree as int),
                zerofier_degree,
            )[i]) as int == constraints[i].degree_bound(
                uniform(width, interpolant_degree as int),
            ) - zerofier_degree,
{
    let degrees = uniform(width, interpolant_degree as int);
    assert forall|i: int| 0 <= i < constraints.len() implies (#[trigger] computed_bounds(
        constraints,
        degrees,
        zerofier_degree,
    )[i]) as int == constraints[i].degree_bound(degrees) - zerofier_degree by {
        assert(constraints[i].degree_bound_fits(degrees));
        lemma_degree_bound_range(constraints[i], degrees);
    }
}

/// Whether [`compute_bounds`] can be called.
pub fn can_compute_bounds(
    constraints: &Vec<MPolynomial>,
    width: usize,
    interpolant_degree: Degree,
    zerofier_degree: Degree,
) -> (r: bool)
    ensures
        r <==> forall|i: int|
            0 <= i < constraints@.len() ==> {
                let degrees = Seq::new(width as nat, |k: int| interpolant_degree);
                &&& (#[trigger] constraints@[i])@.degree_bound_fits(degrees)
                &&& constraints@[i]@.degree_bound(degrees) - zerofier_degree <= i64::MAX
            },
        r == bounds_fit(
            MPolynomial::views(constraints@),
            uniform(width as nat, interpolant_degree as int),
            zerofier_degree as int,
        ),
{
    let ghost models = MPolynomial::views(constraints@);
    let ghost degrees = uniform(width as nat, interpolant_degree as int);
    let max_degrees: Vec<Degree> = vec![interpolant_degree; width];
    assert(max_degrees@ =~= degrees);
    assert(degrees =~= Seq::new(width as nat, |k: int| interpolant_degree));
    assert forall|i: int| 0 <= i < constraints@.len() implies #[trigger] models[i]
        == constraints@[i]@ by {}
    for i in 0..constraints.len()
        invariant
            models == MPolynomial::views(constraints@),
            degrees == Seq::new(width as nat, |k: int| interpolant_degree),
            degrees == uniform(width as nat, interpolant_degree as int),
            max_degrees@ == degrees,
            forall|k: int|
                0 <= k < i ==> (#[trigger] models[k]).degree_bound_fits(degrees)
                    && models[k].degree_bound(degrees) - zerofier_degree <= i64::MAX,
    {
        assert(models[i as int] == constraints@[i as int]@);
        if !constraints[i].degree_bound_fits(&max_degrees) {
            return false;
        }
        let bound = constraints[i].symbolic_degree_bound(&max_degrees);
        if bound as i128 - zerofier_degree as i128 > i64::MAX as i128 {
            return false;
        }
    }
    assert forall|i: int| 0 <= i < constraints@.len() implies (
    #[trigger] constraints@[i])@.degree_bound_fits(degrees) && constraints@[i]@.degree_bound(
        degrees,
    ) - zerofier_degree <= i64::MAX by {
        assert(models[i] == constraints@[i]@);
    }
    true
}

/// The degree bound of each constraint, less the degree of the zerofier that divides it, where each
/// of `width` columns has the degree of an interpolant.
pub fn compute_bounds(
    constraints: &Vec<MPolynomial>,
    width: usize,
    interpolant_degree: Degree,
    zerofier_degree: Degree,
) -> (r: Vec<Degree>)
    requires
        bounds_fit(
            MPolynomial::views(constraints@),
            uniform(width as nat, interpolant_degree as int),
            zerofier_degree as int,
        ),
    ensures
        r@.len() == constraints@.len(),
        forall|i: int|
            0 <= i < r@.len() ==> (#[trigger] r@[i]) as int == constraints@[i]@.degree_bound(
                Seq::new(width as nat, |k: int| interpolant_degree),
            ) - zerofier_degree,
        r@ == computed_bounds(
            MPolynomial::views(constraints@),
            uniform(width as nat, interpolant_degree as int),
            zerofier_degree as int,
        ),
{
    let ghost models = MPolynomial::views(constraints@);
    let ghost degrees = uniform(width as nat, interpolant_degree as int);
    let max_degrees: Vec<Degree> = vec![interpolant_degree; width];
    assert(max_degrees@ =~= degrees);
    let mut r: Vec<Degree> = Vec::new();
    for i in 0..constraints.len()
        invariant
            models == MPolynomial::views(constraints@),
            max_degrees@ == degrees,
            bounds_fit(models, degrees, zerofier_degree as int),
            r@.len() == i,
            forall|k: int|
                0 <= k < i ==> (#[trigger] r@[k]) as int == constraints@[k]@.degree_bound(degrees)
                    - zerofier_degree,
            r@ =~= computed_bounds(models, degrees, zerofier_degree as int).take(i as int),
    {
        assert(models[i as int] == constraints@[i as int]@);
        proof {
            lemma_degree_bound_range(models[i as int], degrees);
        }
        r.push(constraints[i].symbolic_degree_bound(&max_degrees) - zerofier_degree);
    }
    assert(degrees =~= Seq::new(width as nat, |k: int| interpolant_degree));
    r
}

} // verus!
