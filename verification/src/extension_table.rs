//! Tables that have been extended: their constraints, quotients and degree bounds.
use crate::base_table::TableLike;
use crate::challenges::AllChallenges;
use crate::decimal;
use crate::degree_bounds;
use crate::degree_with_origin;
use crate::degree_with_origin::attach_origin;
use crate::degree_with_origin::DegreeWithOrigin;
use crate::degree_with_origin::OriginModel;
use crate::field_model::Xf;
use crate::fri_domain::FriDomain;
use crate::mpolynomial::Degree;
use crate::mpolynomial::MPolynomial;
use crate::mpolynomial::PolyModel;
use crate::quotients;
use crate::table_collection::interpolant_degree;
use crate::univariate::Univariate;
use crate::x_field_element::XFieldElement;
use vstd::prelude::*;

verus! {

/// A table that has been extended by the columns that depend on challenges.
pub trait ExtensionTable: TableLike + Sync {
    /// The weights of [`ExtensionTable::placeholder_challenges`].
    open spec fn placeholder_weights(&self) -> Seq<Xf> {
        arbitrary()
    }

    /// Challenges that stand in for real ones where only the degrees of the constraints matter.
    fn placeholder_challenges(&self) -> (r: AllChallenges)
        ensures
            XFieldElement::views(r.weights@) == self.placeholder_weights(),
    ;

    /// The initial constraints that [`ExtensionTable::dynamic_initial_constraints`] hands out, but
    /// for the order of their terms.
    open spec fn initial_constraints_for(&self, weights: Seq<Xf>) -> Seq<PolyModel> {
        arbitrary()
    }

    /// The initial constraints for the given challenges.
    fn dynamic_initial_constraints(&self, challenges: &AllChallenges) -> (r: Vec<MPolynomial>)
        ensures
            PolyModel::all_same(
                MPolynomial::views(r@),
                self.initial_constraints_for(XFieldElement::views(challenges.weights@)),
            ),
    ;

    /// The consistency constraints that [`ExtensionTable::dynamic_consistency_constraints`] hands out, but
    /// for the order of their terms.
    open spec fn consistency_constraints_for(&self, weights: Seq<Xf>) -> Seq<PolyModel> {
        arbitrary()
    }

    /// The consistency constraints for the given challenges.
    fn dynamic_consistency_constraints(&self, challenges: &AllChallenges) -> (r: Vec<MPolynomial>)
        ensures
            PolyModel::all_same(
                MPolynomial::views(r@),
                self.consistency_constraints_for(XFieldElement::views(challenges.weights@)),
            ),
    ;

    /// The transition constraints that [`ExtensionTable::dynamic_transition_constraints`] hands out, but
    /// for the order of their terms.
    open spec fn transition_constraints_for(&self, weights: Seq<Xf>) -> Seq<PolyModel> {
        arbitrary()
    }

    /// The transition constraints for the given challenges.
    fn dynamic_transition_constraints(&self, challenges: &AllChallenges) -> (r: Vec<MPolynomial>)
        ensures
            PolyModel::all_same(
                MPolynomial::views(r@),
                self.transition_constraints_for(XFieldElement::views(challenges.weights@)),
            ),
    ;

    /// The terminal constraints that [`ExtensionTable::dynamic_terminal_constraints`] hands out, but
    /// for the order of their terms.
    open spec fn terminal_constraints_for(&self, weights: Seq<Xf>) -> Seq<PolyModel> {
        arbitrary()
    }

    /// The terminal constraints for the given challenges.
    fn dynamic_terminal_constraints(&self, challenges: &AllChallenges) -> (r: Vec<MPolynomial>)
        ensures
            PolyModel::all_same(
                MPolynomial::views(r@),
                self.terminal_constraints_for(XFieldElement::views(challenges.weights@)),
            ),
    ;
}

/// A table whose constraints can be evaluated. A table that implements [`StoresConstraints`] evaluates
/// the constraints that it holds. Any other brings its own evaluation, for example code generated
/// for its constraints, which need not be stored anywhere. For kinds of constraints that such a table
/// does store, it can use [`quotients::evaluate_all`].
pub trait Evaluable: ExtensionTable {
    /// Whether the initial constraints can be evaluated at a row of this width.
    open spec fn initial_evaluable(&self, width: nat, weights: Seq<Xf>) -> bool {
        arbitrary()
    }

    /// How many initial constraints there are.
    open spec fn initial_count(&self) -> nat {
        arbitrary()
    }

    /// The values of the initial constraints at a row, for the given weights.
    open spec fn initial_values(&self, row: Seq<Xf>, weights: Seq<Xf>) -> Seq<Xf> {
        arbitrary()
    }

    /// Evaluates the initial constraints at a row.
    fn evaluate_initial_constraints(
        &self,
        evaluation_point: &[XFieldElement],
        challenges: &AllChallenges,
    ) -> (r: Vec<XFieldElement>)
        requires
            self.initial_evaluable(
                evaluation_point@.len(),
                XFieldElement::views(challenges.weights@),
            ),
        ensures
            r@.len() == self.initial_count(),
            XFieldElement::views(r@) == self.initial_values(
                XFieldElement::views(evaluation_point@),
                XFieldElement::views(challenges.weights@),
            ),
    ;

    /// Whether the consistency constraints can be evaluated at a row of this width.
    open spec fn consistency_evaluable(&self, width: nat, weights: Seq<Xf>) -> bool {
        arbitrary()
    }

    /// How many consistency constraints there are.
    open spec fn consistency_count(&self) -> nat {
        arbitrary()
    }

    /// The values of the consistency constraints at a row, for the given weights.
    open spec fn consistency_values(&self, row: Seq<Xf>, weights: Seq<Xf>) -> Seq<Xf> {
        arbitrary()
    }

    /// Evaluates the consistency constraints at a row.
    fn evaluate_consistency_constraints(
        &self,
        evaluation_point: &[XFieldElement],
        challenges: &AllChallenges,
    ) -> (r: Vec<XFieldElement>)
        requires
            self.consistency_evaluable(
                evaluation_point@.len(),
                XFieldElement::views(challenges.weights@),
            ),
        ensures
            r@.len() == self.consistency_count(),
            XFieldElement::views(r@) == self.consistency_values(
                XFieldElement::views(evaluation_point@),
                XFieldElement::views(challenges.weights@),
            ),
    ;

    /// Whether the transition constraints can be evaluated at a row and its successor of these widths.
    open spec fn transition_evaluable(
        &self,
        current_width: nat,
        next_width: nat,
        weights: Seq<Xf>,
    ) -> bool {
        arbitrary()
    }

    /// How many transition constraints there are.
    open spec fn transition_count(&self) -> nat {
        arbitrary()
    }

    /// The values of the transition constraints at a row and its successor, for the given weights.
    open spec fn transition_values(
        &self,
        current_row: Seq<Xf>,
        next_row: Seq<Xf>,
        weights: Seq<Xf>,
    ) -> Seq<Xf> {
        arbitrary()
    }

    /// Evaluates the transition constraints at a row and its successor.
    fn evaluate_transition_constraints(
        &self,
        current_row: &[XFieldElement],
        next_row: &[XFieldElement],
        challenges: &AllChallenges,
    ) -> (r: Vec<XFieldElement>)
        requires
            self.transition_evaluable(
                current_row@.len(),
                next_row@.len(),
                XFieldElement::views(challenges.weights@),
            ),
        ensures
            r@.len() == self.transition_count(),
            XFieldElement::views(r@) == self.transition_values(
                XFieldElement::views(current_row@),
                XFieldElement::views(next_row@),
                XFieldElement::views(challenges.weights@),
            ),
    ;

    /// Whether the terminal constraints can be evaluated at a row of this width.
    open spec fn terminal_evaluable(&self, width: nat, weights: Seq<Xf>) -> bool {
        arbitrary()
    }

    /// How many terminal constraints there are.
    open spec fn terminal_count(&self) -> nat {
        arbitrary()
    }

    /// The values of the terminal constraints at a row, for the given weights.
    open spec fn terminal_values(&self, row: Seq<Xf>, weights: Seq<Xf>) -> Seq<Xf> {
        arbitrary()
    }

    /// Evaluates the terminal constraints at a row.
    fn evaluate_terminal_constraints(
        &self,
        evaluation_point: &[XFieldElement],
        challenges: &AllChallenges,
    ) -> (r: Vec<XFieldElement>)
        requires
            self.terminal_evaluable(
                evaluation_point@.len(),
                XFieldElement::views(challenges.weights@),
            ),
        ensures
            r@.len() == self.terminal_count(),
            XFieldElement::views(r@) == self.terminal_values(
                XFieldElement::views(evaluation_point@),
                XFieldElement::views(challenges.weights@),
            ),
    ;
}

/// A table that evaluates the constraints that it holds, whatever the challenges: they went into the
/// constraints when these were stored.
pub trait StoresConstraints: ExtensionTable {

}

impl<T: StoresConstraints + ?Sized> Evaluable for T {
    /// The initial constraints are set, and in as many variables as the row has columns.
    open spec fn initial_evaluable(&self, width: nat, weights: Seq<Xf>) -> bool {
        &&& self.table().initial_constraints is Some
        &&& quotients::all_in(MPolynomial::views(self.table().initial_constraints->0@), width)
    }

    open spec fn initial_count(&self) -> nat {
        self.table().initial_constraints->0@.len()
    }

    open spec fn initial_values(&self, row: Seq<Xf>, weights: Seq<Xf>) -> Seq<Xf> {
        quotients::evaluations(MPolynomial::views(self.table().initial_constraints->0@), row)
    }

    fn evaluate_initial_constraints(
        &self,
        evaluation_point: &[XFieldElement],
        _challenges: &AllChallenges,
    ) -> (r: Vec<XFieldElement>) {
        match &self.inherited_table().initial_constraints {
            Some(constraints) => quotients::evaluate_all(constraints, evaluation_point),
            None => Vec::new(),
        }
    }

    /// The consistency constraints are set, and in as many variables as the row has columns.
    open spec fn consistency_evaluable(&self, width: nat, weights: Seq<Xf>) -> bool {
        &&& self.table().consistency_constraints is Some
        &&& quotients::all_in(MPolynomial::views(self.table().consistency_constraints->0@), width)
    }

    open spec fn consistency_count(&self) -> nat {
        self.table().consistency_constraints->0@.len()
    }

    open spec fn consistency_values(&self, row: Seq<Xf>, weights: Seq<Xf>) -> Seq<Xf> {
        quotients::evaluations(MPolynomial::views(self.table().consistency_constraints->0@), row)
    }

    fn evaluate_consistency_constraints(
        &self,
        evaluation_point: &[XFieldElement],
        _challenges: &AllChallenges,
    ) -> (r: Vec<XFieldElement>) {
        match &self.inherited_table().consistency_constraints {
            Some(constraints) => quotients::evaluate_all(constraints, evaluation_point),
            None => Vec::new(),
        }
    }

    /// The transition constraints are set, and in as many variables as the two rows have columns.
    open spec fn transition_evaluable(
        &self,
        current_width: nat,
        next_width: nat,
        weights: Seq<Xf>,
    ) -> bool {
        &&& self.table().transition_constraints is Some
        &&& quotients::all_in(
            MPolynomial::views(self.table().transition_constraints->0@),
            current_width + next_width,
        )
    }

    open spec fn transition_count(&self) -> nat {
        self.table().transition_constraints->0@.len()
    }

    open spec fn transition_values(
        &self,
        current_row: Seq<Xf>,
        next_row: Seq<Xf>,
        weights: Seq<Xf>,
    ) -> Seq<Xf> {
        quotients::evaluations(
            MPolynomial::views(self.table().transition_constraints->0@),
            current_row + next_row,
        )
    }

    fn evaluate_transition_constraints(
        &self,
        current_row: &[XFieldElement],
        next_row: &[XFieldElement],
        _challenges: &AllChallenges,
    ) -> (r: Vec<XFieldElement>) {
        let evaluation_point = quotients::concatenate(current_row, next_row);
        match &self.inherited_table().transition_constraints {
            Some(constraints) => quotients::evaluate_all(constraints, &evaluation_point),
            None => Vec::new(),
        }
    }

    /// The terminal constraints are set, and in as many variables as the row has columns.
    open spec fn terminal_evaluable(&self, width: nat, weights: Seq<Xf>) -> bool {
        &&& self.table().terminal_constraints is Some
        &&& quotients::all_in(MPolynomial::views(self.table().terminal_constraints->0@), width)
    }

    open spec fn terminal_count(&self) -> nat {
        self.table().terminal_constraints->0@.len()
    }

    open spec fn terminal_values(&self, row: Seq<Xf>, weights: Seq<Xf>) -> Seq<Xf> {
        quotients::evaluations(MPolynomial::views(self.table().terminal_constraints->0@), row)
    }

    fn evaluate_terminal_constraints(
        &self,
        evaluation_point: &[XFieldElement],
        _challenges: &AllChallenges,
    ) -> (r: Vec<XFieldElement>) {
        match &self.inherited_table().terminal_constraints {
            Some(constraints) => quotients::evaluate_all(constraints, evaluation_point),
            None => Vec::new(),
        }
    }
}

/// Whether the degree bounds of the initial quotients exist.
pub open spec fn initial_bounds_exist<T: ExtensionTable + ?Sized>(
    table: &T,
    padded_height: usize,
    num_trace_randomizers: usize,
) -> bool {
    degree_bounds::quotient_bounds_exist(
        table.table().initial_quotient_degree_bounds,
        table.initial_constraints_for(table.placeholder_weights()),
        table.table().full_width as int,
        padded_height,
        num_trace_randomizers,
        1,
    )
}

/// The degree bounds of the initial quotients.
pub open spec fn spec_initial_bounds<T: ExtensionTable + ?Sized>(
    table: &T,
    padded_height: usize,
    num_trace_randomizers: usize,
) -> Seq<Degree> {
    degree_bounds::quotient_bounds(
        table.table().initial_quotient_degree_bounds,
        table.initial_constraints_for(table.placeholder_weights()),
        table.table().full_width as int,
        padded_height,
        num_trace_randomizers,
        1,
    )
}

/// Whether the degree bounds of the consistency quotients exist.
pub open spec fn consistency_bounds_exist<T: ExtensionTable + ?Sized>(
    table: &T,
    padded_height: usize,
    num_trace_randomizers: usize,
) -> bool {
    degree_bounds::quotient_bounds_exist(
        table.table().consistency_quotient_degree_bounds,
        table.consistency_constraints_for(table.placeholder_weights()),
        table.table().full_width as int,
        padded_height,
        num_trace_randomizers,
        padded_height as Degree as int,
    )
}

/// The degree bounds of the consistency quotients.
pub open spec fn spec_consistency_bounds<T: ExtensionTable + ?Sized>(
    table: &T,
    padded_height: usize,
    num_trace_randomizers: usize,
) -> Seq<Degree> {
    degree_bounds::quotient_bounds(
        table.table().consistency_quotient_degree_bounds,
        table.consistency_constraints_for(table.placeholder_weights()),
        table.table().full_width as int,
        padded_height,
        num_trace_randomizers,
        padded_height as Degree as int,
    )
}

/// Whether the degree bounds of the transition quotients exist.
pub open spec fn transition_bounds_exist<T: ExtensionTable + ?Sized>(
    table: &T,
    padded_height: usize,
    num_trace_randomizers: usize,
) -> bool {
    degree_bounds::quotient_bounds_exist(
        table.table().transition_quotient_degree_bounds,
        table.transition_constraints_for(table.placeholder_weights()),
        2 * table.table().full_width,
        padded_height,
        num_trace_randomizers,
        padded_height as Degree - 1,
    )
}

/// The degree bounds of the transition quotients.
pub open spec fn spec_transition_bounds<T: ExtensionTable + ?Sized>(
    table: &T,
    padded_height: usize,
    num_trace_randomizers: usize,
) -> Seq<Degree> {
    degree_bounds::quotient_bounds(
        table.table().transition_quotient_degree_bounds,
        table.transition_constraints_for(table.placeholder_weights()),
        2 * table.table().full_width,
        padded_height,
        num_trace_randomizers,
        padded_height as Degree - 1,
    )
}

/// Whether the degree bounds of the terminal quotients exist.
pub open spec fn terminal_bounds_exist<T: ExtensionTable + ?Sized>(
    table: &T,
    padded_height: usize,
    num_trace_randomizers: usize,
) -> bool {
    degree_bounds::quotient_bounds_exist(
        table.table().terminal_quotient_degree_bounds,
        table.terminal_constraints_for(table.placeholder_weights()),
        table.table().full_width as int,
        padded_height,
        num_trace_randomizers,
        1,
    )
}

/// The degree bounds of the terminal quotients.
pub open spec fn spec_terminal_bounds<T: ExtensionTable + ?Sized>(
    table: &T,
    padded_height: usize,
    num_trace_randomizers: usize,
) -> Seq<Degree> {
    degree_bounds::quotient_bounds(
        table.table().terminal_quotient_degree_bounds,
        table.terminal_constraints_for(table.placeholder_weights()),
        table.table().full_width as int,
        padded_height,
        num_trace_randomizers,
        1,
    )
}

/// No degree bounds are set, so that all are computed from the constraints.
pub open spec fn no_stored_bounds<T: ExtensionTable + ?Sized>(table: &T) -> bool {
    &&& table.table().initial_quotient_degree_bounds is None
    &&& table.table().consistency_quotient_degree_bounds is None
    &&& table.table().transition_quotient_degree_bounds is None
    &&& table.table().terminal_quotient_degree_bounds is None
}

/// All constraints that a table hands out: initial, consistency, transition and terminal constraints.
pub open spec fn all_constraints_for<T: ExtensionTable + ?Sized>(
    table: &T,
    weights: Seq<Xf>,
) -> Seq<PolyModel> {
    table.initial_constraints_for(weights) + table.consistency_constraints_for(weights)
        + table.transition_constraints_for(weights) + table.terminal_constraints_for(weights)
}

/// Whether the degree bounds of all quotients exist.
pub open spec fn all_bounds_exist<T: ExtensionTable + ?Sized>(
    table: &T,
    padded_height: usize,
    num_trace_randomizers: usize,
) -> bool {
    &&& initial_bounds_exist(table, padded_height, num_trace_randomizers)
    &&& consistency_bounds_exist(table, padded_height, num_trace_randomizers)
    &&& transition_bounds_exist(table, padded_height, num_trace_randomizers)
    &&& terminal_bounds_exist(table, padded_height, num_trace_randomizers)
}

/// The degree bounds of all quotients.
pub open spec fn spec_all_bounds<T: ExtensionTable + ?Sized>(
    table: &T,
    padded_height: usize,
    num_trace_randomizers: usize,
) -> Seq<Degree> {
    spec_initial_bounds(table, padded_height, num_trace_randomizers)
        + spec_consistency_bounds(table, padded_height, num_trace_randomizers)
        + spec_transition_bounds(table, padded_height, num_trace_randomizers)
        + spec_terminal_bounds(table, padded_height, num_trace_randomizers)
}

/// The degrees of all quotients, with their origin.
pub open spec fn spec_all_degrees_with_origin<T: ExtensionTable + ?Sized>(
    table: &T,
    padded_height: usize,
    num_trace_randomizers: usize,
) -> Seq<OriginModel> {
    degree_with_origin::with_origin(
        spec_initial_bounds(table, padded_height, num_trace_randomizers),
        1,
        table.table().name@,
        padded_height,
        num_trace_randomizers,
        "initial constraint"@,
    ) + degree_with_origin::with_origin(
        spec_consistency_bounds(table, padded_height, num_trace_randomizers),
        padded_height as Degree as int,
        table.table().name@,
        padded_height,
        num_trace_randomizers,
        "consistency constraint"@,
    ) + degree_with_origin::with_origin(
        spec_transition_bounds(table, padded_height, num_trace_randomizers),
        padded_height as Degree - 1,
        table.table().name@,
        padded_height,
        num_trace_randomizers,
        "transition constraint"@,
    ) + degree_with_origin::with_origin(
        spec_terminal_bounds(table, padded_height, num_trace_randomizers),
        1,
        table.table().name@,
        padded_height,
        num_trace_randomizers,
        "terminal constraint"@,
    )
}

/// The values of the initial constraints at every row.
pub open spec fn initial_value_rows<T: Evaluable + ?Sized>(
    table: &T,
    rows: Seq<Seq<Xf>>,
    weights: Seq<Xf>,
) -> Seq<Seq<Xf>> {
    Seq::new(rows.len(), |j: int| table.initial_values(rows[j], weights))
}

/// Whether the initial quotients of a table exist.
pub open spec fn initial_quotients_exist<T: Evaluable + ?Sized>(
    table: &T,
    fri_domain: FriDomain,
    rows: Seq<Seq<Xf>>,
    weights: Seq<Xf>,
) -> bool {
    &&& quotients::rows_match(fri_domain, rows)
    &&& forall|j: int|
        0 <= j < rows.len() ==> table.initial_evaluable((#[trigger] rows[j]).len(), weights)
    &&& quotients::none_zero(quotients::initial_zerofiers(fri_domain.spec_values()))
}

/// The initial quotients of a table.
pub open spec fn spec_initial_quotients<T: Evaluable + ?Sized>(
    table: &T,
    fri_domain: FriDomain,
    rows: Seq<Seq<Xf>>,
    weights: Seq<Xf>,
) -> Seq<Seq<Xf>> {
    quotients::quotient_codewords(
        table.initial_count(),
        initial_value_rows(table, rows, weights),
        quotients::initial_factors(fri_domain.spec_values()),
    )
}

/// The values of the consistency constraints at every row.
pub open spec fn consistency_value_rows<T: Evaluable + ?Sized>(
    table: &T,
    rows: Seq<Seq<Xf>>,
    weights: Seq<Xf>,
) -> Seq<Seq<Xf>> {
    Seq::new(rows.len(), |j: int| table.consistency_values(rows[j], weights))
}

/// Whether the consistency quotients of a table exist.
pub open spec fn consistency_quotients_exist<T: Evaluable + ?Sized>(
    table: &T,
    fri_domain: FriDomain,
    rows: Seq<Seq<Xf>>,
    weights: Seq<Xf>,
    padded_height: usize,
) -> bool {
    &&& quotients::rows_match(fri_domain, rows)
    &&& forall|j: int|
        0 <= j < rows.len() ==> table.consistency_evaluable((#[trigger] rows[j]).len(), weights)
    &&& quotients::none_zero(
        quotients::subgroup_zerofiers(fri_domain.spec_values(), padded_height as u32),
    )
}

/// The consistency quotients of a table.
pub open spec fn spec_consistency_quotients<T: Evaluable + ?Sized>(
    table: &T,
    fri_domain: FriDomain,
    rows: Seq<Seq<Xf>>,
    weights: Seq<Xf>,
    padded_height: usize,
) -> Seq<Seq<Xf>> {
    quotients::quotient_codewords(
        table.consistency_count(),
        consistency_value_rows(table, rows, weights),
        quotients::consistency_factors(fri_domain.spec_values(), padded_height as u32),
    )
}

/// The values of the transition constraints at every row and its successor on the domain.
pub open spec fn transition_value_rows<T: Evaluable + ?Sized>(
    table: &T,
    fri_domain: FriDomain,
    rows: Seq<Seq<Xf>>,
    weights: Seq<Xf>,
    padded_height: usize,
) -> Seq<Seq<Xf>> {
    Seq::new(
        rows.len(),
        |j: int|
            table.transition_values(
                rows[j],
                rows[quotients::successor(fri_domain, padded_height, j)],
                weights,
            ),
    )
}

/// Whether the transition quotients of a table exist. No index overflows on the way.
pub open spec fn transition_quotients_exist<T: Evaluable + ?Sized>(
    table: &T,
    fri_domain: FriDomain,
    rows: Seq<Seq<Xf>>,
    weights: Seq<Xf>,
    padded_height: usize,
) -> bool {
    &&& quotients::rows_match(fri_domain, rows)
    &&& padded_height > 0
    &&& fri_domain.length - 1 + quotients::spec_unit_distance(fri_domain, padded_height)
        <= usize::MAX
    &&& forall|j: int|
        0 <= j < rows.len() ==> table.transition_evaluable(
            (#[trigger] rows[j]).len(),
            rows[quotients::successor(fri_domain, padded_height, j)].len(),
            weights,
        )
    &&& quotients::none_zero(
        quotients::subgroup_zerofiers(fri_domain.spec_values(), padded_height as u32),
    )
}

/// The transition quotients of a table.
pub open spec fn spec_transition_quotients<T: Evaluable + ?Sized>(
    table: &T,
    fri_domain: FriDomain,
    rows: Seq<Seq<Xf>>,
    weights: Seq<Xf>,
    omicron: Xf,
    padded_height: usize,
) -> Seq<Seq<Xf>> {
    quotients::quotient_codewords(
        table.transition_count(),
        transition_value_rows(table, fri_domain, rows, weights, padded_height),
        quotients::transition_factors(
            fri_domain.spec_values(),
            padded_height as u32,
            omicron,
        ),
    )
}

/// The values of the terminal constraints at every row.
pub open spec fn terminal_value_rows<T: Evaluable + ?Sized>(
    table: &T,
    rows: Seq<Seq<Xf>>,
    weights: Seq<Xf>,
) -> Seq<Seq<Xf>> {
    Seq::new(rows.len(), |j: int| table.terminal_values(rows[j], weights))
}

/// Whether the terminal quotients of a table exist.
pub open spec fn terminal_quotients_exist<T: Evaluable + ?Sized>(
    table: &T,
    fri_domain: FriDomain,
    rows: Seq<Seq<Xf>>,
    weights: Seq<Xf>,
    omicron: Xf,
) -> bool {
    &&& quotients::rows_match(fri_domain, rows)
    &&& forall|j: int|
        0 <= j < rows.len() ==> table.terminal_evaluable((#[trigger] rows[j]).len(), weights)
    &&& quotients::none_zero(quotients::terminal_zerofiers(fri_domain.spec_values(), omicron))
}

/// The terminal quotients of a table.
pub open spec fn spec_terminal_quotients<T: Evaluable + ?Sized>(
    table: &T,
    fri_domain: FriDomain,
    rows: Seq<Seq<Xf>>,
    weights: Seq<Xf>,
    omicron: Xf,
) -> Seq<Seq<Xf>> {
    quotients::quotient_codewords(
        table.terminal_count(),
        terminal_value_rows(table, rows, weights),
        quotients::terminal_factors(fri_domain.spec_values(), omicron),
    )
}

/// Whether all quotients of a table exist.
pub open spec fn all_quotients_exist<T: Evaluable + ?Sized>(
    table: &T,
    fri_domain: FriDomain,
    rows: Seq<Seq<Xf>>,
    weights: Seq<Xf>,
    omicron: Xf,
    padded_height: usize,
) -> bool {
    &&& initial_quotients_exist(table, fri_domain, rows, weights)
    &&& consistency_quotients_exist(table, fri_domain, rows, weights, padded_height)
    &&& transition_quotients_exist(table, fri_domain, rows, weights, padded_height)
    &&& terminal_quotients_exist(table, fri_domain, rows, weights, omicron)
}

/// All quotients of a table.
pub open spec fn spec_all_quotients<T: Evaluable + ?Sized>(
    table: &T,
    fri_domain: FriDomain,
    rows: Seq<Seq<Xf>>,
    weights: Seq<Xf>,
    omicron: Xf,
    padded_height: usize,
) -> Seq<Seq<Xf>> {
    spec_initial_quotients(table, fri_domain, rows, weights) + spec_consistency_quotients(
        table,
        fri_domain,
        rows,
        weights,
        padded_height,
    ) + spec_transition_quotients(table, fri_domain, rows, weights, omicron, padded_height)
        + spec_terminal_quotients(table, fri_domain, rows, weights, omicron)
}

/// Every quotient of a table, times its zerofier, is the value of its constraint, in the case of
/// transition quotients times what vanishes at the last row.
pub open spec fn all_divide<T: Evaluable + ?Sized>(
    table: &T,
    fri_domain: FriDomain,
    rows: Seq<Seq<Xf>>,
    weights: Seq<Xf>,
    omicron: Xf,
    padded_height: usize,
) -> bool {
    let values = fri_domain.spec_values();
    &&& quotients::divides_cleanly(
        spec_initial_quotients(table, fri_domain, rows, weights),
        initial_value_rows(table, rows, weights),
        quotients::initial_zerofiers(values),
    )
    &&& quotients::divides_cleanly(
        spec_consistency_quotients(table, fri_domain, rows, weights, padded_height),
        consistency_value_rows(table, rows, weights),
        quotients::subgroup_zerofiers(values, padded_height as u32),
    )
    &&& quotients::divides(
        spec_transition_quotients(table, fri_domain, rows, weights, omicron, padded_height),
        transition_value_rows(table, fri_domain, rows, weights, padded_height),
        quotients::subgroup_zerofiers(values, padded_height as u32),
        quotients::terminal_zerofiers(values, omicron),
    )
    &&& quotients::divides_cleanly(
        spec_terminal_quotients(table, fri_domain, rows, weights, omicron),
        terminal_value_rows(table, rows, weights),
        quotients::terminal_zerofiers(values, omicron),
    )
}

/// A table whose constraints can be turned into quotients.
pub trait Quotientable: ExtensionTable + Evaluable {
    /// The initial quotients: one codeword for each initial constraint.
    fn initial_quotients(
        &self,
        fri_domain: &FriDomain,
        transposed_codewords: &[Vec<XFieldElement>],
        challenges: &AllChallenges,
    ) -> (r: Vec<Vec<XFieldElement>>)
        requires
            initial_quotients_exist(
                self,
                *fri_domain,
                quotients::matrix(transposed_codewords@),
                XFieldElement::views(challenges.weights@),
            ),
        ensures
            r@.len() == self.initial_count(),
            forall|i: int| 0 <= i < r@.len() ==> (#[trigger] r@[i])@.len() == fri_domain.length,
            forall|i: int, j: int|
                0 <= i < r@.len() && 0 <= j < fri_domain.length ==> Xf::mul(
                    (#[trigger] r@[i]@[j])@,
                    Xf::sub(fri_domain.spec_value(j), Xf::one()),
                ) == self.initial_values(
                    XFieldElement::views(transposed_codewords@[j]@),
                    XFieldElement::views(challenges.weights@),
                )[i],
            quotients::matrix(r@) == spec_initial_quotients(
                self,
                *fri_domain,
                quotients::matrix(transposed_codewords@),
                XFieldElement::views(challenges.weights@),
            ),
            quotients::divides_cleanly(
                quotients::matrix(r@),
                initial_value_rows(
                    self,
                    quotients::matrix(transposed_codewords@),
                    XFieldElement::views(challenges.weights@),
                ),
                quotients::initial_zerofiers(fri_domain.spec_values()),
            ),
    {
        let ghost values = initial_value_rows(
            self,
            quotients::matrix(transposed_codewords@),
            XFieldElement::views(challenges.weights@),
        );
        let zerofier_inverse = quotients::initial_zerofier_inverse(fri_domain);
        let ghost factors = XFieldElement::views(zerofier_inverse@);
        assert(zerofier_inverse@.len() == factors.len() == values.len());
        let evaluate = |i: usize| -> (r: Vec<XFieldElement>)
            requires
                i < transposed_codewords@.len(),
            ensures
                r@.len() == self.initial_count(),
                XFieldElement::views(r@) == self.initial_values(
                    quotients::matrix(transposed_codewords@)[i as int],
                    XFieldElement::views(challenges.weights@),
                ),
            {
                assert(quotients::matrix(transposed_codewords@)[i as int].len()
                    == transposed_codewords@[i as int]@.len());
                self.evaluate_initial_constraints(&transposed_codewords[i], challenges)
            };
        let r = quotients::divide(
            &zerofier_inverse,
            evaluate,
            Ghost(self.initial_count()),
            Ghost(values),
        );
        proof {
            quotients::lemma_divides_cleanly(
                self.initial_count(),
                values,
                factors,
                quotients::initial_zerofiers(fri_domain.spec_values()),
            );
            assert(quotients::matrix(r@).len() == r@.len());
            assert forall|i: int| 0 <= i < r@.len() implies (#[trigger] r@[i])@.len()
                == fri_domain.length by {
                assert(quotients::matrix(r@)[i] == XFieldElement::views(r@[i]@));
                assert(quotients::matrix(r@)[i].len() == values.len());
                assert(XFieldElement::views(r@[i]@).len() == r@[i]@.len());
            }
            assert forall|i: int, j: int|
                0 <= i < r@.len() && 0 <= j < fri_domain.length implies Xf::mul(
                    (#[trigger] r@[i]@[j])@,
                    Xf::sub(fri_domain.spec_value(j), Xf::one()),
                ) == self.initial_values(
                    XFieldElement::views(transposed_codewords@[j]@),
                    XFieldElement::views(challenges.weights@),
                )[i] by {
                assert(quotients::matrix(r@)[i][j] == r@[i]@[j]@);
                assert(quotients::matrix(transposed_codewords@)[j] == XFieldElement::views(
                    transposed_codewords@[j]@,
                ));
            }
        }
        r
    }

    /// The consistency quotients: one codeword for each consistency constraint.
    fn consistency_quotients(
        &self,
        fri_domain: &FriDomain,
        transposed_codewords: &[Vec<XFieldElement>],
        challenges: &AllChallenges,
        padded_height: usize,
    ) -> (r: Vec<Vec<XFieldElement>>)
        requires
            consistency_quotients_exist(
                self,
                *fri_domain,
                quotients::matrix(transposed_codewords@),
                XFieldElement::views(challenges.weights@),
                padded_height,
            ),
        ensures
            r@.len() == self.consistency_count(),
            forall|i: int| 0 <= i < r@.len() ==> (#[trigger] r@[i])@.len() == fri_domain.length,
            forall|i: int, j: int|
                0 <= i < r@.len() && 0 <= j < fri_domain.length ==> Xf::mul(
                    (#[trigger] r@[i]@[j])@,
                    Xf::sub(
                        Xf::pow(fri_domain.spec_value(j), padded_height as u32 as nat),
                        Xf::one(),
                    ),
                ) == self.consistency_values(
                    XFieldElement::views(transposed_codewords@[j]@),
                    XFieldElement::views(challenges.weights@),
                )[i],
            quotients::matrix(r@) == spec_consistency_quotients(
                self,
                *fri_domain,
                quotients::matrix(transposed_codewords@),
                XFieldElement::views(challenges.weights@),
                padded_height,
            ),
            quotients::divides_cleanly(
                quotients::matrix(r@),
                consistency_value_rows(
                    self,
                    quotients::matrix(transposed_codewords@),
                    XFieldElement::views(challenges.weights@),
                ),
                quotients::subgroup_zerofiers(fri_domain.spec_values(), padded_height as u32),
            ),
    {
        let ghost values = consistency_value_rows(
            self,
            quotients::matrix(transposed_codewords@),
            XFieldElement::views(challenges.weights@),
        );
        let zerofier_inverse = quotients::consistency_zerofier_inverse(fri_domain, padded_height);
        let ghost factors = XFieldElement::views(zerofier_inverse@);
        assert(zerofier_inverse@.len() == factors.len() == values.len());
        let evaluate = |i: usize| -> (r: Vec<XFieldElement>)
            requires
                i < transposed_codewords@.len(),
            ensures
                r@.len() == self.consistency_count(),
                XFieldElement::views(r@) == self.consistency_values(
                    quotients::matrix(transposed_codewords@)[i as int],
                    XFieldElement::views(challenges.weights@),
                ),
            {
                assert(quotients::matrix(transposed_codewords@)[i as int].len()
                    == transposed_codewords@[i as int]@.len());
                self.evaluate_consistency_constraints(&transposed_codewords[i], challenges)
            };
        let r = quotients::divide(
            &zerofier_inverse,
            evaluate,
            Ghost(self.consistency_count()),
            Ghost(values),
        );
        proof {
            quotients::lemma_divides_cleanly(
                self.consistency_count(),
                values,
                factors,
                quotients::subgroup_zerofiers(fri_domain.spec_values(), padded_height as u32),
            );
            assert(quotients::matrix(r@).len() == r@.len());
            assert forall|i: int| 0 <= i < r@.len() implies (#[trigger] r@[i])@.len()
                == fri_domain.length by {
                assert(quotients::matrix(r@)[i] == XFieldElement::views(r@[i]@));
                assert(quotients::matrix(r@)[i].len() == values.len());
                assert(XFieldElement::views(r@[i]@).len() == r@[i]@.len());
            }
            assert forall|i: int, j: int|
                0 <= i < r@.len() && 0 <= j < fri_domain.length implies Xf::mul(
                    (#[trigger] r@[i]@[j])@,
                    Xf::sub(
                        Xf::pow(fri_domain.spec_value(j), padded_height as u32 as nat),
                        Xf::one(),
                    ),
                ) == self.consistency_values(
                    XFieldElement::views(transposed_codewords@[j]@),
                    XFieldElement::views(challenges.weights@),
                )[i] by {
                assert(quotients::matrix(r@)[i][j] == r@[i]@[j]@);
                assert(quotients::matrix(transposed_codewords@)[j] == XFieldElement::views(
                    transposed_codewords@[j]@,
                ));
            }
        }
        r
    }

    /// The transition quotients: one codeword for each transition constraint.
    fn transition_quotients(
        &self,
        fri_domain: &FriDomain,
        transposed_codewords: &[Vec<XFieldElement>],
        challenges: &AllChallenges,
        omicron: XFieldElement,
        padded_height: usize,
    ) -> (r: Vec<Vec<XFieldElement>>)
        requires
            transition_quotients_exist(
                self,
                *fri_domain,
                quotients::matrix(transposed_codewords@),
                XFieldElement::views(challenges.weights@),
                padded_height,
            ),
        ensures
            r@.len() == self.transition_count(),
            forall|i: int| 0 <= i < r@.len() ==> (#[trigger] r@[i])@.len() == fri_domain.length,
            forall|i: int, j: int|
                0 <= i < r@.len() && 0 <= j < fri_domain.length ==> Xf::mul(
                    (#[trigger] r@[i]@[j])@,
                    Xf::sub(
                        Xf::pow(fri_domain.spec_value(j), padded_height as u32 as nat),
                        Xf::one(),
                    ),
                ) == Xf::mul(
                    self.transition_values(
                        XFieldElement::views(transposed_codewords@[j]@),
                        XFieldElement::views(
                            transposed_codewords@[((j + fri_domain.length as int
                                / padded_height as int) as usize & (fri_domain.length
                                - 1) as usize) as int]@,
                        ),
                        XFieldElement::views(challenges.weights@),
                    )[i],
                    Xf::sub(fri_domain.spec_value(j), Xf::inv(omicron@)),
                ),
            quotients::matrix(r@) == spec_transition_quotients(
                self,
                *fri_domain,
                quotients::matrix(transposed_codewords@),
                XFieldElement::views(challenges.weights@),
                omicron@,
                padded_height,
            ),
            quotients::divides(
                quotients::matrix(r@),
                transition_value_rows(
                    self,
                    *fri_domain,
                    quotients::matrix(transposed_codewords@),
                    XFieldElement::views(challenges.weights@),
                    padded_height,
                ),
                quotients::subgroup_zerofiers(fri_domain.spec_values(), padded_height as u32),
                quotients::terminal_zerofiers(fri_domain.spec_values(), omicron@),
            ),
    {
        let ghost values = transition_value_rows(
            self,
            *fri_domain,
            quotients::matrix(transposed_codewords@),
            XFieldElement::views(challenges.weights@),
            padded_height,
        );
        let zerofier_inverse = quotients::transition_zerofier_inverse(
            fri_domain,
            padded_height,
            &omicron,
        );
        let ghost factors = XFieldElement::views(zerofier_inverse@);
        assert(zerofier_inverse@.len() == factors.len() == values.len());
        // the relation between the FRI domain and the omicron domain
        let unit_distance: usize = fri_domain.length / padded_height;
        let bit_mask: usize = fri_domain.length - 1;
        let evaluate = |i: usize| -> (r: Vec<XFieldElement>)
            requires
                i < transposed_codewords@.len(),
            ensures
                r@.len() == self.transition_count(),
                XFieldElement::views(r@) == self.transition_values(
                    quotients::matrix(transposed_codewords@)[i as int],
                    quotients::matrix(transposed_codewords@)[quotients::successor(
                        *fri_domain,
                        padded_height,
                        i as int,
                    )],
                    XFieldElement::views(challenges.weights@),
                ),
            {
                let next_row_index: usize = (i + unit_distance) & bit_mask;
                proof {
                    quotients::lemma_masked((i + unit_distance) as usize, bit_mask);
                    let rows = quotients::matrix(transposed_codewords@);
                    assert(rows[i as int].len() == transposed_codewords@[i as int]@.len());
                    assert(next_row_index == quotients::successor(
                        *fri_domain,
                        padded_height,
                        i as int,
                    ));
                }
                self.evaluate_transition_constraints(
                    &transposed_codewords[i],
                    &transposed_codewords[next_row_index],
                    challenges,
                )
            };
        let r = quotients::divide(
            &zerofier_inverse,
            evaluate,
            Ghost(self.transition_count()),
            Ghost(values),
        );
        proof {
            quotients::lemma_divides(
                self.transition_count(),
                values,
                factors,
                quotients::subgroup_zerofiers(fri_domain.spec_values(), padded_height as u32),
                quotients::terminal_zerofiers(fri_domain.spec_values(), omicron@),
            );
            assert(quotients::matrix(r@).len() == r@.len());
            assert forall|i: int| 0 <= i < r@.len() implies (#[trigger] r@[i])@.len()
                == fri_domain.length by {
                assert(quotients::matrix(r@)[i] == XFieldElement::views(r@[i]@));
                assert(quotients::matrix(r@)[i].len() == values.len());
                assert(XFieldElement::views(r@[i]@).len() == r@[i]@.len());
            }
            assert forall|i: int, j: int|
                0 <= i < r@.len() && 0 <= j < fri_domain.length implies Xf::mul(
                    (#[trigger] r@[i]@[j])@,
                    Xf::sub(
                        Xf::pow(fri_domain.spec_value(j), padded_height as u32 as nat),
                        Xf::one(),
                    ),
                ) == Xf::mul(
                    self.transition_values(
                        XFieldElement::views(transposed_codewords@[j]@),
                        XFieldElement::views(
                            transposed_codewords@[((j + fri_domain.length as int
                                / padded_height as int) as usize & (fri_domain.length
                                - 1) as usize) as int]@,
                        ),
                        XFieldElement::views(challenges.weights@),
                    )[i],
                    Xf::sub(fri_domain.spec_value(j), Xf::inv(omicron@)),
                ) by {
                quotients::lemma_masked(
                    (j + fri_domain.length as int / padded_height as int) as usize,
                    bit_mask,
                );
                assert(quotients::matrix(r@)[i][j] == r@[i]@[j]@);
                assert(quotients::matrix(transposed_codewords@)[j] == XFieldElement::views(
                    transposed_codewords@[j]@,
                ));
            }
        }
        r
    }

    /// The terminal quotients: one codeword for each terminal constraint.
    fn terminal_quotients(
        &self,
        fri_domain: &FriDomain,
        transposed_codewords: &[Vec<XFieldElement>],
        challenges: &AllChallenges,
        omicron: XFieldElement,
    ) -> (r: Vec<Vec<XFieldElement>>)
        requires
            terminal_quotients_exist(
                self,
                *fri_domain,
                quotients::matrix(transposed_codewords@),
                XFieldElement::views(challenges.weights@),
                omicron@,
            ),
        ensures
            r@.len() == self.terminal_count(),
            forall|i: int| 0 <= i < r@.len() ==> (#[trigger] r@[i])@.len() == fri_domain.length,
            forall|i: int, j: int|
                0 <= i < r@.len() && 0 <= j < fri_domain.length ==> Xf::mul(
                    (#[trigger] r@[i]@[j])@,
                    Xf::sub(fri_domain.spec_value(j), Xf::inv(omicron@)),
                ) == self.terminal_values(
                    XFieldElement::views(transposed_codewords@[j]@),
                    XFieldElement::views(challenges.weights@),
                )[i],
            quotients::matrix(r@) == spec_terminal_quotients(
                self,
                *fri_domain,
                quotients::matrix(transposed_codewords@),
                XFieldElement::views(challenges.weights@),
                omicron@,
            ),
            quotients::divides_cleanly(
                quotients::matrix(r@),
                terminal_value_rows(
                    self,
                    quotients::matrix(transposed_codewords@),
                    XFieldElement::views(challenges.weights@),
                ),
                quotients::terminal_zerofiers(fri_domain.spec_values(), omicron@),
            ),
    {
        let ghost values = terminal_value_rows(
            self,
            quotients::matrix(transposed_codewords@),
            XFieldElement::views(challenges.weights@),
        );
        let zerofier_inverse = quotients::terminal_zerofier_inverse(fri_domain, &omicron);
        let ghost factors = XFieldElement::views(zerofier_inverse@);
        assert(zerofier_inverse@.len() == factors.len() == values.len());
        let evaluate = |i: usize| -> (r: Vec<XFieldElement>)
            requires
                i < transposed_codewords@.len(),
            ensures
                r@.len() == self.terminal_count(),
                XFieldElement::views(r@) == self.terminal_values(
                    quotients::matrix(transposed_codewords@)[i as int],
                    XFieldElement::views(challenges.weights@),
                ),
            {
                assert(quotients::matrix(transposed_codewords@)[i as int].len()
                    == transposed_codewords@[i as int]@.len());
                self.evaluate_terminal_constraints(&transposed_codewords[i], challenges)
            };
        let r = quotients::divide(
            &zerofier_inverse,
            evaluate,
            Ghost(self.terminal_count()),
            Ghost(values),
        );
        proof {
            quotients::lemma_divides_cleanly(
                self.terminal_count(),
                values,
                factors,
                quotients::terminal_zerofiers(fri_domain.spec_values(), omicron@),
            );
            assert(quotients::matrix(r@).len() == r@.len());
            assert forall|i: int| 0 <= i < r@.len() implies (#[trigger] r@[i])@.len()
                == fri_domain.length by {
                assert(quotients::matrix(r@)[i] == XFieldElement::views(r@[i]@));
                assert(quotients::matrix(r@)[i].len() == values.len());
                assert(XFieldElement::views(r@[i]@).len() == r@[i]@.len());
            }
            assert forall|i: int, j: int|
                0 <= i < r@.len() && 0 <= j < fri_domain.length implies Xf::mul(
                    (#[trigger] r@[i]@[j])@,
                    Xf::sub(fri_domain.spec_value(j), Xf::inv(omicron@)),
                ) == self.terminal_values(
                    XFieldElement::views(transposed_codewords@[j]@),
                    XFieldElement::views(challenges.weights@),
                )[i] by {
                assert(quotients::matrix(r@)[i][j] == r@[i]@[j]@);
                assert(quotients::matrix(transposed_codewords@)[j] == XFieldElement::views(
                    transposed_codewords@[j]@,
                ));
            }
        }
        r
    }

    /// All quotients: initial, consistency, transition and terminal quotients, in this order.
    fn all_quotients(
        &self,
        fri_domain: &FriDomain,
        transposed_codewords: Vec<Vec<XFieldElement>>,
        challenges: &AllChallenges,
        omicron: XFieldElement,
        padded_height: usize,
    ) -> (r: Vec<Vec<XFieldElement>>)
        requires
            all_quotients_exist(
                self,
                *fri_domain,
                quotients::matrix(transposed_codewords@),
                XFieldElement::views(challenges.weights@),
                omicron@,
                padded_height,
            ),
        ensures
            r@.len() == self.initial_count() + self.consistency_count() + self.transition_count()
                + self.terminal_count(),
            forall|i: int| 0 <= i < r@.len() ==> (#[trigger] r@[i])@.len() == fri_domain.length,
            forall|i: int, j: int|
                0 <= i < r@.len() && 0 <= j < fri_domain.length ==> {
                    let a = self.initial_count() as int;
                    let b = a + self.consistency_count();
                    let c = b + self.transition_count();
                    let quotient = (#[trigger] r@[i]@[j])@;
                    let x = fri_domain.spec_value(j);
                    let row = XFieldElement::views(transposed_codewords@[j]@);
                    let next_row = XFieldElement::views(
                        transposed_codewords@[((j + fri_domain.length as int
                            / padded_height as int) as usize & (fri_domain.length
                            - 1) as usize) as int]@,
                    );
                    let weights = XFieldElement::views(challenges.weights@);
                    let all_rows = Xf::sub(Xf::pow(x, padded_height as u32 as nat), Xf::one());
                    let last_row = Xf::sub(x, Xf::inv(omicron@));
                    &&& i < a ==> Xf::mul(quotient, Xf::sub(x, Xf::one()))
                        == self.initial_values(row, weights)[i]
                    &&& a <= i < b ==> Xf::mul(quotient, all_rows) == self.consistency_values(
                        row,
                        weights,
                    )[i - a]
                    &&& b <= i < c ==> Xf::mul(quotient, all_rows) == Xf::mul(
                        self.transition_values(row, next_row, weights)[i - b],
                        last_row,
                    )
                    &&& c <= i ==> Xf::mul(quotient, last_row) == self.terminal_values(
                        row,
                        weights,
                    )[i - c]
                },
            quotients::matrix(r@) == spec_all_quotients(
                self,
                *fri_domain,
                quotients::matrix(transposed_codewords@),
                XFieldElement::views(challenges.weights@),
                omicron@,
                padded_height,
            ),
            all_divide(
                self,
                *fri_domain,
                quotients::matrix(transposed_codewords@),
                XFieldElement::views(challenges.weights@),
                omicron@,
                padded_height,
            ),
    {
        let initial = self.initial_quotients(fri_domain, &transposed_codewords, challenges);
        let consistency = self.consistency_quotients(
            fri_domain,
            &transposed_codewords,
            challenges,
            padded_height,
        );
        let transition = self.transition_quotients(
            fri_domain,
            &transposed_codewords,
            challenges,
            omicron,
            padded_height,
        );
        let terminal = self.terminal_quotients(
            fri_domain,
            &transposed_codewords,
            challenges,
            omicron,
        );
        let ghost parts = (initial@, consistency@, transition@, terminal@);
        let r = quotients::join(initial, consistency, transition, terminal);
        proof {
            let a = self.initial_count() as int;
            let b = a + self.consistency_count();
            let c = b + self.transition_count();
            assert forall|i: int| 0 <= i < r@.len() implies (#[trigger] r@[i]) == (if i < a {
                parts.0[i]
            } else if i < b {
                parts.1[i - a]
            } else if i < c {
                parts.2[i - b]
            } else {
                parts.3[i - c]
            }) by {}
        }
        r
    }

    /// Checks that no quotient's interpolant over the domain has the largest possible degree, which
    /// would indicate that the quotient is most probably the result of unclean division. The error
    /// is a message about the first quotient with such an interpolant.
    fn debug_fri_domain_bound_check(
        &self,
        fri_domain: &FriDomain,
        quotient_codewords: &[Vec<XFieldElement>],
        quotient_type: &str,
    ) -> (r: Result<(), String>)
        requires
            quotient_codewords@.len() > 0 ==> fri_domain.is_coset() && fri_domain.length
                <= isize::MAX,
            forall|i: int|
                0 <= i < quotient_codewords@.len() ==> (#[trigger] quotient_codewords@[i])@.len()
                    == fri_domain.length,
        ensures
            quotients::is_degree_check_outcome(
                r,
                quotients::interpolant_degrees(
                    *fri_domain,
                    quotients::matrix(quotient_codewords@),
                ),
                quotient_type@,
                self.table().name@,
                fri_domain.length,
            ),
            quotients::are_interpolated(*fri_domain, quotients::matrix(quotient_codewords@)),
            r is Ok <==> forall|i: int|
                0 <= i < quotient_codewords@.len() ==> Univariate::degree(
                    fri_domain.interpolant(
                        XFieldElement::views((#[trigger] quotient_codewords@[i])@),
                    ),
                ) < fri_domain.length - 1,
            r matches Err(message) ==> exists|i: int|
                {
                    let degree = Univariate::degree(
                        fri_domain.interpolant(
                            XFieldElement::views((#[trigger] quotient_codewords@[i])@),
                        ),
                    );
                    &&& 0 <= i < quotient_codewords@.len()
                    &&& degree >= fri_domain.length - 1
                    &&& forall|j: int|
                        0 <= j < i ==> Univariate::degree(
                            fri_domain.interpolant(
                                XFieldElement::views((#[trigger] quotient_codewords@[j])@),
                            ),
                        ) < fri_domain.length - 1
                    &&& message@ == "Degree of "@ + quotient_type@ + " quotient index "@
                        + decimal::digits(i as nat) + " (total "@ + decimal::digits(
                        quotient_codewords@.len(),
                    ) + " quotients) in "@ + self.table().name@
                        + " must not be maximal. Got degree "@ + decimal::signed_digits(degree)
                        + ", and FRI domain length was "@ + decimal::digits(
                        fri_domain.length as nat,
                    ) + "."@
                },
    {
        let degrees = quotients::interpolate_degrees(fri_domain, quotient_codewords);
        proof {
            let codewords = quotients::matrix(quotient_codewords@);
            let models = quotients::interpolant_degrees(*fri_domain, codewords);
            assert forall|i: int| 0 <= i < quotient_codewords@.len() implies (
            #[trigger] degrees@[i]) as int == Univariate::degree(
                fri_domain.interpolant(XFieldElement::views(quotient_codewords@[i]@)),
            ) by {
                assert(codewords[i] == XFieldElement::views(quotient_codewords@[i]@));
                assert(degrees@.map_values(|d: isize| d as int)[i] == models[i]);
            }
            assert forall|i: int| 0 <= i < quotient_codewords@.len() implies Univariate::degree(
                fri_domain.interpolant(
                    XFieldElement::views((#[trigger] quotient_codewords@[i])@),
                ),
            ) == degrees@[i] as int by {
                assert(degrees@[i] as int == degrees@[i]);
            }
        }
        quotients::check_interpolant_degrees(
            &degrees,
            quotient_type,
            self.name().as_str(),
            fri_domain.length,
        )
    }

    /// The degree bounds of the initial quotients: those that are set, or else those that the
    /// constraints give.
    fn get_initial_quotient_degree_bounds(
        &self,
        padded_height: usize,
        num_trace_randomizers: usize,
    ) -> (r: Vec<Degree>)
        requires
            initial_bounds_exist(self, padded_height, num_trace_randomizers),
        ensures
            r@ == spec_initial_bounds(self, padded_height, num_trace_randomizers),
            self.table().initial_quotient_degree_bounds matches Some(bounds) ==> r@ == bounds@,
            self.table().initial_quotient_degree_bounds is None ==> {
                let constraints = self.initial_constraints_for(self.placeholder_weights());
                &&& r@.len() == constraints.len()
                &&& forall|i: int|
                    0 <= i < r@.len() ==> (#[trigger] r@[i]) as int == constraints[i].degree_bound(
                        Seq::new(
                            self.table().full_width as nat,
                            |k: int|
                                (padded_height + num_trace_randomizers - 1) as Degree,
                        ),
                    ) - 1
            },
    {
        if let Some(bounds) = &self.inherited_table().initial_quotient_degree_bounds {
            let r = bounds.clone();
            assert(r@ =~= bounds@);
            r
        } else {
            let interpolant_degree = interpolant_degree(padded_height, num_trace_randomizers);
            let zerofier_degree: Degree = 1;
            let constraints = self.dynamic_initial_constraints(&self.placeholder_challenges());
            proof {
                degree_bounds::lemma_bounds_written_out(
                    self.initial_constraints_for(self.placeholder_weights()),
                    self.table().full_width as nat,
                    interpolant_degree,
                    zerofier_degree as int,
                );
                assert(degree_bounds::uniform(self.table().full_width as nat, interpolant_degree as int)
                    =~= Seq::new(
                    self.table().full_width as nat,
                    |k: int| (padded_height + num_trace_randomizers - 1) as Degree,
                ));
                degree_bounds::lemma_bounds_of_same(
                    MPolynomial::views(constraints@),
                    self.initial_constraints_for(self.placeholder_weights()),
                    degree_bounds::uniform(
                        self.table().full_width as nat,
                        interpolant_degree as int,
                    ),
                    zerofier_degree as int,
                );
            }
            degree_bounds::compute_bounds(
                &constraints,
                self.full_width(),
                interpolant_degree,
                zerofier_degree,
            )
        }
    }

    /// The degree bounds of the consistency quotients: those that are set, or else those that the
    /// constraints give.
    fn get_consistency_quotient_degree_bounds(
        &self,
        padded_height: usize,
        num_trace_randomizers: usize,
    ) -> (r: Vec<Degree>)
        requires
            consistency_bounds_exist(self, padded_height, num_trace_randomizers),
        ensures
            r@ == spec_consistency_bounds(self, padded_height, num_trace_randomizers),
            self.table().consistency_quotient_degree_bounds matches Some(bounds) ==> r@ == bounds@,
            self.table().consistency_quotient_degree_bounds is None ==> {
                let constraints = self.consistency_constraints_for(self.placeholder_weights());
                &&& r@.len() == constraints.len()
                &&& forall|i: int|
                    0 <= i < r@.len() ==> (#[trigger] r@[i]) as int == constraints[i].degree_bound(
                        Seq::new(
                            self.table().full_width as nat,
                            |k: int|
                                (padded_height + num_trace_randomizers - 1) as Degree,
                        ),
                    ) - (padded_height as Degree)
            },
    {
        if let Some(bounds) = &self.inherited_table().consistency_quotient_degree_bounds {
            let r = bounds.clone();
            assert(r@ =~= bounds@);
            r
        } else {
            let interpolant_degree = interpolant_degree(padded_height, num_trace_randomizers);
            let zerofier_degree: Degree = padded_height as Degree;
            let constraints = self.dynamic_consistency_constraints(&self.placeholder_challenges());
            proof {
                degree_bounds::lemma_bounds_written_out(
                    self.consistency_constraints_for(self.placeholder_weights()),
                    self.table().full_width as nat,
                    interpolant_degree,
                    zerofier_degree as int,
                );
                assert(degree_bounds::uniform(self.table().full_width as nat, interpolant_degree as int)
                    =~= Seq::new(
                    self.table().full_width as nat,
                    |k: int| (padded_height + num_trace_randomizers - 1) as Degree,
                ));
                degree_bounds::lemma_bounds_of_same(
                    MPolynomial::views(constraints@),
                    self.consistency_constraints_for(self.placeholder_weights()),
                    degree_bounds::uniform(
                        self.table().full_width as nat,
                        interpolant_degree as int,
                    ),
                    zerofier_degree as int,
                );
            }
            degree_bounds::compute_bounds(
                &constraints,
                self.full_width(),
                interpolant_degree,
                zerofier_degree,
            )
        }
    }

    /// The degree bounds of the transition quotients: those that are set, or else those that the
    /// constraints give.
    fn get_transition_quotient_degree_bounds(
        &self,
        padded_height: usize,
        num_trace_randomizers: usize,
    ) -> (r: Vec<Degree>)
        requires
            transition_bounds_exist(self, padded_height, num_trace_randomizers),
        ensures
            r@ == spec_transition_bounds(self, padded_height, num_trace_randomizers),
            self.table().transition_quotient_degree_bounds matches Some(bounds) ==> r@ == bounds@,
            self.table().transition_quotient_degree_bounds is None ==> {
                let constraints = self.transition_constraints_for(self.placeholder_weights());
                &&& r@.len() == constraints.len()
                &&& forall|i: int|
                    0 <= i < r@.len() ==> (#[trigger] r@[i]) as int == constraints[i].degree_bound(
                        Seq::new(
                            (2 * self.table().full_width) as nat,
                            |k: int|
                                (padded_height + num_trace_randomizers - 1) as Degree,
                        ),
                    ) - (padded_height as Degree - 1)
            },
    {
        if let Some(bounds) = &self.inherited_table().transition_quotient_degree_bounds {
            let r = bounds.clone();
            assert(r@ =~= bounds@);
            r
        } else {
            let interpolant_degree = interpolant_degree(padded_height, num_trace_randomizers);
            let zerofier_degree: Degree = padded_height as Degree - 1;
            let constraints = self.dynamic_transition_constraints(&self.placeholder_challenges());
            proof {
                degree_bounds::lemma_bounds_written_out(
                    self.transition_constraints_for(self.placeholder_weights()),
                    (2 * self.table().full_width) as nat,
                    interpolant_degree,
                    zerofier_degree as int,
                );
                assert(degree_bounds::uniform((2 * self.table().full_width) as nat, interpolant_degree as int)
                    =~= Seq::new(
                    (2 * self.table().full_width) as nat,
                    |k: int| (padded_height + num_trace_randomizers - 1) as Degree,
                ));
                degree_bounds::lemma_bounds_of_same(
                    MPolynomial::views(constraints@),
                    self.transition_constraints_for(self.placeholder_weights()),
                    degree_bounds::uniform(
                        (2 * self.table().full_width) as nat,
                        interpolant_degree as int,
                    ),
                    zerofier_degree as int,
                );
            }
            degree_bounds::compute_bounds(
                &constraints,
                2 * self.full_width(),
                interpolant_degree,
                zerofier_degree,
            )
        }
    }

    /// The degree bounds of the terminal quotients: those that are set, or else those that the
    /// constraints give.
    fn get_terminal_quotient_degree_bounds(
        &self,
        padded_height: usize,
        num_trace_randomizers: usize,
    ) -> (r: Vec<Degree>)
        requires
            terminal_bounds_exist(self, padded_height, num_trace_randomizers),
        ensures
            r@ == spec_terminal_bounds(self, padded_height, num_trace_randomizers),
            self.table().terminal_quotient_degree_bounds matches Some(bounds) ==> r@ == bounds@,
            self.table().terminal_quotient_degree_bounds is None ==> {
                let constraints = self.terminal_constraints_for(self.placeholder_weights());
                &&& r@.len() == constraints.len()
                &&& forall|i: int|
                    0 <= i < r@.len() ==> (#[trigger] r@[i]) as int == constraints[i].degree_bound(
                        Seq::new(
                            self.table().full_width as nat,
                            |k: int|
                                (padded_height + num_trace_randomizers - 1) as Degree,
                        ),
                    ) - 1
            },
    {
        if let Some(bounds) = &self.inherited_table().terminal_quotient_degree_bounds {
            let r = bounds.clone();
            assert(r@ =~= bounds@);
            r
        } else {
            let interpolant_degree = interpolant_degree(padded_height, num_trace_randomizers);
            let zerofier_degree: Degree = 1;
            let constraints = self.dynamic_terminal_constraints(&self.placeholder_challenges());
            proof {
                degree_bounds::lemma_bounds_written_out(
                    self.terminal_constraints_for(self.placeholder_weights()),
                    self.table().full_width as nat,
                    interpolant_degree,
                    zerofier_degree as int,
                );
                assert(degree_bounds::uniform(self.table().full_width as nat, interpolant_degree as int)
                    =~= Seq::new(
                    self.table().full_width as nat,
                    |k: int| (padded_height + num_trace_randomizers - 1) as Degree,
                ));
                degree_bounds::lemma_bounds_of_same(
                    MPolynomial::views(constraints@),
                    self.terminal_constraints_for(self.placeholder_weights()),
                    degree_bounds::uniform(
                        self.table().full_width as nat,
                        interpolant_degree as int,
                    ),
                    zerofier_degree as int,
                );
            }
            degree_bounds::compute_bounds(
                &constraints,
                self.full_width(),
                interpolant_degree,
                zerofier_degree,
            )
        }
    }

    /// The degree bounds of all quotients: initial, consistency, transition and terminal quotients,
    /// in this order.
    fn get_all_quotient_degree_bounds(
        &self,
        padded_height: usize,
        num_trace_randomizers: usize,
    ) -> (r: Vec<Degree>)
        requires
            all_bounds_exist(self, padded_height, num_trace_randomizers),
        ensures
            r@ == spec_all_bounds(self, padded_height, num_trace_randomizers),
            r@ == spec_initial_bounds(self, padded_height, num_trace_randomizers)
                + spec_consistency_bounds(self, padded_height, num_trace_randomizers)
                + spec_transition_bounds(self, padded_height, num_trace_randomizers)
                + spec_terminal_bounds(self, padded_height, num_trace_randomizers),
    {
        let mut r = self.get_initial_quotient_degree_bounds(
            padded_height,
            num_trace_randomizers,
        );
        let mut consistency = self.get_consistency_quotient_degree_bounds(
            padded_height,
            num_trace_randomizers,
        );
        let mut transition = self.get_transition_quotient_degree_bounds(
            padded_height,
            num_trace_randomizers,
        );
        let mut terminal = self.get_terminal_quotient_degree_bounds(
            padded_height,
            num_trace_randomizers,
        );
        r.append(&mut consistency);
        r.append(&mut transition);
        r.append(&mut terminal);
        r
    }

    /// The degrees of the quotients of all constraints, with their origin.
    fn all_degrees_with_origin(
        &self,
        padded_height: usize,
        num_trace_randomizers: usize,
    ) -> (r: Vec<DegreeWithOrigin>)
        requires
            padded_height as Degree > i64::MIN,
            all_bounds_exist(self, padded_height, num_trace_randomizers),
        ensures
            ({
                let initial = spec_initial_bounds(self, padded_height, num_trace_randomizers);
                let consistency = spec_consistency_bounds(
                    self,
                    padded_height,
                    num_trace_randomizers,
                );
                let transition = spec_transition_bounds(
                    self,
                    padded_height,
                    num_trace_randomizers,
                );
                let terminal = spec_terminal_bounds(self, padded_height, num_trace_randomizers);
                let a = initial.len() as int;
                let b = a + consistency.len();
                let c = b + transition.len();
                &&& r@.len() == c + terminal.len()
                &&& forall|i: int|
                    0 <= i < r@.len() ==> {
                        &&& (#[trigger] r@[i]).origin_table_name@ == self.table().name@
                        &&& r@[i].origin_table_height == padded_height
                        &&& r@[i].origin_num_trace_randomizers == num_trace_randomizers
                        &&& i < a ==> {
                            &&& r@[i].degree == initial[i]
                            &&& r@[i].zerofier_degree == 1
                            &&& r@[i].origin_index == i
                            &&& r@[i].origin_constraint_type@ == "initial constraint"@
                        }
                        &&& a <= i < b ==> {
                            &&& r@[i].degree == consistency[i - a]
                            &&& r@[i].zerofier_degree == padded_height as Degree
                            &&& r@[i].origin_index == i - a
                            &&& r@[i].origin_constraint_type@ == "consistency constraint"@
                        }
                        &&& b <= i < c ==> {
                            &&& r@[i].degree == transition[i - b]
                            &&& r@[i].zerofier_degree == padded_height as Degree - 1
                            &&& r@[i].origin_index == i - b
                            &&& r@[i].origin_constraint_type@ == "transition constraint"@
                        }
                        &&& c <= i ==> {
                            &&& r@[i].degree == terminal[i - c]
                            &&& r@[i].zerofier_degree == 1
                            &&& r@[i].origin_index == i - c
                            &&& r@[i].origin_constraint_type@ == "terminal constraint"@
                        }
                    }
            }),
            DegreeWithOrigin::views(r@) == spec_all_degrees_with_origin(
                self,
                padded_height,
                num_trace_randomizers,
            ),
    {
        let name = self.name();
        let initial_bounds = self.get_initial_quotient_degree_bounds(
            padded_height,
            num_trace_randomizers,
        );
        let initial = attach_origin(
            &initial_bounds,
            1,
            name.as_str(),
            padded_height,
            num_trace_randomizers,
            "initial constraint",
        );
        let consistency_bounds = self.get_consistency_quotient_degree_bounds(
            padded_height,
            num_trace_randomizers,
        );
        let mut consistency = attach_origin(
            &consistency_bounds,
            padded_height as Degree,
            name.as_str(),
            padded_height,
            num_trace_randomizers,
            "consistency constraint",
        );
        let transition_bounds = self.get_transition_quotient_degree_bounds(
            padded_height,
            num_trace_randomizers,
        );
        let mut transition = attach_origin(
            &transition_bounds,
            padded_height as Degree - 1,
            name.as_str(),
            padded_height,
            num_trace_randomizers,
            "transition constraint",
        );
        let terminal_bounds = self.get_terminal_quotient_degree_bounds(
            padded_height,
            num_trace_randomizers,
        );
        let mut terminal = attach_origin(
            &terminal_bounds,
            1,
            name.as_str(),
            padded_height,
            num_trace_randomizers,
            "terminal constraint",
        );
        let ghost parts = (initial@, consistency@, transition@, terminal@);
        let mut r = initial;
        r.append(&mut consistency);
        r.append(&mut transition);
        r.append(&mut terminal);
        proof {
            let a = parts.0.len() as int;
            let b = a + parts.1.len();
            let c = b + parts.2.len();
            assert forall|i: int| 0 <= i < r@.len() implies (#[trigger] r@[i]) == (if i < a {
                parts.0[i]
            } else if i < b {
                parts.1[i - a]
            } else if i < c {
                parts.2[i - b]
            } else {
                parts.3[i - c]
            }) by {}
        }
        assert(DegreeWithOrigin::views(r@) =~= DegreeWithOrigin::views(parts.0)
            + DegreeWithOrigin::views(parts.1) + DegreeWithOrigin::views(parts.2)
            + DegreeWithOrigin::views(parts.3));
        r
    }
}

/// A table with all of this.
pub trait QuotientableExtensionTable: ExtensionTable + Quotientable {

}

} // verus!
