//! What all tables have in common.
use crate::mpolynomial::Degree;
use crate::mpolynomial::MPolynomial;
use vstd::prelude::*;

verus! {

/// The data that every table carries.
#[derive(Debug)]
pub struct Table {
    /// The table's name, for diagnostics.
    pub name: String,
    /// The number of columns of the extended table.
    pub full_width: usize,
    /// The constraints of each kind, once they are known.
    pub initial_constraints: Option<Vec<MPolynomial>>,
    pub consistency_constraints: Option<Vec<MPolynomial>>,
    pub transition_constraints: Option<Vec<MPolynomial>>,
    pub terminal_constraints: Option<Vec<MPolynomial>>,
    /// The degree bounds of the quotients of each kind, once they are known.
    pub initial_quotient_degree_bounds: Option<Vec<Degree>>,
    pub consistency_quotient_degree_bounds: Option<Vec<Degree>>,
    pub transition_quotient_degree_bounds: Option<Vec<Degree>>,
    pub terminal_quotient_degree_bounds: Option<Vec<Degree>>,
}

/// A table of any kind.
pub trait TableLike {
    /// The data that [`TableLike::inherited_table`] hands out.
    open spec fn table(&self) -> Table {
        arbitrary()
    }

    /// The data that this table shares with all others.
    fn inherited_table(&self) -> (t: &Table)
        ensures
            *t == self.table(),
    ;

    /// The table's name.
    fn name(&self) -> (s: String)
        ensures
            s@ == self.table().name@,
    {
        self.inherited_table().name.clone()
    }

    /// The number of columns of the extended table.
    fn full_width(&self) -> (w: usize)
        ensures
            w == self.table().full_width,
    {
        self.inherited_table().full_width
    }
}

} // verus!
