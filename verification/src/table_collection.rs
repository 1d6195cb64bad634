//! What holds of all tables of one execution together.
use crate::mpolynomial::Degree;
use vstd::prelude::*;

verus! {

/// The degree of a polynomial through `padded_height` rows and `num_trace_randomizers` more points.
pub open spec fn spec_interpolant_degree(padded_height: usize, num_trace_randomizers: usize) -> int {
    padded_height + num_trace_randomizers - 1
}

/// Whether there is a point to interpolate through, and the degree fits a [`Degree`].
pub open spec fn interpolant_degree_fits(
    padded_height: usize,
    num_trace_randomizers: usize,
) -> bool {
    &&& 1 <= padded_height + num_trace_randomizers <= usize::MAX
    &&& spec_interpolant_degree(padded_height, num_trace_randomizers) <= i64::MAX
}

/// The degree of the polynomial that interpolates one column of a table: one less than the number
/// of points, which are the table's rows and the trace randomizers.
pub fn interpolant_degree(padded_height: usize, num_trace_randomizers: usize) -> (r: Degree)
    requires
        interpolant_degree_fits(padded_height, num_trace_randomizers),
    ensures
        r == padded_height + num_trace_randomizers - 1,
        r == spec_interpolant_degree(padded_height, num_trace_randomizers),
        r >= 0,
{
    (padded_height + num_trace_randomizers - 1) as Degree
}

} // verus!
