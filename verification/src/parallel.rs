//! Work that is handed out to threads item by item.
use rayon::iter::IntoParallelIterator;
use rayon::iter::ParallelIterator;
use vstd::prelude::*;

verus! {

/// Calls `rayon`'s `into_par_iter`, `map` and `collect` on the range `0..n`: the results of `f`
/// on each index, in the order of the indices, whichever thread computes them.
#[verifier::external_body]
pub(crate) fn par_map<T, F>(n: usize, f: F) -> (r: Vec<T>) where
    T: Send,
    F: Fn(usize) -> T + Send + Sync,

    requires
        forall|i: usize| i < n ==> #[trigger] f.requires((i,)),
    ensures
        r@.len() == n,
        forall|i: int| 0 <= i < n ==> f.ensures((i as usize,), #[trigger] r@[i]),
{
    (0..n).into_par_iter().map(f).collect()
}

} // verus!
