use rayon::iter::IntoParallelIterator;
use rayon::iter::ParallelIterator;
use vstd::prelude::*;

verus! {

/// Applies `f` to every index below `n` on rayon's thread pool and gathers the
/// results in index order.
///
/// Wraps `(0..n).into_par_iter().map(f).collect()`. Not proved here: that
/// rayon calls `f` once for each index of the range and that collecting an
/// indexed parallel iterator into a `Vec` keeps the order of the range, so
/// that the item at position `i` is a result of `f(i)`.
#[verifier::external_body]
pub(crate) fn par_map_indices<T: Send, F: Fn(usize) -> T + Sync + Send>(n: usize, f: F) -> (out:
    Vec<T>)
    requires
        forall|i: usize| i < n ==> call_requires(f, (i,)),
    ensures
        out@.len() == n,
        forall|i: int| 0 <= i < n ==> call_ensures(f, (i as usize,), #[trigger] out@[i]),
{
    (0..n).into_par_iter().map(f).collect()
}

} // verus!
