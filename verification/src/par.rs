//! The parallel primitives the library takes from rayon.

use rayon::iter::{IntoParallelIterator, ParallelIterator};
use rayon::slice::ParallelSliceMut;
use vstd::prelude::*;

verus! {

/// Applies `f` to `0`, `1`, ..., `n - 1` with rayon: `into_par_iter` of the range, `map` and
/// `collect`. What `f` gives for `i` stands at place `i` of the result; the calls may run at the same
/// time and in any order.
#[verifier::external_body]
pub(crate) fn map_index<T: Send, F: Fn(usize) -> T + Send + Sync>(n: usize, f: F) -> (r: Vec<T>)
    requires
        forall|i: usize| i < n ==> #[trigger] call_requires(f, (i,)),
    ensures
        r@.len() == n,
        forall|i: usize| i < n ==> call_ensures(f, (i,), #[trigger] r@[i as int]),
{
    (0..n).into_par_iter().map(f).collect()
}

/// The keys of `s` do not decrease.
pub open spec fn sorted_by_key<V>(s: Seq<(usize, V)>) -> bool {
    forall|i: int, j: int| 0 <= i <= j < s.len() ==> (#[trigger] s[i]).0 <= (#[trigger] s[j]).0
}

/// Sorts by key with rayon's `par_sort_unstable_by_key`: the result is a permutation of what was
/// there, with keys that do not decrease. In which order pairs of equal keys come out is open.
#[verifier::external_body]
pub(crate) fn sort_pairs<V: Copy + Send + Sync>(v: &mut Vec<(usize, V)>)
    ensures
        final(v)@.to_multiset() == old(v)@.to_multiset(),
        sorted_by_key(final(v)@),
{
    v.par_sort_unstable_by_key(|&(k, _)| k);
}

} // verus!
