//! Work that is spread over threads.
use rayon::iter::IntoParallelIterator;
use rayon::iter::ParallelIterator;
use vstd::prelude::*;

verus! {

/// rayon's parallel iteration over `0..n`, mapped by `f` and collected: the
/// results stand in the order of the indices, and each is a result of `f` for
/// its index.
#[verifier::external_body]
pub(crate) fn par_map<R: Send, F: Fn(usize) -> R + Sync + Send>(n: usize, f: F) -> (v: Vec<R>)
    requires
        forall|i: usize| i < n ==> call_requires(f, (i,)),
    ensures
        v@.len() == n,
        forall|i: int| 0 <= i < n ==> call_ensures(f, (i as usize,), #[trigger] v@[i]),
{
    (0..n).into_par_iter().map(f).collect()
}

} // verus!
