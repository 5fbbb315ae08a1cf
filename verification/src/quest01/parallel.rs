//! Work on the items of a list, handed out to a pool of threads.

use vstd::prelude::*;
use rayon::iter::{IntoParallelRefIterator, ParallelIterator};

verus! {

/// Applies `f` to every item of `items` on rayon's pool of threads, through
/// `par_iter`, `map` and `collect`, and returns the results in the order of
/// the items. Taken on trust from rayon: that `f` is applied to each item and
/// to nothing else, and that `collect` keeps the order of the items.
#[verifier::external_body]
pub(crate) fn par_map<T: Sync, R: Send, F: Fn(&T) -> R + Sync + Send>(items: &Vec<T>, f: F) -> (out:
    Vec<R>)
    requires
        forall|i: int| 0 <= i < items@.len() ==> call_requires(f, (&#[trigger] items@[i],)),
    ensures
        out@.len() == items@.len(),
        forall|i: int| 0 <= i < items@.len() ==> call_ensures(f, (&items@[i],), #[trigger] out@[i]),
{
    items.par_iter().map(f).collect()
}

} // verus!
