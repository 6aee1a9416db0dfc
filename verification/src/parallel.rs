//! Work on many items at once.
use orx_parallel::{IterIntoParIter, ParIter};
use vstd::prelude::*;

verus! {

/// Applies `f` to every item, on several threads.
///
/// Calls orx-parallel: `iter_into_par` on the items, then `map` and `collect`. What is claimed of it
/// is that `f` is called on each item, and that the results stand in the order of the items.
#[verifier::external_body]
pub(crate) fn par_map<T: Send + Sync, U: Send + Sync, F: Fn(T) -> U + Sync>(
    items: Vec<T>,
    f: F,
) -> (r: Vec<U>)
    requires
        forall|i: int| 0 <= i < items@.len() ==> call_requires(f, (#[trigger] items@[i],)),
    ensures
        r@.len() == items@.len(),
        forall|i: int| 0 <= i < items@.len() ==> call_ensures(f, (items@[i],), #[trigger] r@[i]),
{
    items.into_iter().iter_into_par().map(&f).collect()
}

} // verus!
