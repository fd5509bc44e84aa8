use vstd::prelude::*;
use rayon::iter::IntoParallelIterator;
use rayon::iter::IntoParallelRefIterator;
use rayon::iter::ParallelIterator;

verus! {

/// Applies `f` to every item of `items`, each with `context`, on rayon's
/// worker pool, by `par_iter`, `map` and `collect`. The contract claims of
/// rayon that it calls `f` on each item, and that the results come back in the
/// order of the items.
#[verifier::external_body]
pub(crate) fn par_map<T: Sync, C: Sync, U: Send, G: Fn(&T, &C) -> U + Sync>(
    items: &Vec<T>,
    context: &C,
    f: G,
) -> (out: Vec<U>)
    requires
        forall|i: int| 0 <= i < items.len() ==> call_requires(f, (&items[i], context)),
    ensures
        out.len() == items.len(),
        forall|i: int| 0 <= i < items.len() ==> call_ensures(f, (&items[i], context), #[trigger] out[i]),
{
    items.par_iter().map(|item| f(item, context)).collect()
}

/// Applies `f` to every number below `count`, each with `context`, on rayon's
/// worker pool, by `into_par_iter` on the range, `map` and `collect`. The
/// contract claims of rayon that it calls `f` on each number, and that the
/// results come back in ascending order of the numbers.
#[verifier::external_body]
pub(crate) fn par_map_range<C: Sync, U: Send, G: Fn(usize, &C) -> U + Sync>(
    count: usize,
    context: &C,
    f: G,
) -> (out: Vec<U>)
    requires
        forall|i: usize| i < count ==> call_requires(f, (i, context)),
    ensures
        out.len() == count,
        forall|i: usize| i < count ==> call_ensures(f, (i, context), #[trigger] out[i as int]),
{
    (0..count).into_par_iter().map(|i| f(i, context)).collect()
}

} // verus!
