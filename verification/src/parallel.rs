//! Filling a buffer in parallel.
use rayon::prelude::{IndexedParallelIterator, IntoParallelRefMutIterator, ParallelIterator};
use vstd::prelude::*;

verus! {

/// Calls `f` on each of the first `total` places of a buffer, on the threads of `rayon`, and
/// writes what it returns to that place.
///
/// `rayon`'s `par_iter_mut`, `with_min_len`, `enumerate` and `for_each` are trusted to visit each
/// of these places once, with its own index, and no other; `min_len` only bounds how finely the
/// work is split.
#[verifier::external_body]
pub(crate) fn fill_parallel<T: Send, F: Fn(usize) -> T + Sync + Send>(
    data: &mut Vec<T>,
    total: usize,
    min_len: usize,
    f: F,
)
    requires
        total <= old(data)@.len(),
        forall|i: usize| i < total ==> call_requires(f, (i,)),
    ensures
        final(data)@.len() == old(data)@.len(),
        forall|i: usize| i < total ==> call_ensures(f, (i,), #[trigger] final(data)@[i as int]),
        forall|i: int| total <= i < old(data)@.len() ==> #[trigger] final(data)@[i] == old(data)@[i],
{
    data[..total].par_iter_mut().with_min_len(min_len).enumerate().for_each(|(i, out)| *out = f(i));
}

} // verus!
