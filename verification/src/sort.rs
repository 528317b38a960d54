//! Heapsort: build a heap, then drain it.

use vstd::prelude::*;
use crate::heap::Heap;
use crate::model::{built_from, clones_of, drained, is_sort_of_clones};
use crate::order::{compares_as_specified, sorted, total_order};

verus! {

/// Sorts clones of `items` in ascending order. The result holds a clone of each
/// element of `items`, as often as `items` holds it, and where `T` is totally
/// ordered no element of the result comes before an earlier one. Elements that
/// tie may come out in either order.
pub fn heapsort<T: PartialOrd + Clone>(items: &[T]) -> (out: Vec<T>)
    ensures
        out@.len() == items@.len(),
        is_sort_of_clones(out@, items@),
        total_order::<T>() ==> sorted(out@),
{
    let new_heap = Heap::new(items);
    let ghost storage = new_heap@;
    let out = new_heap.drain();
    proof {
        let copies = choose|copies: Seq<T>|
            {
                &&& #[trigger] clones_of(items@, copies)
                &&& storage.to_multiset() == copies.to_multiset()
                &&& compares_as_specified::<T>() ==> storage == built_from(copies)
            };
        assert(clones_of(items@, copies));
        assert(compares_as_specified::<T>() ==> out@ == drained(built_from(copies)));
    }
    out
}

} // verus!
