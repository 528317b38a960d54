//! The heap as mathematics: what the storage sequence has to satisfy, and what
//! each operation makes of it.

use vstd::prelude::*;
use crate::layout::{first_child_of, parent_of};
use crate::order::{compares_as_specified, le, lt};

verus! {

/// The min-heap property: no element comes before its parent.
pub open spec fn is_heap<T: PartialOrd>(s: Seq<T>) -> bool {
    forall|i: int| 0 < i < s.len() ==> le(s[parent_of(i)], #[trigger] s[i])
}

/// `s` with the elements at `a` and `b` exchanged.
pub open spec fn swapped<T>(s: Seq<T>, a: int, b: int) -> Seq<T> {
    s.update(a, s[b]).update(b, s[a])
}

/// What sift-up from `k` makes of `s`: while the element has a parent that it
/// comes strictly before, the two change places. Elements that tie stay.
pub open spec fn sifted_up<T: PartialOrd>(s: Seq<T>, k: int) -> Seq<T>
    decreases k,
{
    if 0 < k < s.len() && lt(s[k], s[parent_of(k)]) {
        sifted_up(swapped(s, k, parent_of(k)), parent_of(k))
    } else {
        s
    }
}

/// The child of `k` that sift-down looks at: the second one where it exists and
/// comes strictly before the first, else the first.
pub open spec fn lesser_child<T: PartialOrd>(s: Seq<T>, k: int) -> int {
    let first = first_child_of(k);
    if first + 1 < s.len() && lt(s[first + 1], s[first]) {
        first + 1
    } else {
        first
    }
}

/// What sift-down from `k` makes of `s`: while the element has a child and its
/// lesser child comes strictly before it, the two change places. Elements that
/// tie stay.
pub open spec fn sifted_down<T: PartialOrd>(s: Seq<T>, k: int) -> Seq<T>
    decreases s.len() - k,
{
    let c = lesser_child(s, k);
    if 0 <= k && first_child_of(k) < s.len() && lt(s[c], s[k]) {
        sifted_down(swapped(s, k, c), c)
    } else {
        s
    }
}

/// The storage after `item` was added to storage `s`: appended, then sifted up.
pub open spec fn after_add<T: PartialOrd>(s: Seq<T>, item: T) -> Seq<T> {
    sifted_up(s.push(item), s.len() as int)
}

/// The storage after the root left the non-empty storage `s`: the last element
/// takes the root's place and is sifted down.
pub open spec fn after_extract<T: PartialOrd>(s: Seq<T>) -> Seq<T> {
    sifted_down(swapped(s, 0, s.len() - 1).drop_last(), 0)
}

/// The storage of a heap to which the elements of `items` were added in turn.
pub open spec fn built_from<T: PartialOrd>(items: Seq<T>) -> Seq<T>
    decreases items.len(),
{
    if items.len() == 0 {
        Seq::empty()
    } else {
        after_add(built_from(items.drop_last()), items.last())
    }
}

/// What comes out of storage `s` in `n` extractions of the root, in that order;
/// less than `n` elements where `s` runs out.
pub open spec fn extracted<T: PartialOrd>(s: Seq<T>, n: nat) -> Seq<T>
    decreases n,
{
    if n == 0 || s.len() == 0 {
        Seq::empty()
    } else {
        seq![s[0]] + extracted(after_extract(s), (n - 1) as nat)
    }
}

/// What comes out of storage `s` when the root is extracted until none is left.
pub open spec fn drained<T: PartialOrd>(s: Seq<T>) -> Seq<T> {
    extracted(s, s.len())
}

/// `copies` holds, position by position, a clone of each element of `items`.
pub open spec fn clones_of<T: Clone>(items: Seq<T>, copies: Seq<T>) -> bool {
    &&& copies.len() == items.len()
    &&& forall|i: int| 0 <= i < items.len() ==> cloned(#[trigger] items[i], copies[i])
}

/// `storage` is what a heap holds that was built from clones of `items`: it has
/// the elements of some sequence of such clones and, where the comparisons of `T`
/// are specified, the arrangement that adding them in turn gives.
pub open spec fn is_heap_of_clones<T: PartialOrd + Clone>(storage: Seq<T>, items: Seq<T>) -> bool {
    exists|copies: Seq<T>|
        {
            &&& #[trigger] clones_of(items, copies)
            &&& storage.to_multiset() == copies.to_multiset()
            &&& compares_as_specified::<T>() ==> storage == built_from(copies)
        }
}

/// `out` is what heapsort makes of clones of `items`: it has the elements of some
/// sequence of such clones and, where the comparisons of `T` are specified, the
/// order in which a heap built from them gives them up.
pub open spec fn is_sort_of_clones<T: PartialOrd + Clone>(out: Seq<T>, items: Seq<T>) -> bool {
    exists|copies: Seq<T>|
        {
            &&& #[trigger] clones_of(items, copies)
            &&& out.to_multiset() == copies.to_multiset()
            &&& compares_as_specified::<T>() ==> out == drained(built_from(copies))
        }
}

/// Where a clone of a `T` is always equal to what it was made from, a heap of
/// clones of `items` holds the elements of `items` themselves.
pub proof fn lemma_heap_of_exact_clones<T: PartialOrd + Clone>(storage: Seq<T>, items: Seq<T>)
    requires
        forall|a: T, b: T| #[trigger] cloned(a, b) ==> a == b,
        is_heap_of_clones(storage, items),
    ensures
        storage.to_multiset() == items.to_multiset(),
        compares_as_specified::<T>() ==> storage == built_from(items),
{
    let copies = choose|copies: Seq<T>|
        {
            &&& #[trigger] clones_of(items, copies)
            &&& storage.to_multiset() == copies.to_multiset()
            &&& compares_as_specified::<T>() ==> storage == built_from(copies)
        };
    assert(copies =~= items);
}

/// Where a clone of a `T` is always equal to what it was made from, heapsort
/// gives a permutation of `items` themselves.
pub proof fn lemma_sort_of_exact_clones<T: PartialOrd + Clone>(out: Seq<T>, items: Seq<T>)
    requires
        forall|a: T, b: T| #[trigger] cloned(a, b) ==> a == b,
        is_sort_of_clones(out, items),
    ensures
        out.to_multiset() == items.to_multiset(),
        compares_as_specified::<T>() ==> out == drained(built_from(items)),
{
    let copies = choose|copies: Seq<T>|
        {
            &&& #[trigger] clones_of(items, copies)
            &&& out.to_multiset() == copies.to_multiset()
            &&& compares_as_specified::<T>() ==> out == drained(built_from(copies))
        };
    assert(copies =~= items);
}

} // verus!
