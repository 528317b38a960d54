//! What holds of the heap whatever is done with it, proved of the model that the
//! contracts of the operations speak of.

use vstd::prelude::*;
use vstd::seq_lib::{
    to_multiset_build, to_multiset_contains, to_multiset_insert, to_multiset_update,
};
use crate::layout::{first_child_of, parent_of};
use crate::model::{
    after_add, after_extract, built_from, drained, is_heap, lesser_child, sifted_down, sifted_up,
    swapped,
};
use crate::order::{le, lemma_le_reflexive, lt, sorted, total_order};

verus! {

/// `s` is a heap but for the element at `k`, which may come before its parent:
/// every other element respects its parent, and the children of `k` respect the
/// parent of `k`.
spec fn heap_but_above<T: PartialOrd>(s: Seq<T>, k: int) -> bool {
    &&& forall|i: int| 0 < i < s.len() && i != k ==> le(s[parent_of(i)], #[trigger] s[i])
    &&& forall|i: int|
        0 < i < s.len() && 0 < k && parent_of(i) == k ==> le(s[parent_of(k)], #[trigger] s[i])
}

/// `s` is a heap but for the element at `k`, which may come after its children:
/// every element whose parent is not `k` respects its parent, and the children of
/// `k` respect the parent of `k`.
spec fn heap_but_below<T: PartialOrd>(s: Seq<T>, k: int) -> bool {
    &&& forall|i: int|
        0 < i < s.len() && parent_of(i) != k ==> le(s[parent_of(i)], #[trigger] s[i])
    &&& forall|i: int|
        0 < i < s.len() && 0 < k && parent_of(i) == k ==> le(s[parent_of(k)], #[trigger] s[i])
}

/// Exchanging two elements keeps the multiset of elements.
pub proof fn lemma_swapped_same_elements<T>(s: Seq<T>, a: int, b: int)
    requires
        0 <= a < s.len(),
        0 <= b < s.len(),
    ensures
        swapped(s, a, b).to_multiset() == s.to_multiset(),
{
    to_multiset_update(s, a, s[b]);
    to_multiset_update(s.update(a, s[b]), b, s[a]);
    to_multiset_contains(s, s[a]);
    to_multiset_contains(s, s[b]);
    assert(s.contains(s[a]));
    assert(s.contains(s[b]));
    assert(swapped(s, a, b).to_multiset() =~= s.to_multiset());
}

/// The root of a heap is `le` every element: it is a minimum.
pub proof fn lemma_root_is_min<T: PartialOrd>(s: Seq<T>, i: int)
    requires
        total_order::<T>(),
        is_heap(s),
        0 <= i < s.len(),
    ensures
        le(s[0], s[i]),
    decreases i,
{
    if i == 0 {
        lemma_le_reflexive(s[0]);
    } else {
        lemma_root_is_min(s, parent_of(i));
        assert(le(s[parent_of(i)], s[i]));
    }
}

/// What is left after the minimum went out holds nothing that was not there
/// before, so the minimum that went out is `le` all of it: successive minima
/// never decrease.
pub proof fn lemma_rest_after_min<T: PartialOrd>(s: Seq<T>, rest: Seq<T>)
    requires
        total_order::<T>(),
        is_heap(s),
        s.len() > 0,
        rest.to_multiset() == s.to_multiset().remove(s[0]),
    ensures
        forall|j: int| 0 <= j < rest.len() ==> le(s[0], #[trigger] rest[j]),
{
    assert forall|j: int| 0 <= j < rest.len() implies le(s[0], #[trigger] rest[j]) by {
        to_multiset_contains(rest, rest[j]);
        to_multiset_contains(s, rest[j]);
        assert(rest.contains(rest[j]));
        assert(s.to_multiset().count(rest[j]) > 0);
        let i = choose|i: int| 0 <= i < s.len() && s[i] == rest[j];
        lemma_root_is_min(s, i);
    }
}

/// One step of sift-up: after the element at `k` changed places with its parent,
/// which it came strictly before, only the parent's position can be out of order.
proof fn lemma_up_step<T: PartialOrd>(s: Seq<T>, k: int)
    requires
        total_order::<T>(),
        0 < k < s.len(),
        heap_but_above(s, k),
        lt(s[k], s[parent_of(k)]),
    ensures
        heap_but_above(swapped(s, k, parent_of(k)), parent_of(k)),
{
    let p = parent_of(k);
    let t = swapped(s, k, p);
    assert(le(s[k], s[p]));
    assert forall|i: int| 0 < i < t.len() && i != p implies le(t[parent_of(i)], #[trigger] t[i]) by {
        if i == k {
        } else if parent_of(i) == k {
            assert(le(s[p], s[i]));
        } else if parent_of(i) == p {
            assert(le(s[p], s[i]));
        } else {
            assert(le(s[parent_of(i)], s[i]));
        }
    }
    assert forall|i: int| 0 < i < t.len() && 0 < p && parent_of(i) == p implies le(
        t[parent_of(p)],
        #[trigger] t[i],
    ) by {
        assert(le(s[parent_of(p)], s[p]));
        if i != k {
            assert(le(s[p], s[i]));
        }
    }
}

/// The end of sift-up: where the element at `k` has no parent, or does not come
/// strictly before it, nothing is out of order.
proof fn lemma_up_stop<T: PartialOrd>(s: Seq<T>, k: int)
    requires
        total_order::<T>(),
        0 <= k < s.len(),
        heap_but_above(s, k),
        k == 0 || !lt(s[k], s[parent_of(k)]),
    ensures
        is_heap(s),
{
    if k > 0 {
        assert(le(s[parent_of(k)], s[k]));
    }
}

/// In a total order every child of `k` has the lesser child of `k` `le` it.
proof fn lemma_lesser_child<T: PartialOrd>(s: Seq<T>, k: int, i: int)
    requires
        total_order::<T>(),
        0 <= k,
        0 < i < s.len(),
        parent_of(i) == k,
    ensures
        0 < lesser_child(s, k) < s.len(),
        parent_of(lesser_child(s, k)) == k,
        le(s[lesser_child(s, k)], s[i]),
{
    lemma_le_reflexive(s[i]);
    let first = first_child_of(k);
    if first + 1 < s.len() {
        assert(lt(s[first + 1], s[first]) <==> !le(s[first], s[first + 1]));
    }
}

/// One step of sift-down: after the element at `k` changed places with its lesser
/// child, which came strictly before it, only the child's position can be out of
/// order.
proof fn lemma_down_step<T: PartialOrd>(s: Seq<T>, k: int)
    requires
        total_order::<T>(),
        0 <= k,
        first_child_of(k) < s.len(),
        heap_but_below(s, k),
        lt(s[lesser_child(s, k)], s[k]),
    ensures
        heap_but_below(swapped(s, k, lesser_child(s, k)), lesser_child(s, k)),
{
    let c = lesser_child(s, k);
    let t = swapped(s, k, c);
    assert(le(s[c], s[k]));
    assert forall|i: int| 0 < i < t.len() && parent_of(i) != c implies le(
        t[parent_of(i)],
        #[trigger] t[i],
    ) by {
        if i == c {
        } else if i == k {
            assert(le(s[parent_of(k)], s[c]));
        } else if parent_of(i) == k {
            lemma_lesser_child(s, k, i);
        } else {
            assert(le(s[parent_of(i)], s[i]));
        }
    }
    assert forall|i: int| 0 < i < t.len() && 0 < c && parent_of(i) == c implies le(
        t[parent_of(c)],
        #[trigger] t[i],
    ) by {
        assert(le(s[c], s[i]));
    }
}

/// The end of sift-down: where the element at `k` has no child, or its lesser
/// child does not come strictly before it, nothing is out of order.
proof fn lemma_down_stop<T: PartialOrd>(s: Seq<T>, k: int)
    requires
        total_order::<T>(),
        0 <= k,
        heap_but_below(s, k),
        first_child_of(k) >= s.len() || !lt(s[lesser_child(s, k)], s[k]),
    ensures
        is_heap(s),
{
    assert forall|i: int| 0 < i < s.len() implies le(s[parent_of(i)], #[trigger] s[i]) by {
        if parent_of(i) == k {
            lemma_lesser_child(s, k, i);
            assert(le(s[k], s[lesser_child(s, k)]));
        }
    }
}

/// Sift-up keeps the length and the elements, and mends a heap whose only fault
/// is that the element at `k` may come before its parent.
proof fn lemma_sifted_up<T: PartialOrd>(s: Seq<T>, k: int)
    requires
        0 <= k < s.len(),
    ensures
        sifted_up(s, k).len() == s.len(),
        sifted_up(s, k).to_multiset() == s.to_multiset(),
        total_order::<T>() && heap_but_above(s, k) ==> is_heap(sifted_up(s, k)),
    decreases k,
{
    if 0 < k && lt(s[k], s[parent_of(k)]) {
        lemma_swapped_same_elements(s, k, parent_of(k));
        if total_order::<T>() && heap_but_above(s, k) {
            lemma_up_step(s, k);
        }
        lemma_sifted_up(swapped(s, k, parent_of(k)), parent_of(k));
    } else if total_order::<T>() && heap_but_above(s, k) {
        lemma_up_stop(s, k);
    }
}

/// Sift-down keeps the length and the elements, and mends a heap whose only fault
/// is that the element at `k` may come after its children.
proof fn lemma_sifted_down<T: PartialOrd>(s: Seq<T>, k: int)
    requires
        0 <= k,
    ensures
        sifted_down(s, k).len() == s.len(),
        sifted_down(s, k).to_multiset() == s.to_multiset(),
        total_order::<T>() && heap_but_below(s, k) ==> is_heap(sifted_down(s, k)),
    decreases s.len() - k,
{
    let c = lesser_child(s, k);
    if first_child_of(k) < s.len() && lt(s[c], s[k]) {
        lemma_swapped_same_elements(s, k, c);
        if total_order::<T>() && heap_but_below(s, k) {
            lemma_down_step(s, k);
        }
        lemma_sifted_down(swapped(s, k, c), c);
    } else if total_order::<T>() && heap_but_below(s, k) {
        lemma_down_stop(s, k);
    }
}

/// An insertion makes the heap one longer, puts the item among its elements, and
/// keeps the heap property.
pub proof fn lemma_after_add<T: PartialOrd>(s: Seq<T>, item: T)
    ensures
        after_add(s, item).len() == s.len() + 1,
        after_add(s, item).to_multiset() == s.to_multiset().insert(item),
        total_order::<T>() && is_heap(s) ==> is_heap(after_add(s, item)),
{
    let t = s.push(item);
    to_multiset_build(s, item);
    if total_order::<T>() && is_heap(s) {
        assert forall|i: int| 0 < i < t.len() && i != s.len() implies le(
            t[parent_of(i)],
            #[trigger] t[i],
        ) by {
            assert(le(s[parent_of(i)], s[i]));
        }
    }
    lemma_sifted_up(t, s.len() as int);
}

/// An extraction from a heap that is not empty makes it one shorter, takes one
/// root out of its elements, and keeps the heap property.
pub proof fn lemma_after_extract<T: PartialOrd>(s: Seq<T>)
    requires
        s.len() > 0,
    ensures
        after_extract(s).len() == s.len() - 1,
        after_extract(s).to_multiset() == s.to_multiset().remove(s[0]),
        total_order::<T>() && is_heap(s) ==> is_heap(after_extract(s)),
{
    broadcast use vstd::multiset::group_multiset_axioms;

    let moved = swapped(s, 0, s.len() - 1);
    let t = moved.drop_last();
    lemma_swapped_same_elements(s, 0, s.len() - 1);
    assert(moved =~= t.push(s[0]));
    to_multiset_build(t, s[0]);
    assert(t.to_multiset() =~= s.to_multiset().remove(s[0]));
    if total_order::<T>() && is_heap(s) {
        assert forall|i: int| 0 < i < t.len() && parent_of(i) != 0 implies le(
            t[parent_of(i)],
            #[trigger] t[i],
        ) by {
            assert(le(s[parent_of(i)], s[i]));
        }
    }
    lemma_sifted_down(t, 0);
}

/// One operation on a heap.
pub enum Step<T> {
    /// An insertion of the element.
    Add(T),
    /// An extraction of the minimum, which finds nothing in an empty heap.
    ExtractMin,
}

/// The storage after `steps` were done, in turn, on storage `s`.
pub open spec fn after_steps<T: PartialOrd>(s: Seq<T>, steps: Seq<Step<T>>) -> Seq<T>
    decreases steps.len(),
{
    if steps.len() == 0 {
        s
    } else {
        let before = after_steps(s, steps.drop_last());
        match steps.last() {
            Step::Add(item) => after_add(before, item),
            Step::ExtractMin => if before.len() > 0 {
                after_extract(before)
            } else {
                before
            },
        }
    }
}

/// How many of `steps` are insertions.
pub open spec fn insertions<T>(steps: Seq<Step<T>>) -> nat
    decreases steps.len(),
{
    if steps.len() == 0 {
        0
    } else if steps.last() is Add {
        insertions(steps.drop_last()) + 1
    } else {
        insertions(steps.drop_last())
    }
}

/// How many of `steps`, done on storage `s`, are extractions that find an element.
pub open spec fn extractions<T: PartialOrd>(s: Seq<T>, steps: Seq<Step<T>>) -> nat
    decreases steps.len(),
{
    if steps.len() == 0 {
        0
    } else if steps.last() is ExtractMin && after_steps(s, steps.drop_last()).len() > 0 {
        extractions(s, steps.drop_last()) + 1
    } else {
        extractions(s, steps.drop_last())
    }
}

/// Whatever insertions and extractions are done on a heap of a totally ordered
/// type, in whatever order, the result has the heap property: no element comes
/// before its parent.
pub proof fn lemma_heap_property_kept<T: PartialOrd>(s: Seq<T>, steps: Seq<Step<T>>)
    requires
        total_order::<T>(),
        is_heap(s),
    ensures
        is_heap(after_steps(s, steps)),
    decreases steps.len(),
{
    if steps.len() > 0 {
        let before = after_steps(s, steps.drop_last());
        lemma_heap_property_kept(s, steps.drop_last());
        match steps.last() {
            Step::Add(item) => {
                lemma_after_add(before, item);
            },
            Step::ExtractMin => {
                if before.len() > 0 {
                    lemma_after_extract(before);
                }
            },
        }
    }
}

/// The size of a heap is what it was, plus the insertions done, minus the
/// extractions that found an element. An extraction from an empty heap leaves
/// it as it is.
pub proof fn lemma_size_counts_steps<T: PartialOrd>(s: Seq<T>, steps: Seq<Step<T>>)
    ensures
        extractions(s, steps) <= s.len() + insertions(steps),
        after_steps(s, steps).len() == s.len() + insertions(steps) - extractions(s, steps),
    decreases steps.len(),
{
    if steps.len() > 0 {
        let before = after_steps(s, steps.drop_last());
        lemma_size_counts_steps(s, steps.drop_last());
        match steps.last() {
            Step::Add(item) => {
                lemma_after_add(before, item);
            },
            Step::ExtractMin => {
                if before.len() > 0 {
                    lemma_after_extract(before);
                }
            },
        }
    }
}

/// However often the minimum is extracted from an empty heap, the heap stays as
/// it is and no extraction finds an element.
pub proof fn lemma_empty_stays_empty<T: PartialOrd>(n: nat)
    ensures
        after_steps(Seq::<T>::empty(), Seq::new(n, |i: int| Step::<T>::ExtractMin))
            == Seq::<T>::empty(),
        extractions(Seq::<T>::empty(), Seq::new(n, |i: int| Step::<T>::ExtractMin)) == 0,
    decreases n,
{
    if n > 0 {
        let steps = Seq::new(n, |i: int| Step::<T>::ExtractMin);
        let fewer = Seq::new((n - 1) as nat, |i: int| Step::<T>::ExtractMin);
        lemma_empty_stays_empty::<T>((n - 1) as nat);
        assert(steps.drop_last() =~= fewer);
    }
}

/// A heap built by insertions holds what was inserted, and has the heap property.
pub proof fn lemma_built_from<T: PartialOrd>(items: Seq<T>)
    ensures
        built_from(items).len() == items.len(),
        built_from(items).to_multiset() == items.to_multiset(),
        total_order::<T>() ==> is_heap(built_from(items)),
    decreases items.len(),
{
    if items.len() == 0 {
        assert(built_from(items) =~= items);
    } else {
        lemma_built_from(items.drop_last());
        lemma_after_add(built_from(items.drop_last()), items.last());
        to_multiset_build(items.drop_last(), items.last());
        assert(items.drop_last().push(items.last()) =~= items);
    }
}

/// Extracting the minimum of a heap until none is left gives as many elements as
/// the heap held, the same elements, and, for a totally ordered type, in an order
/// in which none comes before an earlier one.
pub proof fn lemma_drained<T: PartialOrd>(s: Seq<T>)
    requires
        total_order::<T>() ==> is_heap(s),
    ensures
        drained(s).len() == s.len(),
        drained(s).to_multiset() == s.to_multiset(),
        total_order::<T>() ==> sorted(drained(s)),
    decreases s.len(),
{
    broadcast use vstd::multiset::group_multiset_axioms;

    if s.len() == 0 {
        assert(drained(s) =~= s);
    } else {
        let rest = after_extract(s);
        lemma_after_extract(s);
        lemma_drained(rest);
        let tail = drained(rest);
        assert(drained(s) =~= tail.insert(0, s[0]));
        to_multiset_insert(tail, 0, s[0]);
        to_multiset_contains(s, s[0]);
        assert(s.contains(s[0]));
        assert(drained(s).to_multiset() =~= s.to_multiset());
        if total_order::<T>() {
            lemma_rest_after_min(s, tail);
            lemma_le_reflexive(s[0]);
            assert forall|i: int, j: int| 0 <= i <= j < drained(s).len() implies le(
                #[trigger] drained(s)[i],
                #[trigger] drained(s)[j],
            ) by {
                if i > 0 {
                    assert(le(tail[i - 1], tail[j - 1]));
                } else if j > 0 {
                    assert(le(s[0], tail[j - 1]));
                }
            }
        }
    }
}

/// Heapsort gives a permutation of its input and, for a totally ordered type,
/// one in which no element comes before an earlier one.
pub proof fn lemma_heapsort_sorts<T: PartialOrd>(items: Seq<T>)
    ensures
        drained(built_from(items)).len() == items.len(),
        drained(built_from(items)).to_multiset() == items.to_multiset(),
        total_order::<T>() ==> sorted(drained(built_from(items))),
{
    lemma_built_from(items);
    lemma_drained(built_from(items));
}

/// Heapsort makes nothing of nothing, and of one element that element.
pub proof fn lemma_heapsort_of_none_and_one<T: PartialOrd>(x: T)
    ensures
        drained(built_from(Seq::<T>::empty())) == Seq::<T>::empty(),
        drained(built_from(seq![x])) == seq![x],
{
    lemma_heapsort_sorts(Seq::<T>::empty());
    assert(drained(built_from(Seq::<T>::empty())) =~= Seq::<T>::empty());
    lemma_heapsort_sorts(seq![x]);
    let out = drained(built_from(seq![x]));
    to_multiset_contains(seq![x], out[0]);
    to_multiset_contains(out, out[0]);
    assert(out.contains(out[0]));
    assert(out =~= seq![x]);
}

} // verus!
