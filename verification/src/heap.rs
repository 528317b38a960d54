//! The heap: storage, sift-up and sift-down, insertion and extraction.

use vstd::prelude::*;
use vstd::multiset::Multiset;
use vstd::seq_lib::{to_multiset_build, to_multiset_contains};
use crate::laws::{
    lemma_after_add, lemma_after_extract, lemma_drained, lemma_root_is_min,
    lemma_swapped_same_elements,
};
use crate::layout::{get_first_child_index, get_parent_index};
use crate::model::{
    after_add, after_extract, built_from, clones_of, drained, extracted, is_heap,
    is_heap_of_clones, lesser_child, sifted_down, sifted_up, swapped,
};
use crate::order::{compares_as_specified, le, sorted, total_order};

verus! {

/// Exchanges the elements at `a` and `b`.
fn swap_items<T>(v: &mut Vec<T>, a: usize, b: usize)
    requires
        a < old(v)@.len(),
        b < old(v)@.len(),
    ensures
        final(v)@ == swapped(old(v)@, a as int, b as int),
{
    if a == b {
        assert(v@ =~= swapped(v@, a as int, b as int));
        return ;
    }
    let (low, high): (usize, usize) = if a < b {
        (a, b)
    } else {
        (b, a)
    };
    let (left, right) = v.as_mut_slice().split_at_mut(high);
    core::mem::swap(&mut left[low], &mut right[0]);
    assert(final(v)@ =~= swapped(old(v)@, a as int, b as int));
}

/// An empty sequence has the empty multiset of elements.
proof fn lemma_nothing_in_empty<T>(s: Seq<T>)
    requires
        s.len() == 0,
    ensures
        s.to_multiset() == Multiset::<T>::empty(),
{
    vstd::seq_lib::to_multiset_len(s);
    vstd::multiset::lemma_multiset_empty_len(s.to_multiset());
}

/// Adding the empty multiset changes nothing.
proof fn lemma_sum_with_empty<T>(a: Multiset<T>)
    ensures
        a.add(Multiset::empty()) == a,
        Multiset::empty().add(a) == a,
{
    broadcast use vstd::multiset::group_multiset_axioms;

    assert(a.add(Multiset::empty()) =~= a);
    assert(Multiset::empty().add(a) =~= a);
}

/// Moving one `x` from `b` over to `a` keeps the sum of the two.
proof fn lemma_moved_over<T>(a: Multiset<T>, b: Multiset<T>, x: T)
    requires
        b.count(x) > 0,
    ensures
        a.insert(x).add(b.remove(x)) == a.add(b),
{
    broadcast use vstd::multiset::group_multiset_axioms;

    assert(a.insert(x).add(b.remove(x)) =~= a.add(b));
}

/// A binary min-heap. Its view is the sequence of its elements in storage order,
/// read as a complete binary tree: the parent of position `i > 0` is at
/// `(i - 1) / 2`.
#[derive(Debug, Clone)]
pub struct Heap<T: PartialOrd> {
    queue: Vec<T>,
}

impl<T: PartialOrd> View for Heap<T> {
    type V = Seq<T>;

    closed spec fn view(&self) -> Seq<T> {
        self.queue@
    }
}

impl<T: PartialOrd + Clone> Heap<T> {
    /// The heap is well formed: where `T` is totally ordered, the storage has the
    /// min-heap property.
    pub open spec fn wf(&self) -> bool {
        total_order::<T>() ==> is_heap(self@)
    }

    /// Moves the element at `index` towards the root while it comes strictly
    /// before its parent.
    fn bubble_up(&mut self, index: usize)
        requires
            index < old(self)@.len(),
        ensures
            final(self)@.len() == old(self)@.len(),
            final(self)@.to_multiset() == old(self)@.to_multiset(),
            compares_as_specified::<T>() ==> final(self)@ == sifted_up(old(self)@, index as int),
        decreases index,
    {
        if let Some(parent_index) = get_parent_index(index) {
            if self.queue[index] < self.queue[parent_index] {
                proof {
                    lemma_swapped_same_elements(self.queue@, index as int, parent_index as int);
                }
                swap_items(&mut self.queue, index, parent_index);
                self.bubble_up(parent_index);
            }
        }
    }

    /// Moves the element at `index` towards the leaves while its lesser child
    /// comes strictly before it.
    fn bubble_down(&mut self, index: usize)
        ensures
            final(self)@.len() == old(self)@.len(),
            final(self)@.to_multiset() == old(self)@.to_multiset(),
            compares_as_specified::<T>() ==> final(self)@ == sifted_down(
                old(self)@,
                index as int,
            ),
        decreases old(self)@.len() - index,
    {
        let len: usize = self.queue.len();
        if index >= len / 2 {
            return ;
        }
        let first_child_index: usize = get_first_child_index(index);
        let second_child_index: usize = first_child_index + 1;
        let mut child: usize = first_child_index;
        if second_child_index < len && self.queue[second_child_index]
            < self.queue[first_child_index] {
            child = second_child_index;
        }
        assert(compares_as_specified::<T>() ==> child == lesser_child(self.queue@, index as int));
        if self.queue[child] < self.queue[index] {
            proof {
                lemma_swapped_same_elements(self.queue@, index as int, child as int);
            }
            swap_items(&mut self.queue, index, child);
            self.bubble_down(child);
        }
    }

    /// A heap of clones of `items`, made by adding them one by one.
    pub fn new(items: &[T]) -> (heap: Self)
        ensures
            heap.wf(),
            heap@.len() == items@.len(),
            is_heap_of_clones(heap@, items@),
    {
        let mut new_heap = Heap { queue: Vec::new() };
        let ghost mut copies: Seq<T> = Seq::empty();
        let mut i: usize = 0;
        while i < items.len()
            invariant
                i <= items@.len(),
                new_heap.wf(),
                new_heap@.len() == i,
                clones_of(items@.take(i as int), copies),
                new_heap@.to_multiset() == copies.to_multiset(),
                compares_as_specified::<T>() ==> new_heap@ == built_from(copies),
            decreases items@.len() - i,
        {
            let item = items[i].clone();
            proof {
                to_multiset_build(copies, item);
                assert(items@.take(i + 1) =~= items@.take(i as int).push(items@[i as int]));
                assert(copies.push(item).drop_last() =~= copies);
                copies = copies.push(item);
            }
            new_heap.add(item);
            i += 1;
        }
        proof {
            assert(items@.take(i as int) =~= items@);
        }
        new_heap
    }

    /// Adds `item`: appends it and sifts it up.
    pub fn add(&mut self, item: T)
        requires
            old(self).wf(),
        ensures
            final(self).wf(),
            final(self)@.len() == old(self)@.len() + 1,
            final(self)@.to_multiset() == old(self)@.to_multiset().insert(item),
            compares_as_specified::<T>() ==> final(self)@ == after_add(old(self)@, item),
    {
        proof {
            to_multiset_build(self.queue@, item);
            lemma_after_add(self.queue@, item);
        }
        self.queue.push(item);
        let last: usize = self.queue.len() - 1;
        self.bubble_up(last);
    }

    /// Takes the minimum out, or returns `None` for an empty heap and leaves it
    /// as it is. The root changes places with the last element, leaves the
    /// storage, and the new root is sifted down.
    pub fn extract_min(&mut self) -> (min: Option<T>)
        requires
            old(self).wf(),
        ensures
            final(self).wf(),
            old(self)@.len() == 0 ==> min is None && final(self)@ == old(self)@,
            old(self)@.len() > 0 ==> min == Some(old(self)@[0]),
            old(self)@.len() > 0 ==> final(self)@.len() == old(self)@.len() - 1,
            old(self)@.len() > 0 ==> final(self)@.to_multiset() == old(self)@.to_multiset().remove(
                old(self)@[0],
            ),
            old(self)@.len() > 0 && compares_as_specified::<T>() ==> final(self)@ == after_extract(
                old(self)@,
            ),
            total_order::<T>() ==> forall|i: int|
                0 <= i < old(self)@.len() ==> le(old(self)@[0], #[trigger] old(self)@[i]),
    {
        proof {
            if total_order::<T>() {
                assert forall|i: int| 0 <= i < self@.len() implies le(
                    self@[0],
                    #[trigger] self@[i],
                ) by {
                    lemma_root_is_min(self@, i);
                }
            }
        }
        if self.queue.len() == 0 {
            return None;
        }
        let ghost before = self.queue@;
        let last_index: usize = self.queue.len() - 1;
        swap_items(&mut self.queue, 0, last_index);
        let min = self.queue.pop();
        proof {
            let moved = swapped(before, 0, last_index as int);
            lemma_swapped_same_elements(before, 0, last_index as int);
            assert(self.queue@ =~= moved.drop_last());
            assert(moved =~= self.queue@.push(before[0]));
            to_multiset_build(self.queue@, before[0]);
            assert(self.queue@.to_multiset() =~= before.to_multiset().remove(before[0]));
            lemma_after_extract(before);
        }
        self.bubble_down(0);
        min
    }

    /// One step of draining the heap: the same as [`Heap::extract_min`].
    pub fn next(&mut self) -> (min: Option<T>)
        requires
            old(self).wf(),
        ensures
            final(self).wf(),
            old(self)@.len() == 0 ==> min is None && final(self)@ == old(self)@,
            old(self)@.len() > 0 ==> min == Some(old(self)@[0]),
            old(self)@.len() > 0 ==> final(self)@.len() == old(self)@.len() - 1,
            old(self)@.len() > 0 ==> final(self)@.to_multiset() == old(self)@.to_multiset().remove(
                old(self)@[0],
            ),
            old(self)@.len() > 0 && compares_as_specified::<T>() ==> final(self)@ == after_extract(
                old(self)@,
            ),
            total_order::<T>() ==> forall|i: int|
                0 <= i < old(self)@.len() ==> le(old(self)@[0], #[trigger] old(self)@[i]),
    {
        self.extract_min()
    }

    /// Uses the heap up: extracts the minimum until none is left and returns what
    /// came out, in that order.
    pub fn drain(self) -> (out: Vec<T>)
        requires
            self.wf(),
        ensures
            out@.len() == self@.len(),
            out@.to_multiset() == self@.to_multiset(),
            compares_as_specified::<T>() ==> out@ == drained(self@),
            total_order::<T>() ==> sorted(out@),
    {
        let mut heap = self;
        let mut out: Vec<T> = Vec::new();
        proof {
            lemma_nothing_in_empty(out@);
            lemma_sum_with_empty(heap@.to_multiset());
            assert(out@ + drained(heap@) =~= drained(self@));
        }
        loop
            invariant
                heap.wf(),
                out@.len() + heap@.len() == self@.len(),
                out@.to_multiset().add(heap@.to_multiset()) == self@.to_multiset(),
                compares_as_specified::<T>() ==> out@ + drained(heap@) == drained(self@),
            ensures
                heap@.len() == 0,
            decreases heap@.len(),
        {
            let ghost rest = heap@;
            let ghost done = out@;
            match heap.extract_min() {
                None => {
                    break ;
                },
                Some(item) => {
                    proof {
                        to_multiset_build(done, item);
                        to_multiset_contains(rest, item);
                        assert(rest.contains(rest[0]));
                        lemma_moved_over(done.to_multiset(), rest.to_multiset(), item);
                        if compares_as_specified::<T>() {
                            assert(drained(rest) == seq![item] + extracted(
                                after_extract(rest),
                                (rest.len() - 1) as nat,
                            ));
                            assert(done.push(item) + drained(heap@) =~= done + drained(rest));
                        }
                    }
                    out.push(item);
                },
            }
        }
        proof {
            lemma_nothing_in_empty(heap@);
            lemma_sum_with_empty(out@.to_multiset());
            assert(out@ + drained(heap@) =~= out@);
            lemma_drained(self@);
        }
        out
    }

    /// The number of elements held.
    pub fn len(&self) -> (n: usize)
        ensures
            n == self@.len(),
    {
        self.queue.len()
    }

    /// The elements in storage order: the root first.
    pub fn as_slice(&self) -> (items: &[T])
        ensures
            items@ == self@,
    {
        self.queue.as_slice()
    }
}

} // verus!
