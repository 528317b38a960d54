//! Index arithmetic of the implicit binary tree.

use vstd::prelude::*;

verus! {

/// The position of the parent of position `i`, for `i > 0`.
pub open spec fn parent_of(i: int) -> int {
    (i - 1) / 2
}

/// The position of the first child of position `i`; the second child follows it.
pub open spec fn first_child_of(i: int) -> int {
    2 * i + 1
}

/// The parent's position, or `None` for the root.
pub fn get_parent_index(n: usize) -> (r: Option<usize>)
    ensures
        n == 0 ==> r is None,
        n > 0 ==> r == Some(parent_of(n as int) as usize),
{
    if n == 0 {
        return None;
    }
    Some((n - 1) / 2)
}

/// The first child's position. `2 * n + 1` has to fit in a `usize`.
pub fn get_first_child_index(n: usize) -> (r: usize)
    requires
        2 * n + 1 <= usize::MAX,
    ensures
        r == first_child_of(n as int),
{
    if n == 0 {
        return 1;
    }
    2 * n + 1
}

/// A child's parent is the position it is a child of, and nothing else is.
pub proof fn lemma_parent_of_child(i: int, c: int)
    requires
        0 <= i,
        0 < c,
    ensures
        parent_of(c) == i <==> (c == first_child_of(i) || c == first_child_of(i) + 1),
{
}

} // verus!
