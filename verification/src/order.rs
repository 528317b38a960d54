//! The order that the heap compares by, as the contracts see it.

use vstd::prelude::*;
use vstd::std_specs::cmp::{PartialOrdIs, PartialOrdSpec};

verus! {

/// `a` comes before `b` or counts as equal to it.
pub open spec fn le<T: PartialOrd>(a: T, b: T) -> bool {
    a.is_le(&b)
}

/// `a` comes strictly before `b`.
pub open spec fn lt<T: PartialOrd>(a: T, b: T) -> bool {
    a.is_lt(&b)
}

/// The comparison operators of `T` compute what `le` and `lt` say. It is so for
/// the integer types; for a type that says nothing of its comparison, the
/// contracts cannot tell which way a comparison went.
pub open spec fn compares_as_specified<T: PartialOrd>() -> bool {
    T::obeys_partial_cmp_spec()
}

/// The comparison of `T` is a total order (ties allowed): `<` computes what `lt`
/// says, any two values are comparable, and `le` is transitive.
///
/// The contracts promise an ordered result only for such a `T`. What they say of
/// lengths and of the elements held is owed for every `T`.
pub open spec fn total_order<T: PartialOrd>() -> bool {
    &&& compares_as_specified::<T>()
    &&& forall|a: T, b: T| #![trigger lt(a, b)] #![trigger le(b, a)] lt(a, b) <==> !le(b, a)
    &&& forall|a: T, b: T, c: T| #[trigger] le(a, b) && #[trigger] le(b, c) ==> le(a, c)
}

/// Each element of `s` is `le` every later one.
pub open spec fn sorted<T: PartialOrd>(s: Seq<T>) -> bool {
    forall|i: int, j: int| 0 <= i <= j < s.len() ==> le(#[trigger] s[i], #[trigger] s[j])
}

/// In a total order every value is `le` itself.
pub proof fn lemma_le_reflexive<T: PartialOrd>(a: T)
    requires
        total_order::<T>(),
    ensures
        le(a, a),
{
    if !le(a, a) {
        assert(lt(a, a));
    }
}

/// The unsigned machine word is totally ordered.
pub proof fn lemma_usize_total_order()
    ensures
        total_order::<usize>(),
{
}

/// The 64-bit unsigned integers are totally ordered.
pub proof fn lemma_u64_total_order()
    ensures
        total_order::<u64>(),
{
}

/// The 32-bit signed integers are totally ordered.
pub proof fn lemma_i32_total_order()
    ensures
        total_order::<i32>(),
{
}

} // verus!
