use vstd::prelude::*;

verus! {

/// Increments `*b` between two reads of `*a`. As `a` is a shared reference
/// and `b` an exclusive one, nothing can change `*a` meanwhile: the result,
/// whether the two reads differ, is always false.
pub fn increment_beside_shared(a: &i32, b: &mut i32) -> (r: bool)
    requires
        *old(b) < i32::MAX,
    ensures
        *final(b) == *old(b) + 1,
        !r,
{
    let before = *a;
    *b = *b + 1;
    let after = *a;
    before != after
}

} // verus!
