//! Wiping of secrets.

use vstd::prelude::*;

verus! {

/// `core::hint::black_box` is documented as an identity function that hints to
/// the compiler to be maximally pessimistic about what it does: the value that
/// comes back is the value that went in. How much optimisation the hint holds
/// back is left open by its documentation, and nothing is claimed of it here.
pub assume_specification<T>[ core::hint::black_box::<T> ](dummy: T) -> (result: T)
    ensures
        result == dummy,
;

/// Sets every byte of `dst` to `value`, and hands the result to
/// `core::hint::black_box` so that the stores are not seen as dead.
pub fn secure_memset(dst: &mut [u8], value: u8)
    ensures
        final(dst)@ == Seq::new(old(dst)@.len(), |i: int| value),
{
    let n: usize = dst.len();
    for i in 0..n
        invariant
            n == dst@.len(),
            n == old(dst)@.len(),
            forall|j: int| 0 <= j < i ==> dst@[j] == value,
    {
        dst[i] = value;
    }
    let _seen: &[u8] = core::hint::black_box(&*dst);
    assert(dst@ =~= Seq::new(old(dst)@.len(), |i: int| value));
}

} // verus!
