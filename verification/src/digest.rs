//! The interface of message digests.

use vstd::prelude::*;

verus! {

/// A message digest. What its methods do is said by functions of the view of the
/// context; the digest comes out in as many bytes as it takes to hold its bits.
pub trait Digest: View + Sized {
    /// The invariant of a context.
    spec fn valid(&self) -> bool;

    /// The state after a reset.
    spec fn after_reset(state: Self::V) -> Self::V;

    /// The state after `msg` has been taken in.
    spec fn after_input(state: Self::V, msg: Seq<u8>) -> Self::V;

    /// The state after the digest has been given.
    spec fn after_result(state: Self::V) -> Self::V;

    /// The digest.
    spec fn digest(state: Self::V) -> Seq<u8>;

    /// The length of the digest, in bits.
    spec fn digest_bits(state: Self::V) -> nat;

    /// The length of a block, in bits.
    spec fn block_bits(state: Self::V) -> nat;

    /// Forgets all input.
    fn reset(&mut self)
        requires
            old(self).valid(),
        ensures
            final(self).valid(),
            final(self)@ == Self::after_reset(old(self)@),
            Self::digest_bits(final(self)@) == Self::digest_bits(old(self)@),
    ;

    /// Takes `msg` in.
    fn input(&mut self, msg: &[u8])
        requires
            old(self).valid(),
        ensures
            final(self).valid(),
            final(self)@ == Self::after_input(old(self)@, msg@),
            Self::digest_bits(final(self)@) == Self::digest_bits(old(self)@),
    ;

    /// Gives the digest of the input.
    fn result(&mut self, out: &mut [u8])
        requires
            old(self).valid(),
            old(out)@.len() == (Self::digest_bits(old(self)@) + 7) / 8,
        ensures
            final(self).valid(),
            final(self)@ == Self::after_result(old(self)@),
            Self::digest_bits(final(self)@) == Self::digest_bits(old(self)@),
            final(out)@ == Self::digest(old(self)@),
    ;

    /// The length of the digest, in bits.
    fn output_bits(&self) -> (bits: usize)
        requires
            self.valid(),
        ensures
            bits == Self::digest_bits(self@),
    ;

    /// The length of a block, in bits.
    fn block_size(&self) -> (bits: usize)
        requires
            self.valid(),
        ensures
            bits == Self::block_bits(self@),
    ;
}

} // verus!
