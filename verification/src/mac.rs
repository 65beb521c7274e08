//! The interface of message authentication codes.

use vstd::prelude::*;

verus! {

/// A message authentication code.
pub struct MacResult {
    code: Vec<u8>,
}

impl View for MacResult {
    type V = Seq<u8>;

    closed spec fn view(&self) -> Seq<u8> {
        self.code@
    }
}

impl MacResult {
    /// Wraps the bytes of a code.
    pub fn new_from_owned(code: Vec<u8>) -> (result: MacResult)
        ensures
            result@ == code@,
    {
        MacResult { code }
    }

    /// The bytes of the code. Comparing them byte by byte can reveal by its timing
    /// where two codes first differ.
    pub fn code(&self) -> (code: &[u8])
        ensures
            code@ == self@,
    {
        self.code.as_slice()
    }
}

/// A keyed message authentication. What its methods do is said by functions of
/// the view of the context.
pub trait Mac: View + Sized {
    /// The invariant of a context.
    spec fn valid(&self) -> bool;

    /// The state after a reset.
    spec fn after_reset(state: Self::V) -> Self::V;

    /// The state after `data` has been taken in.
    spec fn after_input(state: Self::V, data: Seq<u8>) -> Self::V;

    /// The state after the code has been given.
    spec fn after_result(state: Self::V) -> Self::V;

    /// The code.
    spec fn mac(state: Self::V) -> Seq<u8>;

    /// The length of the code, in bytes.
    spec fn mac_length(state: Self::V) -> nat;

    /// Takes `data` in.
    fn input(&mut self, data: &[u8])
        requires
            old(self).valid(),
        ensures
            final(self).valid(),
            final(self)@ == Self::after_input(old(self)@, data@),
            Self::mac_length(final(self)@) == Self::mac_length(old(self)@),
    ;

    /// Forgets all input, so that another stream can be taken in.
    fn reset(&mut self)
        requires
            old(self).valid(),
        ensures
            final(self).valid(),
            final(self)@ == Self::after_reset(old(self)@),
            Self::mac_length(final(self)@) == Self::mac_length(old(self)@),
    ;

    /// Gives the code of the input.
    fn result(&mut self) -> (result: MacResult)
        requires
            old(self).valid(),
        ensures
            final(self).valid(),
            final(self)@ == Self::after_result(old(self)@),
            Self::mac_length(final(self)@) == Self::mac_length(old(self)@),
            result@ == Self::mac(old(self)@),
    ;

    /// Gives the code of the input as plain bytes. To be used with care: a code
    /// that is compared carelessly can be guessed byte by byte from the time that
    /// the comparison takes.
    fn raw_result(&mut self, output: &mut [u8])
        requires
            old(self).valid(),
            old(output)@.len() == Self::mac_length(old(self)@),
        ensures
            final(self).valid(),
            final(self)@ == Self::after_result(old(self)@),
            Self::mac_length(final(self)@) == Self::mac_length(old(self)@),
            final(output)@ == Self::mac(old(self)@),
    ;

    /// The length of the code, in bytes.
    fn output_bytes(&self) -> (length: usize)
        requires
            self.valid(),
        ensures
            length == Self::mac_length(self@),
    ;
}

} // verus!
