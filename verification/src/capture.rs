//! The buffer for the bits sampled during one register access.

use crate::codec::le_value;
use bitvec::field::BitField;
use bitvec::vec::BitVec;
use vstd::prelude::*;

verus! {

/// The bits sampled from the data-out line during one register access, in
/// the order in which they were sampled. The storage is a `bitvec::vec::BitVec`,
/// which the verifier does not look into.
#[verifier::external_body]
pub struct CaptureBuffer {
    bits: BitVec,
}

/// The bits a buffer holds, oldest first.
pub uninterp spec fn held(buffer: CaptureBuffer) -> Seq<bool>;

impl View for CaptureBuffer {
    type V = Seq<bool>;

    open spec fn view(&self) -> Seq<bool> {
        held(*self)
    }
}

impl CaptureBuffer {
    /// Calls `BitVec::new`, which gives a vector without any bit in it.
    #[verifier::external_body]
    pub(crate) fn new() -> (buffer: CaptureBuffer)
        ensures
            held(buffer) == Seq::<bool>::empty(),
    {
        CaptureBuffer { bits: BitVec::new() }
    }

    /// Calls `BitVec::push`, which appends one bit behind those already held.
    /// It panics once the length would pass the largest that a bit vector
    /// can describe, an eighth of the address space; the precondition keeps
    /// away from that.
    #[verifier::external_body]
    pub(crate) fn push(&mut self, bit: bool)
        requires
            held(*old(self)).len() < usize::MAX / 8,
        ensures
            held(*final(self)) == held(*old(self)).push(bit),
    {
        self.bits.push(bit)
    }

    /// Calls `std::mem::take` on the bit vector: what was held is handed
    /// out, and an empty vector is left behind.
    #[verifier::external_body]
    pub(crate) fn take(&mut self) -> (taken: CaptureBuffer)
        ensures
            held(taken) == held(*old(self)),
            held(*final(self)) == Seq::<bool>::empty(),
    {
        CaptureBuffer { bits: std::mem::take(&mut self.bits) }
    }

    /// Calls `BitField::load_le::<u64>` on the bit vector. With the default
    /// `Lsb0` order the index of a bit is its significance, so the result is
    /// the number that the bits spell with the oldest as the least
    /// significant. The call panics on an empty vector and on more than 64
    /// bits; the precondition leaves both out.
    #[verifier::external_body]
    pub(crate) fn load_le(&self) -> (value: u64)
        requires
            1 <= held(*self).len() <= 64,
        ensures
            value as nat == le_value(held(*self)),
    {
        self.bits.load_le::<u64>()
    }
}

} // verus!
