//! Which segments of a path have been matched on the way to a directory.
use vstd::prelude::*;

verus! {

/// A list of bits of a fixed length.
#[verifier::external_body]
#[derive(Debug)]
pub struct SegBits {
    bits: bitvec::boxed::BitBox,
}

/// The bits of a list, from the first to the last.
pub uninterp spec fn bits_of(b: SegBits) -> Seq<bool>;

impl View for SegBits {
    type V = Seq<bool>;

    open spec fn view(&self) -> Seq<bool> {
        bits_of(*self)
    }
}

impl SegBits {
    /// `bitvec`'s `BitVec::repeat`, boxed by `into_boxed_bitslice`: a list of `len` bits, all unset.
    /// It panics if there are more bits than its addressing can tell apart, an eighth of what
    /// `usize` can count.
    #[verifier::external_body]
    pub(crate) fn zeros(len: usize) -> (r: SegBits)
        requires
            len <= usize::MAX / 8,
        ensures
            bits_of(r) == Seq::new(len as nat, |i: int| false),
    {
        SegBits { bits: bitvec::vec::BitVec::repeat(false, len).into_boxed_bitslice() }
    }

    /// `bitvec`'s `BitSlice::len`: the number of bits.
    #[verifier::external_body]
    pub(crate) fn len(&self) -> (r: usize)
        ensures
            r == bits_of(*self).len(),
    {
        self.bits.len()
    }

    /// `bitvec`'s `BitSlice::set`: sets the bit at an index and changes no other.
    #[verifier::external_body]
    pub(crate) fn set(&mut self, index: usize)
        requires
            index < bits_of(*old(self)).len(),
        ensures
            bits_of(*final(self)) == bits_of(*old(self)).update(index as int, true),
    {
        self.bits.set(index, true)
    }

    /// `bitvec`'s `BitSlice::last`: the last bit, or `None` if there are no bits.
    #[verifier::external_body]
    pub(crate) fn last(&self) -> (r: Option<bool>)
        ensures
            r == (if bits_of(*self).len() == 0 {
                None
            } else {
                Some(bits_of(*self).last())
            }),
    {
        self.bits.last().as_deref().copied()
    }

    /// `bitvec`'s `BitSlice::iter_ones`: the indices of the set bits, from the first to the last.
    #[verifier::external_body]
    pub(crate) fn ones(&self) -> (r: Vec<usize>)
        ensures
            forall|i: int, j: int| 0 <= i < j < r@.len() ==> r@[i] < r@[j],
            forall|i: int|
                0 <= i < r@.len() ==> #[trigger] r@[i] < bits_of(*self).len() && bits_of(
                    *self,
                )[r@[i] as int],
            forall|k: usize| k < bits_of(*self).len() && bits_of(*self)[k as int] ==> r@.contains(k),
    {
        self.bits.iter_ones().collect()
    }
}

} // verus!
