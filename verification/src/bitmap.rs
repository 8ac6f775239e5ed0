//! The packed bitmap that every sieve marks, and the few operations on it
//! that the sieves rely on.
//!
//! The storage is `bitvec`'s `BitVec`. Its code is not verified here: each
//! function in this file states what the corresponding `bitvec` operation
//! does, and the rest of the crate is proved against those statements.

use vstd::prelude::*;
use bitvec::vec::BitVec;

verus! {

/// A densely packed sequence of booleans, stored in a `bitvec::vec::BitVec`.
///
/// The verifier does not look inside: what the bitmap holds is known to it
/// only as [`bits_of`].
#[verifier::external_body]
pub struct Bitmap {
    bits: BitVec,
}

/// The bits that a bitmap holds, in index order.
pub uninterp spec fn bits_of(b: Bitmap) -> Seq<bool>;

impl View for Bitmap {
    type V = Seq<bool>;

    open spec fn view(&self) -> Seq<bool> {
        bits_of(*self)
    }
}

/// The longest bit-vector that `bitvec` can describe: an eighth of the
/// address space, since three bits of its length word locate the first bit
/// inside a storage element.
pub open spec fn max_bits() -> int {
    (usize::MAX as int) / 8
}

/// `BitVec::repeat`: a fresh bit-vector of `len` copies of `bit`.
///
/// `bitvec` panics when `len` exceeds its longest encodable length, so such
/// lengths are excluded.
#[verifier::external_body]
pub(crate) fn bits_repeat(bit: bool, len: usize) -> (b: Bitmap)
    requires
        len <= max_bits(),
    ensures
        bits_of(b) == Seq::new(len as nat, |i: int| bit),
{
    Bitmap { bits: BitVec::repeat(bit, len) }
}

/// Indexing a bit-vector (`bits[index]`): the bit at `index`.
///
/// `bitvec` panics on an index at or beyond the length.
#[verifier::external_body]
pub(crate) fn bits_get(b: &Bitmap, index: usize) -> (bit: bool)
    requires
        index < bits_of(*b).len(),
    ensures
        bit == bits_of(*b)[index as int],
{
    b.bits[index]
}

/// `BitSlice::set`: writes `value` at `index` and leaves every other bit as
/// it was.
///
/// `bitvec` panics on an index at or beyond the length.
#[verifier::external_body]
pub(crate) fn bits_set(b: &mut Bitmap, index: usize, value: bool)
    requires
        index < bits_of(*old(b)).len(),
    ensures
        bits_of(*final(b)) == bits_of(*old(b)).update(index as int, value),
{
    b.bits.set(index, value);
}

/// `BitSlice::fill`: overwrites every bit with `value`; the length stays.
#[verifier::external_body]
pub(crate) fn bits_fill(b: &mut Bitmap, value: bool)
    ensures
        bits_of(*final(b)) == Seq::new(bits_of(*old(b)).len(), |i: int| value),
{
    b.bits.fill(value);
}

} // verus!
