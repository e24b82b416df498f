//! The growable bit vector of the `bit_vec` crate, as the codec uses it.
//!
//! Nothing in this file is proved: each function below states what the
//! crate's method does, and the rest of the library relies on it.

use bit_vec::BitVec;
use vstd::prelude::*;

use crate::bits::{byte_bit, padded_bit};

verus! {

/// `bit_vec::BitVec`, taken as it is: the library never looks inside one, it
/// speaks of its bits through `bit_seq`.
#[verifier::external_type_specification]
#[verifier::external_body]
#[verifier::reject_recursive_types(B)]
pub struct ExBitVec<B>(BitVec<B>);

/// The bits that a bit vector holds, in index order: what `BitVec::get`
/// gives at each index below `BitVec::len`.
pub uninterp spec fn bit_seq(bv: BitVec) -> Seq<bool>;

/// `BitVec::with_capacity`: a vector that holds no bits yet, whatever room
/// was set aside for it.
#[verifier::external_body]
pub(crate) fn with_capacity(capacity: usize) -> (bv: BitVec)
    ensures
        bit_seq(bv) == Seq::<bool>::empty(),
{
    BitVec::with_capacity(capacity)
}

/// `BitVec::from_bytes`: eight bits for every byte, the most significant bit
/// of each byte first. The crate panics when the bit count overflows `usize`,
/// so such inputs are shut out.
#[verifier::external_body]
pub(crate) fn from_bytes(bytes: &[u8]) -> (bv: BitVec)
    requires
        bytes@.len() * 8 <= usize::MAX,
    ensures
        bit_seq(bv).len() == 8 * bytes@.len(),
        forall|k: int|
            0 <= k < 8 * bytes@.len() ==> #[trigger] bit_seq(bv)[k] == byte_bit(
                bytes@[k / 8],
                k % 8,
            ),
{
    BitVec::from_bytes(bytes)
}

/// `BitVec::len`: the number of bits held.
#[verifier::external_body]
pub(crate) fn len(bv: &BitVec) -> (n: usize)
    ensures
        n == bit_seq(*bv).len(),
{
    bv.len()
}

/// `BitVec::push`: appends one bit. The crate panics when the length would
/// overflow `usize`.
#[verifier::external_body]
pub(crate) fn push(bv: &mut BitVec, bit: bool)
    requires
        bit_seq(*old(bv)).len() < usize::MAX,
    ensures
        bit_seq(*final(bv)) == bit_seq(*old(bv)).push(bit),
{
    bv.push(bit)
}

/// `BitVec::get`: the bit at index `i`, or `None` past the end.
#[verifier::external_body]
pub(crate) fn get(bv: &BitVec, i: usize) -> (bit: Option<bool>)
    ensures
        bit == if i < bit_seq(*bv).len() {
            Some(bit_seq(*bv)[i as int])
        } else {
            None
        },
{
    bv.get(i)
}

/// `BitVec::set`: overwrites the bit at index `i`. The crate panics past the
/// end.
#[verifier::external_body]
pub(crate) fn set(bv: &mut BitVec, i: usize, bit: bool)
    requires
        i < bit_seq(*old(bv)).len(),
    ensures
        bit_seq(*final(bv)) == bit_seq(*old(bv)).update(i as int, bit),
{
    bv.set(i, bit)
}

/// `BitVec::to_bytes`: the bits packed eight to a byte, the first bit in the
/// highest place of the first byte; the places of the last byte that no bit
/// fills are zero.
#[verifier::external_body]
pub(crate) fn to_bytes(bv: &BitVec) -> (bytes: Vec<u8>)
    ensures
        bytes@.len() == (bit_seq(*bv).len() + 7) / 8,
        forall|i: int, j: int|
            0 <= i < bytes@.len() && 0 <= j < 8 ==> #[trigger] byte_bit(bytes@[i], j)
                == padded_bit(bit_seq(*bv), 8 * i + j),
{
    bv.to_bytes()
}

} // verus!
