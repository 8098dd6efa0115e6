//! Bit vectors indexed by CPU.

use bitvec::vec::BitVec;
use vstd::prelude::*;

verus! {

/// A vector of bits, one for each CPU, held by a `bitvec::vec::BitVec`.
#[verifier::external_body]
#[derive(Debug)]
pub struct CpuBits {
    bits: BitVec,
}

/// The bits that a [`CpuBits`] holds, by their index.
pub uninterp spec fn bits_of(bits: &CpuBits) -> Seq<bool>;

impl View for CpuBits {
    type V = Seq<bool>;

    open spec fn view(&self) -> Seq<bool> {
        bits_of(self)
    }
}

/// `BitVec::repeat`: a vector of `len` bits, each of which is `bit`.
///
/// The vector cannot address more than an eighth of the range of `usize`, and
/// `BitVec::repeat` panics where it is asked for more.
#[verifier::external_body]
pub(crate) fn repeat_bit(bit: bool, len: usize) -> (bits: CpuBits)
    requires
        len <= usize::MAX / 8,
    ensures
        bits_of(&bits) == Seq::new(len as nat, |i: int| bit),
{
    CpuBits { bits: BitVec::repeat(bit, len) }
}

/// `BitSlice::set`, which a `BitVec` derefs to: writes `value` to the bit at
/// `index` and keeps the others. It panics where `index` is out of bounds.
#[verifier::external_body]
pub(crate) fn set_bit(bits: &mut CpuBits, index: usize, value: bool)
    requires
        index < bits_of(old(bits)).len(),
    ensures
        bits_of(final(bits)) == bits_of(old(bits)).update(index as int, value),
{
    bits.bits.set(index, value)
}

/// `BitSlice::get`, which a `BitVec` derefs to: the bit at `index`, or `None`
/// where `index` is out of bounds.
#[verifier::external_body]
fn get_bit(bits: &CpuBits, index: usize) -> (bit: Option<bool>)
    ensures
        bit == if index < bits_of(bits).len() {
            Some(bits_of(bits)[index as int])
        } else {
            None
        },
{
    bits.bits.get(index).as_deref().copied()
}

impl CpuBits {
    /// The bits as a plain vector.
    pub fn to_vec(&self) -> (vec: Vec<bool>)
        ensures
            vec@ == self@,
    {
        let mut vec: Vec<bool> = Vec::new();
        loop
            invariant
                vec.len() <= self@.len(),
                vec@ == self@.take(vec.len() as int),
            decreases self@.len() - vec.len(),
        {
            match get_bit(self, vec.len()) {
                Some(bit) => vec.push(bit),
                None => return vec,
            }
        }
    }
}

} // verus!
