//! Trusted boundary to the bitvec crate: the bit-sequence type in which
//! encoded messages travel, and the few operations the codec needs on it.
use vstd::prelude::*;

use bitvec::vec::BitVec;

verus! {

/// The encoded form of a message: a bit sequence backed by a bitvec
/// bit-vector. The verifier sees its contents only through `bit_seq`.
#[verifier::external_body]
pub struct BitSeq {
    bits: BitVec,
}

/// The bits a bit sequence holds, in order.
pub uninterp spec fn bit_seq(v: BitSeq) -> Seq<bool>;

/// The largest number of bits a bit-vector can grow to: bitvec keeps a
/// bit-slice's length in pointer metadata three bits short of the address
/// width, and growing past that length panics.
pub open spec fn bitvec_capacity() -> int {
    (usize::MAX >> 3) as int
}

/// Relies on bitvec's `BitVec::len`: the number of bits held.
#[verifier::external_body]
pub(crate) fn bv_len(v: &BitSeq) -> (r: usize)
    ensures
        r == bit_seq(*v).len(),
{
    v.bits.len()
}

/// Relies on bitvec's `Index<usize>` on bit-slices: the bit at position
/// `i`; out-of-range positions panic, so they are kept out.
#[verifier::external_body]
pub(crate) fn bv_get(v: &BitSeq, i: usize) -> (r: bool)
    requires
        i < bit_seq(*v).len(),
    ensures
        r == bit_seq(*v)[i as int],
{
    v.bits[i]
}

/// Relies on bitvec's `FromIterator<bool>`: collects the bits in order.
/// The input stays under the capacity at which bitvec's growth panics.
#[verifier::external_body]
pub(crate) fn bv_from_bools(bits: &Vec<bool>) -> (r: BitSeq)
    requires
        bits@.len() <= bitvec_capacity(),
    ensures
        bit_seq(r) == bits@,
{
    BitSeq { bits: bits.iter().copied().collect() }
}

impl BitSeq {
    /// Packs plain bits into a bit sequence.
    pub fn from_bools(bits: &Vec<bool>) -> (r: BitSeq)
        requires
            bits@.len() <= bitvec_capacity(),
        ensures
            bit_seq(r) == bits@,
    {
        bv_from_bools(bits)
    }

    /// Unpacks the bit sequence into plain bits.
    pub fn to_bools(&self) -> (r: Vec<bool>)
        ensures
            r@ == bit_seq(*self),
    {
        let n = bv_len(self);
        let mut r: Vec<bool> = Vec::new();
        let mut i: usize = 0;
        while i < n
            invariant
                n == bit_seq(*self).len(),
                i <= n,
                r@ == bit_seq(*self).take(i as int),
            decreases n - i,
        {
            r.push(bv_get(self, i));
            proof {
                assert(bit_seq(*self).take(i as int).push(bit_seq(*self)[i as int])
                    =~= bit_seq(*self).take(i as int + 1));
            }
            i += 1;
        }
        proof {
            assert(bit_seq(*self).take(n as int) =~= bit_seq(*self));
        }
        r
    }
}

} // verus!
