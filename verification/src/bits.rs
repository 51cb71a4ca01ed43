//! Fixed-length bit vectors, the primitive behind cliques' member sets and
//! neighbor frontiers.  The representation is `bitvec_simd::BitVec`, held in
//! a sealed struct; its contents are modelled by the uninterpreted view
//! `bv_bits`, a sequence of booleans whose length is the vector's bit length.
//!
//! A `BitSet` can only be built by `bv_zeros` and changed by the operations
//! here, all of which keep the representation canonical for its length
//! (exactly the storage blocks the length needs, every storage bit above the
//! length clear).  `none` reads whole storage blocks, so it relies on that;
//! this is why filling a vector goes through `from_bool_iterator` rather
//! than the crate's `set_all_true`, whose padding mask shifts by a whole
//! lane width — and so wraps to no shift at all — whenever the length fills
//! a 64-bit lane without filling a 256-bit block.

use vstd::prelude::*;

verus! {

/// A fixed-length set of bits.  The inner vector is never touched except
/// through the operations of this module.
#[verifier::external_body]
pub struct BitSet {
    bv: bitvec_simd::BitVec,
}

/// The bits a vector holds, indexed from zero up to its length.
pub uninterp spec fn bv_bits(bv: BitSet) -> Seq<bool>;

/// Pointwise conjunction of two equally long bit sequences.
pub open spec fn seq_and(a: Seq<bool>, b: Seq<bool>) -> Seq<bool> {
    Seq::new(a.len(), |i: int| a[i] && b[i])
}

/// Pointwise disjunction of two equally long bit sequences.
pub open spec fn seq_or(a: Seq<bool>, b: Seq<bool>) -> Seq<bool> {
    Seq::new(a.len(), |i: int| a[i] || b[i])
}

/// Pointwise exclusive or of two equally long bit sequences.
pub open spec fn seq_xor(a: Seq<bool>, b: Seq<bool>) -> Seq<bool> {
    Seq::new(a.len(), |i: int| a[i] != b[i])
}

/// A constant bit sequence.
pub open spec fn seq_const(len: nat, flag: bool) -> Seq<bool> {
    Seq::new(len, |i: int| flag)
}

/// Relies on `BitVecSimd::zeros`: a vector of `nbits` bits, all false, with
/// freshly zeroed storage.
#[verifier::external_body]
pub(crate) fn bv_zeros(nbits: usize) -> (r: BitSet)
    ensures
        bv_bits(r) == seq_const(nbits as nat, false),
{
    BitSet { bv: bitvec_simd::BitVec::zeros(nbits) }
}

/// Relies on `BitVecSimd::get_unchecked`: the bit at `index`; it panics only
/// when `index` is not below the length.
#[verifier::external_body]
pub(crate) fn bv_get(bv: &BitSet, index: usize) -> (r: bool)
    requires
        index < bv_bits(*bv).len(),
    ensures
        r == bv_bits(*bv)[index as int],
{
    bv.bv.get_unchecked(index)
}

/// Relies on `BitVecSimd::set` with an in-range index: it writes one bit and
/// leaves the length alone.
#[verifier::external_body]
pub(crate) fn bv_set(bv: &mut BitSet, index: usize, flag: bool)
    requires
        index < bv_bits(*old(bv)).len(),
    ensures
        bv_bits(*final(bv)) == bv_bits(*old(bv)).update(index as int, flag),
{
    bv.bv.set(index, flag)
}

/// Relies on `BitVecSimd::and_inplace`: pointwise conjunction of two vectors
/// of one length (it panics on different lengths).
#[verifier::external_body]
pub(crate) fn bv_and(bv: &mut BitSet, other: &BitSet)
    requires
        bv_bits(*old(bv)).len() == bv_bits(*other).len(),
    ensures
        bv_bits(*final(bv)) == seq_and(bv_bits(*old(bv)), bv_bits(*other)),
{
    bv.bv.and_inplace(&other.bv)
}

/// Relies on `BitVecSimd::or_inplace`: pointwise disjunction of two vectors
/// of one length (it panics on different lengths).
#[verifier::external_body]
pub(crate) fn bv_or(bv: &mut BitSet, other: &BitSet)
    requires
        bv_bits(*old(bv)).len() == bv_bits(*other).len(),
    ensures
        bv_bits(*final(bv)) == seq_or(bv_bits(*old(bv)), bv_bits(*other)),
{
    bv.bv.or_inplace(&other.bv)
}

/// Relies on `BitVecSimd::xor_inplace`: pointwise exclusive or of two vectors
/// of one length (it panics on different lengths).
#[verifier::external_body]
pub(crate) fn bv_xor(bv: &mut BitSet, other: &BitSet)
    requires
        bv_bits(*old(bv)).len() == bv_bits(*other).len(),
    ensures
        bv_bits(*final(bv)) == seq_xor(bv_bits(*old(bv)), bv_bits(*other)),
{
    bv.bv.xor_inplace(&other.bv)
}

/// Relies on `BitVecSimd::set_all_false`: it zeroes the whole storage and
/// leaves the length alone.
#[verifier::external_body]
pub(crate) fn bv_set_all_false(bv: &mut BitSet)
    ensures
        bv_bits(*final(bv)) == seq_const(bv_bits(*old(bv)).len(), false),
{
    bv.bv.set_all_false()
}

/// Relies on `BitVecSimd::from_bool_iterator`: it builds a vector holding
/// exactly the bits the iterator yields, in canonical storage, here `nbits`
/// true bits with every storage bit above them clear.
#[verifier::external_body]
pub(crate) fn bv_set_all_true(bv: &mut BitSet, nbits: usize)
    requires
        nbits == bv_bits(*old(bv)).len(),
    ensures
        bv_bits(*final(bv)) == seq_const(bv_bits(*old(bv)).len(), true),
{
    bv.bv = bitvec_simd::BitVec::from_bool_iterator((0..nbits).map(|_| true))
}

/// Relies on `BitVecSimd::none`: true exactly when no storage bit is set,
/// which for a canonical representation means no bit below the length is set.
#[verifier::external_body]
pub(crate) fn bv_none(bv: &BitSet) -> (r: bool)
    ensures
        r == !(exists|i: int| 0 <= i < bv_bits(*bv).len() && bv_bits(*bv)[i]),
{
    bv.bv.none()
}

} // verus!
