//! The search's source of randomness.  Every draw comes from `fastrand`;
//! nothing is promised of a drawn value beyond its range, and of a shuffle
//! beyond being a permutation.

use vstd::prelude::*;

use crate::perm::prefix_permuted;

verus! {

/// Relies on `fastrand::usize`: a number drawn from `0 .. n`; the range must
/// not be empty, or the call panics.
#[verifier::external_body]
pub(crate) fn random_below(n: usize) -> (r: usize)
    requires
        n > 0,
    ensures
        r < n,
{
    fastrand::usize(..n)
}

/// Relies on `fastrand::u64`: a number drawn from `0 .. n`; the range must
/// not be empty, or the call panics.
#[verifier::external_body]
pub(crate) fn random_u64_below(n: u64) -> (r: u64)
    requires
        n > 0,
    ensures
        r < n,
{
    fastrand::u64(..n)
}

/// Relies on `fastrand::shuffle`: it permutes the given slice in place, here
/// the first `ct` elements of `v`, and touches nothing else.
#[verifier::external_body]
pub(crate) fn shuffle_prefix<T>(v: &mut Vec<T>, ct: usize)
    requires
        ct <= old(v).len(),
    ensures
        final(v)@.len() == old(v)@.len(),
        forall|k: int| ct <= k < old(v)@.len() ==> final(v)@[k] == old(v)@[k],
        prefix_permuted(old(v)@, final(v)@, ct as int),
{
    fastrand::shuffle(&mut v[..ct]);
}

} // verus!
