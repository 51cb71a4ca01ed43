//! Index permutations of a prefix of a sequence, used to describe every
//! reordering of the working clique array (shuffle, reversal, compaction
//! swaps) with one vocabulary.

use vstd::prelude::*;

verus! {

/// Some index of `0 .. ct` is sent to `j` by `p`.
pub open spec fn perm_hits(p: Seq<int>, ct: int, j: int) -> bool {
    exists|k: int| 0 <= k < ct && #[trigger] p[k] == j
}

/// The first `ct` elements of `post` are those of `pre`, rearranged; the
/// rest is not constrained here.
pub open spec fn prefix_permuted<T>(pre: Seq<T>, post: Seq<T>, ct: int) -> bool {
    exists|p: Seq<int>|
        #[trigger] is_index_perm(p, ct) && (forall|k: int| 0 <= k < ct ==> post[k] == pre[#[trigger] p[k]])
}

/// `p` maps the indices `0 .. ct` one-to-one onto themselves.
pub open spec fn is_index_perm(p: Seq<int>, ct: int) -> bool {
    &&& p.len() == ct
    &&& forall|k: int| 0 <= k < ct ==> 0 <= #[trigger] p[k] < ct
    &&& forall|k1: int, k2: int| 0 <= k1 < k2 < ct ==> p[k1] != p[k2]
    &&& forall|j: int| 0 <= j < ct ==> #[trigger] perm_hits(p, ct, j)
}

/// Reversal of `0 .. ct` is a permutation.
pub proof fn lemma_reversal_perm(ct: int)
    requires
        0 <= ct,
    ensures
        is_index_perm(Seq::new(ct as nat, |k: int| ct - 1 - k), ct),
{
    let p = Seq::new(ct as nat, |k: int| ct - 1 - k);
    assert forall|j: int| 0 <= j < ct implies #[trigger] perm_hits(p, ct, j) by {
        assert(p[ct - 1 - j] == j);
    }
}

/// Swapping two indices of `0 .. ct` is a permutation.
pub proof fn lemma_swap_perm(ct: int, a: int, b: int)
    requires
        0 <= a < ct,
        0 <= b < ct,
    ensures
        is_index_perm(
            Seq::new(ct as nat, |k: int| if k == a { b } else if k == b { a } else { k }),
            ct,
        ),
{
    let p = Seq::new(ct as nat, |k: int| if k == a { b } else if k == b { a } else { k });
    assert forall|j: int| 0 <= j < ct implies #[trigger] perm_hits(p, ct, j) by {
        if j == b {
            assert(p[a] == j);
        } else if j == a {
            assert(p[b] == j);
        } else {
            assert(p[j] == j);
        }
    }
}

} // verus!
