//! Limb-wise set operations on category bit vectors.

use vstd::prelude::*;

verus! {

/// Limb `k` of `a` and of `b` share at least one bit.
pub open spec fn meet_at(a: Seq<u32>, b: Seq<u32>, k: int) -> bool {
    a[k] & b[k] != 0
}

/// Limb `k` of `a` has no bit outside limb `k` of `b`.
pub open spec fn covered_at(a: Seq<u32>, b: Seq<u32>, k: int) -> bool {
    a[k] & !b[k] == 0
}

/// The word sets of `a` and `b` intersect (limbs compared pairwise).
pub open spec fn limbs_meet(a: Seq<u32>, b: Seq<u32>) -> bool {
    exists|k: int| 0 <= k < a.len() && k < b.len() && #[trigger] meet_at(a, b, k)
}

/// The word set of `a` is contained in that of `b` (limbs compared pairwise).
pub open spec fn limbs_within(a: Seq<u32>, b: Seq<u32>) -> bool {
    forall|k: int| 0 <= k < a.len() && k < b.len() ==> #[trigger] covered_at(a, b, k)
}

proof fn lemma_and_commutes(x: u32, y: u32)
    ensures
        x & y == y & x,
{
    assert(x & y == y & x) by (bit_vector);
}

/// Intersection of word sets is symmetric.
pub proof fn lemma_meet_symmetric(a: Seq<u32>, b: Seq<u32>)
    ensures
        limbs_meet(a, b) == limbs_meet(b, a),
{
    assert forall|k: int| 0 <= k < a.len() && k < b.len() implies meet_at(a, b, k) == meet_at(
        b,
        a,
        k,
    ) by {
        lemma_and_commutes(a[k], b[k]);
    }
    if limbs_meet(a, b) {
        let k = choose|k: int| 0 <= k < a.len() && k < b.len() && #[trigger] meet_at(a, b, k);
        assert(meet_at(b, a, k));
    }
    if limbs_meet(b, a) {
        let k = choose|k: int| 0 <= k < b.len() && k < a.len() && #[trigger] meet_at(b, a, k);
        assert(meet_at(a, b, k));
    }
}

/// Whether the two bit vectors share a word.
pub fn intersects(a: &[u32], b: &[u32]) -> (r: bool)
    ensures
        r == limbs_meet(a@, b@),
{
    let mut k: usize = 0;
    while k < a.len() && k < b.len()
        invariant
            forall|t: int| 0 <= t < k ==> !#[trigger] meet_at(a@, b@, t),
        decreases a.len() - k,
    {
        if (a[k] & b[k]) != 0 {
            assert(meet_at(a@, b@, k as int));
            return true;
        }
        k = k + 1;
    }
    false
}

/// Whether every word of `a` is also a word of `b`.
pub fn subset(a: &[u32], b: &[u32]) -> (r: bool)
    ensures
        r == limbs_within(a@, b@),
{
    let mut k: usize = 0;
    while k < a.len() && k < b.len()
        invariant
            forall|t: int| 0 <= t < k ==> #[trigger] covered_at(a@, b@, t),
        decreases a.len() - k,
    {
        if (a[k] & !b[k]) != 0 {
            assert(!covered_at(a@, b@, k as int));
            return false;
        }
        k = k + 1;
    }
    true
}

} // verus!
