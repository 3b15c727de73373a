//! The relationship graphs between categories: the subset relation, the
//! one-hop graph (a shared word) and the two-hop graph (at least four shared
//! one-hop neighbours).

use vstd::prelude::*;
use crate::bits::{intersects, subset, limbs_meet, limbs_within, lemma_meet_symmetric};

verus! {

/// Fewest common one-hop neighbours that make two categories two-hop adjacent.
pub const MIN_COMMON_NEIGHBOURS: usize = 4;

/// One of the two word sets contains the other.
pub open spec fn related(ms: Seq<Vec<u32>>, i: int, j: int) -> bool {
    limbs_within(ms[i]@, ms[j]@) || limbs_within(ms[j]@, ms[i]@)
}

/// `i` and `j` are distinct, not subset-related, and share a word.
pub open spec fn adj1(ms: Seq<Vec<u32>>, i: int, j: int) -> bool {
    i != j && !related(ms, i, j) && limbs_meet(ms[i]@, ms[j]@)
}

/// Number of `k < upto` that are one-hop neighbours of both `i` and `j`.
pub open spec fn common_count(ms: Seq<Vec<u32>>, i: int, j: int, upto: int) -> nat
    decreases upto,
{
    if upto <= 0 {
        0
    } else {
        common_count(ms, i, j, upto - 1) + if adj1(ms, i, upto - 1) && adj1(ms, upto - 1, j) {
            1nat
        } else {
            0nat
        }
    }
}

/// `i` and `j` are distinct, not subset-related, and have at least four
/// common one-hop neighbours.
pub open spec fn adj2(ms: Seq<Vec<u32>>, i: int, j: int) -> bool {
    i != j && !related(ms, i, j) && common_count(ms, i, j, ms.len() as int)
        >= MIN_COMMON_NEIGHBOURS
}

pub open spec fn sorted_strict(s: Seq<usize>) -> bool {
    forall|a: int, b: int| 0 <= a < b < s.len() ==> s[a] < s[b]
}

/// `lists` holds, for each category, the sorted indices of its one-hop neighbours.
pub open spec fn is_n1_of(ms: Seq<Vec<u32>>, lists: Seq<Vec<usize>>) -> bool {
    &&& lists.len() == ms.len()
    &&& forall|i: int| 0 <= i < ms.len() ==> sorted_strict(#[trigger] lists[i]@)
    &&& forall|i: int, j: usize|
        0 <= i < ms.len() ==> (#[trigger] lists[i]@.contains(j) <==> (j < ms.len() && adj1(
            ms,
            i,
            j as int,
        )))
}

/// `lists` holds, for each category, the sorted indices of its two-hop neighbours.
pub open spec fn is_n2_of(ms: Seq<Vec<u32>>, lists: Seq<Vec<usize>>) -> bool {
    &&& lists.len() == ms.len()
    &&& forall|i: int| 0 <= i < ms.len() ==> sorted_strict(#[trigger] lists[i]@)
    &&& forall|i: int, j: usize|
        0 <= i < ms.len() ==> (#[trigger] lists[i]@.contains(j) <==> (j < ms.len() && adj2(
            ms,
            i,
            j as int,
        )))
}

/// The one-hop and two-hop adjacency lists of a corpus.
pub struct Graph {
    pub n1: Vec<Vec<usize>>,
    pub n2: Vec<Vec<usize>>,
}

impl Graph {
    pub open spec fn is_graph_of(&self, ms: Seq<Vec<u32>>) -> bool {
        is_n1_of(ms, self.n1@) && is_n2_of(ms, self.n2@)
    }
}

pub proof fn lemma_related_symmetric(ms: Seq<Vec<u32>>, i: int, j: int)
    ensures
        related(ms, i, j) == related(ms, j, i),
        adj1(ms, i, j) == adj1(ms, j, i),
{
    lemma_meet_symmetric(ms[i]@, ms[j]@);
}

pub proof fn lemma_common_count_symmetric(ms: Seq<Vec<u32>>, i: int, j: int, upto: int)
    ensures
        common_count(ms, i, j, upto) == common_count(ms, j, i, upto),
    decreases upto,
{
    if upto > 0 {
        lemma_common_count_symmetric(ms, i, j, upto - 1);
        lemma_related_symmetric(ms, i, upto - 1);
        lemma_related_symmetric(ms, j, upto - 1);
    }
}

pub proof fn lemma_push_contains(old: Seq<usize>, new: Seq<usize>, j: usize)
    requires
        new == old || new == old.push(j),
    ensures
        forall|b: usize| #[trigger] new.contains(b) <==> (old.contains(b) || (b == j && new != old)),
{
    if new != old {
        assert forall|b: usize| #[trigger] new.contains(b) <==> (old.contains(b) || b == j) by {
            if new.contains(b) {
                let x = choose|x: int| 0 <= x < new.len() && new[x] == b;
                if x < old.len() {
                    assert(old[x] == b);
                }
            }
            if old.contains(b) {
                let x = choose|x: int| 0 <= x < old.len() && old[x] == b;
                assert(new[x] == b);
            }
            if b == j {
                assert(new[new.len() - 1] == j);
            }
        }
    }
}

/// Whether one of the two bit vectors' word sets contains the other.
pub fn related_pair(a: &[u32], b: &[u32]) -> (r: bool)
    ensures
        r == (limbs_within(a@, b@) || limbs_within(b@, a@)),
{
    subset(a, b) || subset(b, a)
}

/// The dense one-hop adjacency table: `t[i][j]` iff `adj1(i, j)`.
fn one_hop_table(masks: &Vec<Vec<u32>>) -> (t: Vec<Vec<bool>>)
    ensures
        t@.len() == masks@.len(),
        forall|i: int| 0 <= i < t@.len() ==> #[trigger] t@[i]@.len() == masks@.len(),
        forall|i: int, j: int|
            0 <= i < masks@.len() && 0 <= j < masks@.len() ==> #[trigger] t@[i]@[j] == adj1(
                masks@,
                i,
                j,
            ),
{
    let n = masks.len();
    let mut t: Vec<Vec<bool>> = Vec::new();
    let mut i: usize = 0;
    while i < n
        invariant
            n == masks@.len(),
            i <= n,
            t@.len() == i,
            forall|a: int| 0 <= a < i ==> #[trigger] t@[a]@.len() == n,
            forall|a: int, b: int|
                0 <= a < i && 0 <= b < n ==> #[trigger] t@[a]@[b] == adj1(masks@, a, b),
        decreases n - i,
    {
        let mut row: Vec<bool> = Vec::new();
        let mut j: usize = 0;
        while j < n
            invariant
                n == masks@.len(),
                i < n,
                j <= n,
                row@.len() == j,
                forall|b: int| 0 <= b < j ==> #[trigger] row@[b] == adj1(masks@, i as int, b),
            decreases n - j,
        {
            let e = i != j && !related_pair(masks[i].as_slice(), masks[j].as_slice())
                && intersects(masks[i].as_slice(), masks[j].as_slice());
            row.push(e);
            j = j + 1;
        }
        t.push(row);
        i = i + 1;
    }
    t
}

/// Counts the common one-hop neighbours of `i` and `j` in the table.
fn count_common(t: &Vec<Vec<bool>>, i: usize, j: usize, Ghost(ms): Ghost<Seq<Vec<u32>>>) -> (c: usize)
    requires
        t@.len() == ms.len(),
        forall|a: int| 0 <= a < t@.len() ==> #[trigger] t@[a]@.len() == ms.len(),
        forall|a: int, b: int|
            0 <= a < ms.len() && 0 <= b < ms.len() ==> #[trigger] t@[a]@[b] == adj1(ms, a, b),
        i < ms.len(),
        j < ms.len(),
    ensures
        c == common_count(ms, i as int, j as int, ms.len() as int),
{
    let n = t.len();
    let mut c: usize = 0;
    let mut k: usize = 0;
    while k < n
        invariant
            n == ms.len(),
            t@.len() == ms.len(),
            forall|a: int| 0 <= a < t@.len() ==> #[trigger] t@[a]@.len() == ms.len(),
            forall|a: int, b: int|
                0 <= a < ms.len() && 0 <= b < ms.len() ==> #[trigger] t@[a]@[b] == adj1(ms, a, b),
            i < n,
            j < n,
            k <= n,
            c <= k,
            c == common_count(ms, i as int, j as int, k as int),
        decreases n - k,
    {
        if t[i][k] && t[k][j] {
            c = c + 1;
        }
        k = k + 1;
    }
    c
}

/// Builds the one-hop and two-hop graphs of a corpus of equally wide bit vectors.
pub fn build_graph(masks: &Vec<Vec<u32>>) -> (g: Graph)
    ensures
        g.is_graph_of(masks@),
{
    let n = masks.len();
    let t = one_hop_table(masks);
    // upper[i][j - i - 1] holds the two-hop relation for i < j
    let mut upper: Vec<Vec<bool>> = Vec::new();
    let mut i: usize = 0;
    while i < n
        invariant
            n == masks@.len(),
            t@.len() == n,
            forall|a: int| 0 <= a < t@.len() ==> #[trigger] t@[a]@.len() == n,
            forall|a: int, b: int|
                0 <= a < n && 0 <= b < n ==> #[trigger] t@[a]@[b] == adj1(masks@, a, b),
            i <= n,
            upper@.len() == i,
            forall|a: int| 0 <= a < i ==> #[trigger] upper@[a]@.len() == n - a - 1,
            forall|a: int, b: int|
                0 <= a < i && a < b < n ==> #[trigger] upper@[a]@[b - a - 1] == adj2(
                    masks@,
                    a,
                    b,
                ),
        decreases n - i,
    {
        let mut row: Vec<bool> = Vec::new();
        let mut j: usize = i + 1;
        while j < n
            invariant
                n == masks@.len(),
                t@.len() == n,
                forall|a: int| 0 <= a < t@.len() ==> #[trigger] t@[a]@.len() == n,
                forall|a: int, b: int|
                    0 <= a < n && 0 <= b < n ==> #[trigger] t@[a]@[b] == adj1(masks@, a, b),
                i < n,
                i + 1 <= j <= n,
                row@.len() == j - i - 1,
                forall|b: int| i < b < j ==> #[trigger] row@[b - i - 1] == adj2(masks@, i as int, b),
            decreases n - j,
        {
            let e = if related_pair(masks[i].as_slice(), masks[j].as_slice()) {
                false
            } else {
                count_common(&t, i, j, Ghost(masks@)) >= MIN_COMMON_NEIGHBOURS
            };
            row.push(e);
            j = j + 1;
        }
        upper.push(row);
        i = i + 1;
    }
    let mut n1: Vec<Vec<usize>> = Vec::new();
    let mut n2: Vec<Vec<usize>> = Vec::new();
    let mut i: usize = 0;
    while i < n
        invariant
            n == masks@.len(),
            t@.len() == n,
            forall|a: int| 0 <= a < t@.len() ==> #[trigger] t@[a]@.len() == n,
            forall|a: int, b: int|
                0 <= a < n && 0 <= b < n ==> #[trigger] t@[a]@[b] == adj1(masks@, a, b),
            upper@.len() == n,
            forall|a: int| 0 <= a < n ==> #[trigger] upper@[a]@.len() == n - a - 1,
            forall|a: int, b: int|
                0 <= a < n && a < b < n ==> #[trigger] upper@[a]@[b - a - 1] == adj2(
                    masks@,
                    a,
                    b,
                ),
            i <= n,
            n1@.len() == i,
            n2@.len() == i,
            forall|a: int| 0 <= a < i ==> sorted_strict(#[trigger] n1@[a]@),
            forall|a: int| 0 <= a < i ==> sorted_strict(#[trigger] n2@[a]@),
            forall|a: int, b: usize|
                0 <= a < i ==> (#[trigger] n1@[a]@.contains(b) <==> (b < n && adj1(
                    masks@,
                    a,
                    b as int,
                ))),
            forall|a: int, b: usize|
                0 <= a < i ==> (#[trigger] n2@[a]@.contains(b) <==> (b < n && adj2(
                    masks@,
                    a,
                    b as int,
                ))),
        decreases n - i,
    {
        let mut l1: Vec<usize> = Vec::new();
        let mut l2: Vec<usize> = Vec::new();
        let mut j: usize = 0;
        while j < n
            invariant
                n == masks@.len(),
                t@.len() == n,
                forall|a: int| 0 <= a < t@.len() ==> #[trigger] t@[a]@.len() == n,
                forall|a: int, b: int|
                    0 <= a < n && 0 <= b < n ==> #[trigger] t@[a]@[b] == adj1(masks@, a, b),
                upper@.len() == n,
                forall|a: int| 0 <= a < n ==> #[trigger] upper@[a]@.len() == n - a - 1,
                forall|a: int, b: int|
                    0 <= a < n && a < b < n ==> #[trigger] upper@[a]@[b - a - 1] == adj2(
                        masks@,
                        a,
                        b,
                    ),
                i < n,
                j <= n,
                sorted_strict(l1@),
                sorted_strict(l2@),
                forall|x: int| 0 <= x < l1@.len() ==> #[trigger] l1@[x] < j,
                forall|x: int| 0 <= x < l2@.len() ==> #[trigger] l2@[x] < j,
                forall|b: usize|
                    #[trigger] l1@.contains(b) <==> (b < j && adj1(masks@, i as int, b as int)),
                forall|b: usize|
                    #[trigger] l2@.contains(b) <==> (b < j && adj2(masks@, i as int, b as int)),
            decreases n - j,
        {
            let ghost old1 = l1@;
            let ghost old2 = l2@;
            if t[i][j] {
                l1.push(j);
                assert(l1@.last() == j);
            }
            let e2 = if j < i {
                proof {
                    lemma_related_symmetric(masks@, i as int, j as int);
                    lemma_common_count_symmetric(masks@, i as int, j as int, n as int);
                }
                upper[j][i - j - 1]
            } else if j > i {
                upper[i][j - i - 1]
            } else {
                false
            };
            if e2 {
                l2.push(j);
                assert(l2@.last() == j);
            }
            proof {
                lemma_push_contains(old1, l1@, j);
                lemma_push_contains(old2, l2@, j);
            }
            j = j + 1;
        }
        n1.push(l1);
        n2.push(l2);
        i = i + 1;
    }
    Graph { n1, n2 }
}

/// Both graphs are symmetric and loop-free, and no adjacency list holds a
/// subset-related pair.
pub proof fn lemma_graph_symmetric(masks: Seq<Vec<u32>>, g: Graph)
    requires
        g.is_graph_of(masks),
    ensures
        forall|i: usize, j: usize|
            i < masks.len() && j < masks.len() ==> (g.n1@[i as int]@.contains(j)
                <==> g.n1@[j as int]@.contains(i)),
        forall|i: usize, j: usize|
            i < masks.len() && j < masks.len() ==> (g.n2@[i as int]@.contains(j)
                <==> g.n2@[j as int]@.contains(i)),
        forall|i: usize|
            i < masks.len() ==> !g.n1@[i as int]@.contains(i) && !g.n2@[i as int]@.contains(i),
        forall|i: usize, j: usize|
            i < masks.len() && (g.n1@[i as int]@.contains(j) || g.n2@[i as int]@.contains(j))
                ==> !related(masks, i as int, j as int),
{
    assert forall|i: usize, j: usize| i < masks.len() && j < masks.len() implies (g.n1@[
        i as int
    ]@.contains(j) <==> g.n1@[j as int]@.contains(i)) && (g.n2@[i as int]@.contains(j)
        <==> g.n2@[j as int]@.contains(i)) by {
        lemma_related_symmetric(masks, i as int, j as int);
        lemma_common_count_symmetric(masks, i as int, j as int, masks.len() as int);
    }
}

/// A subset-related pair is adjacent in neither graph.
pub proof fn lemma_subset_excluded(masks: Seq<Vec<u32>>, g: Graph, i: usize, j: usize)
    requires
        g.is_graph_of(masks),
        i < masks.len(),
        related(masks, i as int, j as int),
    ensures
        !g.n1@[i as int]@.contains(j),
        !g.n2@[i as int]@.contains(j),
{
}

} // verus!
