//! The read-only context of a search worker: the category bit vectors, the
//! adjacency lists and their dense tables, the subset table and the meta caps.

use vstd::prelude::*;
use crate::graph::{related, related_pair, sorted_strict, lemma_push_contains};

verus! {

/// Why the inputs of a search context are inconsistent.
#[derive(Debug, Clone, Copy, PartialEq, Eq, Structural)]
pub enum InitError {
    /// Two bit vectors differ in their number of limbs.
    MaskWidth,
    /// The adjacency lists or meta labels are not one per category.
    LengthMismatch,
    /// An adjacency list names a category that does not exist.
    IndexOutOfRange,
    /// A meta label has no entry in the cap table.
    UnknownLabel,
}

/// The read-only data of one search worker.
pub struct SearchContext {
    pub masks: Vec<Vec<u32>>,
    pub width: usize,
    pub n1: Vec<Vec<usize>>,
    pub n2: Vec<Vec<usize>>,
    /// Meta label of each category, as an index into `caps`.
    pub meta: Vec<Option<usize>>,
    /// Most occurrences allowed of each meta label among a grid's categories.
    pub caps: Vec<usize>,
    /// `subset[i][j]` iff `i != j` and one word set contains the other.
    pub subset: Vec<Vec<bool>>,
    /// `n1_table[i][j]` iff `j` is in `n1[i]`.
    pub n1_table: Vec<Vec<bool>>,
    /// `n2_table[i][j]` iff `j` is in `n2[i]`.
    pub n2_table: Vec<Vec<bool>>,
}

pub open spec fn lists_in_range(lists: Seq<Vec<usize>>, n: int) -> bool {
    forall|i: int, x: int|
        0 <= i < lists.len() && 0 <= x < lists[i]@.len() ==> #[trigger] lists[i]@[x] < n
}

pub open spec fn table_of(table: Seq<Vec<bool>>, lists: Seq<Vec<usize>>, n: int) -> bool {
    &&& table.len() == n
    &&& forall|i: int| 0 <= i < n ==> #[trigger] table[i]@.len() == n
    &&& forall|i: int, j: int|
        0 <= i < n && 0 <= j < n ==> #[trigger] table[i]@[j] == lists[i]@.contains(j as usize)
}

pub open spec fn labels_known(meta: Seq<Option<usize>>, caps: Seq<usize>) -> bool {
    forall|i: int| 0 <= i < meta.len() && #[trigger] meta[i] is Some ==> meta[i]->0 < caps.len()
}

/// Whether the bit vectors all have `width` limbs.
pub open spec fn uniform_width(masks: Seq<Vec<u32>>, width: int) -> bool {
    forall|i: int| 0 <= i < masks.len() ==> #[trigger] masks[i]@.len() == width
}

impl SearchContext {
    pub open spec fn n(&self) -> int {
        self.masks@.len() as int
    }

    pub open spec fn wf(&self) -> bool {
        let n = self.n();
        &&& n <= usize::MAX
        &&& uniform_width(self.masks@, self.width as int)
        &&& self.n1@.len() == n
        &&& self.n2@.len() == n
        &&& self.meta@.len() == n
        &&& forall|i: int| 0 <= i < n ==> sorted_strict(#[trigger] self.n1@[i]@)
        &&& forall|i: int| 0 <= i < n ==> sorted_strict(#[trigger] self.n2@[i]@)
        &&& lists_in_range(self.n1@, n)
        &&& lists_in_range(self.n2@, n)
        &&& labels_known(self.meta@, self.caps@)
        &&& self.subset@.len() == n
        &&& forall|i: int| 0 <= i < n ==> #[trigger] self.subset@[i]@.len() == n
        &&& forall|i: int, j: int|
            0 <= i < n && 0 <= j < n ==> #[trigger] self.subset@[i]@[j] == (i != j && related(
                self.masks@,
                i,
                j,
            ))
        &&& table_of(self.n1_table@, self.n1@, n)
        &&& table_of(self.n2_table@, self.n2@, n)
    }

    pub open spec fn in_n1(&self, i: int, j: int) -> bool {
        self.n1@[i]@.contains(j as usize)
    }

    pub open spec fn in_n2(&self, i: int, j: int) -> bool {
        self.n2@[i]@.contains(j as usize)
    }
}

/// The first inconsistency of the inputs of a search context, if any.
pub open spec fn init_error(
    masks: Seq<Vec<u32>>,
    n1: Seq<Vec<usize>>,
    n2: Seq<Vec<usize>>,
    meta: Seq<Option<usize>>,
    caps: Seq<usize>,
) -> Option<InitError> {
    let n = masks.len() as int;
    if n > 0 && !uniform_width(masks, masks[0]@.len() as int) {
        Some(InitError::MaskWidth)
    } else if n1.len() != n || n2.len() != n || meta.len() != n {
        Some(InitError::LengthMismatch)
    } else if !lists_in_range(n1, n) || !lists_in_range(n2, n) {
        Some(InitError::IndexOutOfRange)
    } else if !labels_known(meta, caps) {
        Some(InitError::UnknownLabel)
    } else {
        None
    }
}

/// Sets `row[x]` for every `x` of `list`, or returns `None` where `list`
/// names an index of `n` or more.
fn table_row(list: &Vec<usize>, n: usize) -> (r: Option<Vec<bool>>)
    ensures
        r is Some <==> forall|x: int| 0 <= x < list@.len() ==> #[trigger] list@[x] < n,
        r is Some ==> r->0@.len() == n,
        r is Some ==> forall|j: int| 0 <= j < n ==> #[trigger] r->0@[j] == list@.contains(j as usize),
{
    let mut row: Vec<bool> = Vec::new();
    let mut j: usize = 0;
    while j < n
        invariant
            j <= n,
            row@.len() == j,
            forall|b: int| 0 <= b < j ==> !#[trigger] row@[b],
        decreases n - j,
    {
        row.push(false);
        j = j + 1;
    }
    let mut p: usize = 0;
    while p < list.len()
        invariant
            p <= list@.len(),
            row@.len() == n,
            forall|x: int| 0 <= x < p ==> #[trigger] list@[x] < n,
            forall|b: int|
                0 <= b < n ==> #[trigger] row@[b] == list@.subrange(0, p as int).contains(b as usize),
        decreases list@.len() - p,
    {
        let x = list[p];
        if x >= n {
            return None;
        }
        row.set(x, true);
        proof {
            let pre = list@.subrange(0, p as int);
            let post = list@.subrange(0, p as int + 1);
            assert(post =~= pre.push(x));
            assert forall|b: int| 0 <= b < n implies #[trigger] row@[b] == post.contains(b as usize) by {
                if b == x {
                    assert(post[p as int] == x);
                }
                if pre.contains(b as usize) {
                    let y = choose|y: int| 0 <= y < pre.len() && pre[y] == b as usize;
                    assert(post[y] == b as usize);
                }
                if post.contains(b as usize) && b != x {
                    let y = choose|y: int| 0 <= y < post.len() && post[y] == b as usize;
                    assert(pre[y] == b as usize);
                }
            }
        }
        p = p + 1;
    }
    assert(list@.subrange(0, list@.len() as int) =~= list@);
    Some(row)
}

/// The dense table of a family of adjacency lists, or `None` where a list
/// names an index of `n` or more.
fn table_of_lists(lists: &Vec<Vec<usize>>, n: usize) -> (r: Option<Vec<Vec<bool>>>)
    requires
        lists@.len() == n,
    ensures
        r is Some <==> lists_in_range(lists@, n as int),
        r is Some ==> table_of(r->0@, lists@, n as int),
{
    let mut t: Vec<Vec<bool>> = Vec::new();
    let mut i: usize = 0;
    while i < n
        invariant
            lists@.len() == n,
            i <= n,
            t@.len() == i,
            forall|a: int| 0 <= a < i ==> #[trigger] t@[a]@.len() == n,
            forall|a: int, b: int|
                0 <= a < i && 0 <= b < n ==> #[trigger] t@[a]@[b] == lists@[a]@.contains(b as usize),
            forall|a: int, x: int|
                0 <= a < i && 0 <= x < lists@[a]@.len() ==> #[trigger] lists@[a]@[x] < n,
        decreases n - i,
    {
        match table_row(&lists[i], n) {
            Some(row) => {
                t.push(row);
            },
            None => {
                return None;
            },
        }
        i = i + 1;
    }
    Some(t)
}

/// The sorted list of the indices set in a table row.
fn list_of_row(row: &Vec<bool>) -> (l: Vec<usize>)
    ensures
        sorted_strict(l@),
        forall|x: int| 0 <= x < l@.len() ==> #[trigger] l@[x] < row@.len(),
        forall|j: usize| #[trigger] l@.contains(j) <==> (j < row@.len() && row@[j as int]),
{
    let mut l: Vec<usize> = Vec::new();
    let mut j: usize = 0;
    while j < row.len()
        invariant
            j <= row@.len(),
            sorted_strict(l@),
            forall|x: int| 0 <= x < l@.len() ==> #[trigger] l@[x] < j,
            forall|b: usize| #[trigger] l@.contains(b) <==> (b < j && row@[b as int]),
        decreases row@.len() - j,
    {
        let ghost old_l = l@;
        if row[j] {
            l.push(j);
            assert(l@.last() == j);
        }
        proof {
            lemma_push_contains(old_l, l@, j);
        }
        j = j + 1;
    }
    l
}

/// The subset-relation table: `t[i][j]` iff `i != j` and one word set
/// contains the other.
fn subset_table(masks: &Vec<Vec<u32>>) -> (t: Vec<Vec<bool>>)
    ensures
        t@.len() == masks@.len(),
        forall|i: int| 0 <= i < masks@.len() ==> #[trigger] t@[i]@.len() == masks@.len(),
        forall|i: int, j: int|
            0 <= i < masks@.len() && 0 <= j < masks@.len() ==> #[trigger] t@[i]@[j] == (i != j
                && related(masks@, i, j)),
{
    let n = masks.len();
    let mut t: Vec<Vec<bool>> = Vec::new();
    let mut i: usize = 0;
    while i < n
        invariant
            n == masks@.len(),
            i <= n,
            t@.len() == i,
            forall|a: int| 0 <= a < i ==> #[trigger] t@[a]@.len() == n,
            forall|a: int, b: int|
                0 <= a < i && 0 <= b < n ==> #[trigger] t@[a]@[b] == (a != b && related(masks@, a, b)),
        decreases n - i,
    {
        let mut row: Vec<bool> = Vec::new();
        let mut j: usize = 0;
        while j < n
            invariant
                n == masks@.len(),
                i < n,
                j <= n,
                row@.len() == j,
                forall|b: int| 0 <= b < j ==> #[trigger] row@[b] == (i != b && related(masks@, i as int, b)),
            decreases n - j,
        {
            row.push(i != j && related_pair(masks[i].as_slice(), masks[j].as_slice()));
            j = j + 1;
        }
        t.push(row);
        i = i + 1;
    }
    t
}

impl SearchContext {
    /// Checks the inputs of a worker and builds its context: adjacency lists
    /// are sorted and freed of duplicates, and the subset and adjacency
    /// tables are derived.
    pub fn new(
        masks: Vec<Vec<u32>>,
        n1: Vec<Vec<usize>>,
        n2: Vec<Vec<usize>>,
        meta: Vec<Option<usize>>,
        caps: Vec<usize>,
    ) -> (r: Result<SearchContext, InitError>)
        ensures
            match r {
                Ok(ctx) => {
                    &&& init_error(masks@, n1@, n2@, meta@, caps@) is None
                    &&& ctx.wf()
                    &&& ctx.masks@ == masks@
                    &&& ctx.meta@ == meta@
                    &&& ctx.caps@ == caps@
                    &&& forall|i: int, j: usize|
                        0 <= i < masks@.len() ==> (#[trigger] ctx.n1@[i]@.contains(j)
                            <==> n1@[i]@.contains(j))
                    &&& forall|i: int, j: usize|
                        0 <= i < masks@.len() ==> (#[trigger] ctx.n2@[i]@.contains(j)
                            <==> n2@[i]@.contains(j))
                },
                Err(e) => init_error(masks@, n1@, n2@, meta@, caps@) == Some(e),
            },
    {
        let n = masks.len();
        let width: usize = if n > 0 {
            masks[0].len()
        } else {
            0
        };
        let mut i: usize = 0;
        while i < n
            invariant
                n == masks@.len(),
                n > 0 ==> width == masks@[0]@.len(),
                i <= n,
                forall|a: int| 0 <= a < i ==> #[trigger] masks@[a]@.len() == width,
            decreases n - i,
        {
            if masks[i].len() != width {
                return Err(InitError::MaskWidth);
            }
            i = i + 1;
        }
        if n1.len() != n || n2.len() != n || meta.len() != n {
            return Err(InitError::LengthMismatch);
        }
        let t1 = match table_of_lists(&n1, n) {
            Some(t) => t,
            None => {
                return Err(InitError::IndexOutOfRange);
            },
        };
        let t2 = match table_of_lists(&n2, n) {
            Some(t) => t,
            None => {
                return Err(InitError::IndexOutOfRange);
            },
        };
        let mut i: usize = 0;
        while i < n
            invariant
                n == meta@.len(),
                n == masks@.len(),
                n1@.len() == n,
                n2@.len() == n,
                n > 0 ==> width == masks@[0]@.len(),
                uniform_width(masks@, width as int),
                lists_in_range(n1@, n as int),
                lists_in_range(n2@, n as int),
                i <= n,
                forall|a: int| 0 <= a < i && #[trigger] meta@[a] is Some ==> meta@[a]->0 < caps@.len(),
            decreases n - i,
        {
            match meta[i] {
                Some(l) => {
                    if l >= caps.len() {
                        return Err(InitError::UnknownLabel);
                    }
                },
                None => {},
            }
            i = i + 1;
        }
        let mut s1: Vec<Vec<usize>> = Vec::new();
        let mut s2: Vec<Vec<usize>> = Vec::new();
        let mut i: usize = 0;
        while i < n
            invariant
                n == masks@.len(),
                n1@.len() == n,
                n2@.len() == n,
                table_of(t1@, n1@, n as int),
                table_of(t2@, n2@, n as int),
                lists_in_range(n1@, n as int),
                lists_in_range(n2@, n as int),
                i <= n,
                s1@.len() == i,
                s2@.len() == i,
                forall|a: int| 0 <= a < i ==> sorted_strict(#[trigger] s1@[a]@),
                forall|a: int| 0 <= a < i ==> sorted_strict(#[trigger] s2@[a]@),
                forall|a: int, x: int|
                    0 <= a < i && 0 <= x < s1@[a]@.len() ==> #[trigger] s1@[a]@[x] < n,
                forall|a: int, x: int|
                    0 <= a < i && 0 <= x < s2@[a]@.len() ==> #[trigger] s2@[a]@[x] < n,
                forall|a: int, j: usize|
                    0 <= a < i ==> (#[trigger] s1@[a]@.contains(j) <==> n1@[a]@.contains(j)),
                forall|a: int, j: usize|
                    0 <= a < i ==> (#[trigger] s2@[a]@.contains(j) <==> n2@[a]@.contains(j)),
            decreases n - i,
        {
            let l1 = list_of_row(&t1[i]);
            let l2 = list_of_row(&t2[i]);
            proof {
                assert forall|j: usize| #[trigger] l1@.contains(j) <==> n1@[i as int]@.contains(j) by {
                    if n1@[i as int]@.contains(j) {
                        let x = choose|x: int| 0 <= x < n1@[i as int]@.len() && n1@[i as int]@[x] == j;
                        assert(n1@[i as int]@[x] < n);
                    }
                }
                assert forall|j: usize| #[trigger] l2@.contains(j) <==> n2@[i as int]@.contains(j) by {
                    if n2@[i as int]@.contains(j) {
                        let x = choose|x: int| 0 <= x < n2@[i as int]@.len() && n2@[i as int]@[x] == j;
                        assert(n2@[i as int]@[x] < n);
                    }
                }
            }
            s1.push(l1);
            s2.push(l2);
            i = i + 1;
        }
        let subset = subset_table(&masks);
        let ctx = SearchContext {
            masks,
            width,
            n1: s1,
            n2: s2,
            meta,
            caps,
            subset,
            n1_table: t1,
            n2_table: t2,
        };
        assert(table_of(ctx.n1_table@, ctx.n1@, n as int));
        assert(table_of(ctx.n2_table@, ctx.n2@, n as int));
        Ok(ctx)
    }
}

} // verus!
