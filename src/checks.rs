//! Word-level and meta-label checks over the categories selected for a grid.

use vstd::prelude::*;
use crate::context::SearchContext;

verus! {

/// Number of rows, and of columns, in a grid.
pub const GRID_SIDE: usize = 4;

// ---------------------------------------------------------------------------
// Word-level checks over selected categories
// ---------------------------------------------------------------------------

/// Limb `k` of the union of the selected categories, leaving out positions
/// `s1` and `s2` of the selection.
pub open spec fn or_except(ms: Seq<Vec<u32>>, sel: Seq<usize>, s1: int, s2: int, k: int) -> u32
    decreases sel.len(),
{
    if sel.len() == 0 {
        0
    } else {
        let rest = or_except(ms, sel.drop_last(), s1, s2, k);
        let p = sel.len() - 1;
        if p == s1 || p == s2 {
            rest
        } else {
            rest | ms[sel[p] as int]@[k]
        }
    }
}

/// Limb `k` of the words of selected category `r` that no other selected
/// category has.
pub open spec fn own_words(ms: Seq<Vec<u32>>, sel: Seq<usize>, r: int, k: int) -> u32 {
    ms[sel[r] as int]@[k] & !or_except(ms, sel, r, r, k)
}

/// Limb `k` of the words shared by selected categories `a` and `b` that no
/// other selected category has.
pub open spec fn cell_words(ms: Seq<Vec<u32>>, sel: Seq<usize>, a: int, b: int, k: int) -> u32 {
    (ms[sel[a] as int]@[k] & ms[sel[b] as int]@[k]) & !or_except(ms, sel, a, b, k)
}

/// Selected category `r` has a word that no other selected category has.
pub open spec fn has_own(ms: Seq<Vec<u32>>, width: int, sel: Seq<usize>, r: int) -> bool {
    exists|k: int| 0 <= k < width && #[trigger] own_words(ms, sel, r, k) != 0
}

/// Selected categories `a` and `b` share a word that no other selected
/// category has.
pub open spec fn has_cell(ms: Seq<Vec<u32>>, width: int, sel: Seq<usize>, a: int, b: int) -> bool {
    exists|k: int| 0 <= k < width && #[trigger] cell_words(ms, sel, a, b, k) != 0
}

/// Each row keeps a word that the other rows do not explain.
pub open spec fn rows_exclusive(ms: Seq<Vec<u32>>, width: int, rows: Seq<usize>) -> bool {
    forall|r: int| 0 <= r < rows.len() ==> #[trigger] has_own(ms, width, rows, r)
}

/// The selection of rows followed by columns.
pub open spec fn grid_sel(rows: Seq<usize>, cols: Seq<usize>) -> Seq<usize> {
    rows + cols
}

/// Every cell has a word of its row and column and of no other of the
/// grid's categories.
pub open spec fn cells_unique(ms: Seq<Vec<u32>>, width: int, rows: Seq<usize>, cols: Seq<usize>) -> bool {
    forall|r: int, c: int|
        0 <= r < rows.len() && 0 <= c < cols.len() ==> #[trigger] has_cell(
            ms,
            width,
            grid_sel(rows, cols),
            r,
            rows.len() + c,
        )
}

/// How many of the selected categories carry meta label `l`.
pub open spec fn count_label(meta: Seq<Option<usize>>, sel: Seq<usize>, l: usize) -> nat
    decreases sel.len(),
{
    if sel.len() == 0 {
        0
    } else {
        count_label(meta, sel.drop_last(), l) + if meta[sel.last() as int] == Some(l) {
            1nat
        } else {
            0nat
        }
    }
}

/// No meta label of the selection occurs more often than its cap allows.
pub open spec fn within_caps(meta: Seq<Option<usize>>, caps: Seq<usize>, sel: Seq<usize>) -> bool {
    forall|t: int|
        0 <= t < sel.len() && (#[trigger] meta[sel[t] as int]) is Some ==> count_label(
            meta,
            sel,
            meta[sel[t] as int]->0,
        ) <= caps[meta[sel[t] as int]->0 as int]
}

pub open spec fn all_below(sel: Seq<usize>, n: int) -> bool {
    forall|t: int| 0 <= t < sel.len() ==> #[trigger] sel[t] < n
}

pub(crate) proof fn lemma_prefix_step(sel: Seq<usize>, o: int)
    requires
        0 <= o < sel.len(),
    ensures
        sel.subrange(0, o + 1).drop_last() == sel.subrange(0, o),
        sel.subrange(0, o + 1).last() == sel[o],
{
    assert(sel.subrange(0, o + 1).drop_last() =~= sel.subrange(0, o));
}

/// Limb `k` of the union of the selection without positions `s1` and `s2`.
fn or_except_limb(ctx: &SearchContext, sel: &Vec<usize>, s1: usize, s2: usize, k: usize) -> (r: u32)
    requires
        ctx.wf(),
        all_below(sel@, ctx.n()),
        k < ctx.width,
    ensures
        r == or_except(ctx.masks@, sel@, s1 as int, s2 as int, k as int),
{
    let mut acc: u32 = 0;
    let mut o: usize = 0;
    while o < sel.len()
        invariant
            ctx.wf(),
            all_below(sel@, ctx.n()),
            k < ctx.width,
            o <= sel@.len(),
            acc == or_except(ctx.masks@, sel@.subrange(0, o as int), s1 as int, s2 as int, k as int),
        decreases sel@.len() - o,
    {
        proof {
            lemma_prefix_step(sel@, o as int);
        }
        if o != s1 && o != s2 {
            acc = acc | ctx.masks[sel[o]][k];
        }
        o = o + 1;
    }
    assert(sel@.subrange(0, sel@.len() as int) =~= sel@);
    acc
}

/// Whether selected category `r` keeps a word that no other selected
/// category has.
fn has_own_word(ctx: &SearchContext, sel: &Vec<usize>, r: usize) -> (b: bool)
    requires
        ctx.wf(),
        all_below(sel@, ctx.n()),
        r < sel@.len(),
    ensures
        b == has_own(ctx.masks@, ctx.width as int, sel@, r as int),
{
    let mut k: usize = 0;
    while k < ctx.width
        invariant
            ctx.wf(),
            all_below(sel@, ctx.n()),
            r < sel@.len(),
            k <= ctx.width,
            forall|t: int| 0 <= t < k ==> #[trigger] own_words(ctx.masks@, sel@, r as int, t) == 0,
        decreases ctx.width - k,
    {
        let other = or_except_limb(ctx, sel, r, r, k);
        if (ctx.masks[sel[r]][k] & !other) != 0 {
            assert(own_words(ctx.masks@, sel@, r as int, k as int) != 0);
            return true;
        }
        k = k + 1;
    }
    false
}

/// Whether the cell of selected categories `a` and `b` keeps a word that no
/// other selected category has.
fn has_cell_word(ctx: &SearchContext, sel: &Vec<usize>, a: usize, b: usize) -> (res: bool)
    requires
        ctx.wf(),
        all_below(sel@, ctx.n()),
        a < sel@.len(),
        b < sel@.len(),
    ensures
        res == has_cell(ctx.masks@, ctx.width as int, sel@, a as int, b as int),
{
    let mut k: usize = 0;
    while k < ctx.width
        invariant
            ctx.wf(),
            all_below(sel@, ctx.n()),
            a < sel@.len(),
            b < sel@.len(),
            k <= ctx.width,
            forall|t: int|
                0 <= t < k ==> #[trigger] cell_words(ctx.masks@, sel@, a as int, b as int, t) == 0,
        decreases ctx.width - k,
    {
        let other = or_except_limb(ctx, sel, a, b, k);
        if ((ctx.masks[sel[a]][k] & ctx.masks[sel[b]][k]) & !other) != 0 {
            assert(cell_words(ctx.masks@, sel@, a as int, b as int, k as int) != 0);
            return true;
        }
        k = k + 1;
    }
    false
}

/// Whether each of the four rows keeps a word that the other three rows do
/// not explain.
pub fn excl(rows: &[usize; 4], ctx: &SearchContext) -> (b: bool)
    requires
        ctx.wf(),
        all_below(rows@, ctx.n()),
    ensures
        b == rows_exclusive(ctx.masks@, ctx.width as int, rows@),
{
    let sel: Vec<usize> = vec![rows[0], rows[1], rows[2], rows[3]];
    assert(sel@ =~= rows@);
    let mut r: usize = 0;
    while r < GRID_SIDE
        invariant
            ctx.wf(),
            all_below(rows@, ctx.n()),
            sel@ == rows@,
            r <= 4,
            forall|t: int| 0 <= t < r ==> #[trigger] has_own(ctx.masks@, ctx.width as int, rows@, t),
        decreases 4 - r,
    {
        if !has_own_word(ctx, &sel, r) {
            return false;
        }
        r = r + 1;
    }
    true
}

/// Whether every cell of the grid keeps a word of its row and column that
/// none of the other six categories has.
pub fn cells_have_unique_words(rows: &[usize; 4], cols: &[usize; 4], ctx: &SearchContext) -> (b: bool)
    requires
        ctx.wf(),
        all_below(rows@, ctx.n()),
        all_below(cols@, ctx.n()),
    ensures
        b == cells_unique(ctx.masks@, ctx.width as int, rows@, cols@),
{
    let sel: Vec<usize> = vec![rows[0], rows[1], rows[2], rows[3], cols[0], cols[1], cols[2], cols[3]];
    assert(sel@ =~= grid_sel(rows@, cols@));
    let mut r: usize = 0;
    while r < GRID_SIDE
        invariant
            ctx.wf(),
            sel@ == grid_sel(rows@, cols@),
            all_below(sel@, ctx.n()),
            r <= 4,
            forall|a: int, c: int|
                0 <= a < r && 0 <= c < 4 ==> #[trigger] has_cell(ctx.masks@, ctx.width as int, sel@, a, 4 + c),
        decreases 4 - r,
    {
        let mut c: usize = 0;
        while c < GRID_SIDE
            invariant
                ctx.wf(),
                sel@ == grid_sel(rows@, cols@),
                all_below(sel@, ctx.n()),
                r < 4,
                c <= 4,
                forall|a: int, d: int|
                    0 <= a < r && 0 <= d < 4 ==> #[trigger] has_cell(ctx.masks@, ctx.width as int, sel@, a, 4 + d),
                forall|d: int|
                    0 <= d < c ==> #[trigger] has_cell(ctx.masks@, ctx.width as int, sel@, r as int, 4 + d),
            decreases 4 - c,
        {
            if !has_cell_word(ctx, &sel, r, 4 + c) {
                assert(!cells_unique(ctx.masks@, ctx.width as int, rows@, cols@)) by {
                    assert(rows@.len() == 4);
                    assert(!has_cell(ctx.masks@, ctx.width as int, grid_sel(rows@, cols@), r as int, rows@.len() + c));
                }
                return false;
            }
            c = c + 1;
        }
        r = r + 1;
    }
    assert(cells_unique(ctx.masks@, ctx.width as int, rows@, cols@)) by {
        assert(rows@.len() == 4 && cols@.len() == 4);
        assert forall|a: int, c: int| 0 <= a < 4 && 0 <= c < 4 implies #[trigger] has_cell(
            ctx.masks@,
            ctx.width as int,
            grid_sel(rows@, cols@),
            a,
            rows@.len() + c,
        ) by {
            assert(has_cell(ctx.masks@, ctx.width as int, sel@, a, 4 + c));
        }
    }
    true
}

/// Counts the selected categories that carry meta label `l`.
fn count_label_exec(ctx: &SearchContext, sel: &Vec<usize>, l: usize) -> (c: usize)
    requires
        ctx.wf(),
        all_below(sel@, ctx.n()),
    ensures
        c == count_label(ctx.meta@, sel@, l),
{
    let mut c: usize = 0;
    let mut u: usize = 0;
    while u < sel.len()
        invariant
            ctx.wf(),
            all_below(sel@, ctx.n()),
            u <= sel@.len(),
            c <= u,
            c == count_label(ctx.meta@, sel@.subrange(0, u as int), l),
        decreases sel@.len() - u,
    {
        proof {
            lemma_prefix_step(sel@, u as int);
        }
        if ctx.meta[sel[u]] == Some(l) {
            c = c + 1;
        }
        u = u + 1;
    }
    assert(sel@.subrange(0, sel@.len() as int) =~= sel@);
    c
}

/// Whether no meta label of the selection exceeds its cap.
fn meta_within_caps(ctx: &SearchContext, sel: &Vec<usize>) -> (b: bool)
    requires
        ctx.wf(),
        all_below(sel@, ctx.n()),
    ensures
        b == within_caps(ctx.meta@, ctx.caps@, sel@),
{
    let mut t: usize = 0;
    while t < sel.len()
        invariant
            ctx.wf(),
            all_below(sel@, ctx.n()),
            t <= sel@.len(),
            forall|x: int|
                0 <= x < t && (#[trigger] ctx.meta@[sel@[x] as int]) is Some ==> count_label(
                    ctx.meta@,
                    sel@,
                    ctx.meta@[sel@[x] as int]->0,
                ) <= ctx.caps@[ctx.meta@[sel@[x] as int]->0 as int],
        decreases sel@.len() - t,
    {
        match ctx.meta[sel[t]] {
            Some(l) => {
                let c = count_label_exec(ctx, sel, l);
                if c > ctx.caps[l] {
                    return false;
                }
            },
            None => {},
        }
        t = t + 1;
    }
    true
}

/// Whether the four rows alone respect the meta caps.
pub fn check_rows_meta(rows: &[usize; 4], ctx: &SearchContext) -> (b: bool)
    requires
        ctx.wf(),
        all_below(rows@, ctx.n()),
    ensures
        b == within_caps(ctx.meta@, ctx.caps@, rows@),
{
    let sel: Vec<usize> = vec![rows[0], rows[1], rows[2], rows[3]];
    assert(sel@ =~= rows@);
    meta_within_caps(ctx, &sel)
}

/// Whether the eight categories of a grid respect the meta caps.
pub fn check_meta_constraint(rows: &[usize; 4], cols: &[usize; 4], ctx: &SearchContext) -> (b: bool)
    requires
        ctx.wf(),
        all_below(rows@, ctx.n()),
        all_below(cols@, ctx.n()),
    ensures
        b == within_caps(ctx.meta@, ctx.caps@, grid_sel(rows@, cols@)),
{
    let sel: Vec<usize> = vec![rows[0], rows[1], rows[2], rows[3], cols[0], cols[1], cols[2], cols[3]];
    assert(sel@ =~= grid_sel(rows@, cols@));
    meta_within_caps(ctx, &sel)
}

proof fn lemma_counted_label_occurs(meta: Seq<Option<usize>>, sel: Seq<usize>, l: usize)
    requires
        count_label(meta, sel, l) > 0,
    ensures
        exists|t: int| 0 <= t < sel.len() && meta[sel[t] as int] == Some(l),
    decreases sel.len(),
{
    if meta[sel.last() as int] != Some(l) {
        lemma_counted_label_occurs(meta, sel.drop_last(), l);
        let t = choose|t: int| 0 <= t < sel.len() - 1 && meta[sel.drop_last()[t] as int] == Some(l);
        assert(sel[t] == sel.drop_last()[t]);
    }
}

/// Respecting the caps position by position bounds the count of every meta
/// label by its cap.
pub proof fn lemma_caps_bound_every_label(
    meta: Seq<Option<usize>>,
    caps: Seq<usize>,
    sel: Seq<usize>,
    l: usize,
)
    requires
        within_caps(meta, caps, sel),
    ensures
        count_label(meta, sel, l) == 0 || count_label(meta, sel, l) <= caps[l as int],
{
    if count_label(meta, sel, l) > 0 {
        lemma_counted_label_occurs(meta, sel, l);
        let t = choose|t: int| 0 <= t < sel.len() && meta[sel[t] as int] == Some(l);
        assert(meta[sel[t] as int] is Some);
    }
}

} // verus!
