//! The grid search engine: enumerates row quadruples in the two-hop graph,
//! derives their column candidates, and keeps the grids whose every cell
//! holds a word unique to its row and column.

use vstd::prelude::*;
use crate::graph::sorted_strict;
use crate::context::SearchContext;
use crate::checks::{
    GRID_SIDE, all_below, cells_unique, check_meta_constraint, check_rows_meta, cells_have_unique_words,
    count_label, excl, grid_sel, has_cell, has_own, lemma_caps_bound_every_label, rows_exclusive,
    within_caps, lemma_prefix_step,
};

verus! {

// ---------------------------------------------------------------------------
// Grids and their enumeration
// ---------------------------------------------------------------------------

/// What a work unit reports.
#[derive(Debug, Clone, Copy, PartialEq, Eq)]
pub enum Event {
    /// `progress` of the `total` secondary indices of `anchor` are done.
    Tick { anchor: usize, progress: usize, total: usize },
    /// A grid that passed every check.
    Found { rows: [usize; 4], cols: [usize; 4] },
}

pub open spec fn increasing(s: Seq<usize>) -> bool {
    forall|a: int, b: int| 0 <= a < b < s.len() ==> s[a] < s[b]
}

/// Four increasing categories, each a two-hop neighbour of every earlier one.
pub open spec fn two_hop_clique(ctx: SearchContext, s: Seq<usize>) -> bool {
    &&& s.len() == 4
    &&& all_below(s, ctx.n())
    &&& increasing(s)
    &&& forall|a: int, b: int| 0 <= a < b < 4 ==> #[trigger] ctx.in_n2(s[a] as int, s[b] as int)
}

/// `c` can be a column for these rows: it shares a word with every row, is
/// none of them, and is subset-related to none of them.
pub open spec fn is_col_cand(ctx: SearchContext, rows: Seq<usize>, c: int) -> bool {
    &&& 0 <= c < ctx.n()
    &&& forall|r: int| 0 <= r < 4 ==> #[trigger] ctx.in_n1(rows[r] as int, c)
    &&& forall|r: int| 0 <= r < 4 ==> #[trigger] rows[r] != c
    &&& forall|r: int| 0 <= r < 4 ==> !#[trigger] ctx.subset@[rows[r] as int]@[c]
}

/// The rows own their grid: every column candidate comes after the anchor,
/// so a grid and its transpose are found once, under the smaller anchor.
pub open spec fn anchor_first(ctx: SearchContext, rows: Seq<usize>) -> bool {
    forall|c: int| #[trigger] is_col_cand(ctx, rows, c) ==> c > rows[0]
}

/// The row quadruple passes every check that does not depend on columns.
pub open spec fn rows_ok(ctx: SearchContext, rows: Seq<usize>) -> bool {
    &&& two_hop_clique(ctx, rows)
    &&& rows_exclusive(ctx.masks@, ctx.width as int, rows)
    &&& within_caps(ctx.meta@, ctx.caps@, rows)
    &&& anchor_first(ctx, rows)
}

/// A grid that the search emits.
pub open spec fn valid_grid(ctx: SearchContext, rows: Seq<usize>, cols: Seq<usize>) -> bool {
    &&& rows_ok(ctx, rows)
    &&& two_hop_clique(ctx, cols)
    &&& forall|t: int| 0 <= t < 4 ==> #[trigger] is_col_cand(ctx, rows, cols[t] as int)
    &&& cols[0] > rows[0]
    &&& within_caps(ctx.meta@, ctx.caps@, grid_sel(rows, cols))
    &&& cells_unique(ctx.masks@, ctx.width as int, rows, cols)
}

/// Every grid among the events is valid, with its anchor in `[lo, hi)`.
pub open spec fn events_ok(ctx: SearchContext, lo: int, hi: int, evs: Seq<Event>) -> bool {
    forall|e: int|
        0 <= e < evs.len() ==> match #[trigger] evs[e] {
            Event::Found { rows, cols } => valid_grid(ctx, rows@, cols@) && lo <= rows[0] < hi,
            Event::Tick { progress, total, .. } => progress <= total,
        }
}

/// The sorted column candidates of a row quadruple.
///
/// The one-hop list of the anchor is filtered through the dense one-hop
/// table of the other rows, which keeps its order.
pub fn column_candidates(rows: &[usize; 4], ctx: &SearchContext) -> (cand: Vec<usize>)
    requires
        ctx.wf(),
        all_below(rows@, ctx.n()),
    ensures
        sorted_strict(cand@),
        forall|x: int| 0 <= x < cand@.len() ==> #[trigger] cand@[x] < ctx.n(),
        forall|c: usize| #[trigger] cand@.contains(c) <==> is_col_cand(*ctx, rows@, c as int),
{
    let base = &ctx.n1[rows[0]];
    let mut cand: Vec<usize> = Vec::new();
    let mut p: usize = 0;
    while p < base.len()
        invariant
            ctx.wf(),
            all_below(rows@, ctx.n()),
            *base == ctx.n1@[rows@[0] as int],
            p <= base@.len(),
            sorted_strict(cand@),
            forall|x: int| 0 <= x < cand@.len() ==> #[trigger] cand@[x] < ctx.n(),
            forall|x: int| 0 <= x < cand@.len() && p < base@.len() ==> #[trigger] cand@[x] < base@[p as int],
            forall|c: usize|
                #[trigger] cand@.contains(c) <==> (base@.subrange(0, p as int).contains(c)
                    && is_col_cand(*ctx, rows@, c as int)),
        decreases base@.len() - p,
    {
        let c = base[p];
        let mut keep = true;
        let mut r: usize = 0;
        while r < GRID_SIDE
            invariant
                ctx.wf(),
                all_below(rows@, ctx.n()),
                c < ctx.n(),
                r <= 4,
                keep <==> forall|t: int|
                    0 <= t < r ==> ctx.in_n1(rows@[t] as int, c as int) && rows@[t] != c
                        && !ctx.subset@[rows@[t] as int]@[c as int],
            decreases 4 - r,
        {
            let x = rows[r];
            if !ctx.n1_table[x][c] || x == c || ctx.subset[x][c] {
                keep = false;
            }
            r = r + 1;
        }
        let ghost old_cand = cand@;
        if keep {
            cand.push(c);
            assert(cand@.last() == c);
        }
        proof {
            crate::graph::lemma_push_contains(old_cand, cand@, c);
            lemma_prefix_step(base@, p as int);
            let pre = base@.subrange(0, p as int);
            let post = base@.subrange(0, p as int + 1);
            assert(post =~= pre.push(c));
            assert forall|d: usize| #[trigger] post.contains(d) <==> (pre.contains(d) || d == c) by {
                crate::graph::lemma_push_contains(pre, post, c);
            }
            if keep {
                assert(is_col_cand(*ctx, rows@, c as int));
            } else {
                assert(!is_col_cand(*ctx, rows@, c as int));
            }
        }
        p = p + 1;
    }
    proof {
        assert(base@.subrange(0, base@.len() as int) =~= base@);
        assert forall|c: usize| #[trigger] cand@.contains(c) <==> is_col_cand(*ctx, rows@, c as int) by {
            if is_col_cand(*ctx, rows@, c as int) {
                assert(ctx.in_n1(rows@[0] as int, c as int));
            }
        }
    }
    cand
}

/// `a` is below `b` in lexicographic order, compared over the length of `b`.
pub open spec fn lt_prefix(a: Seq<usize>, b: Seq<usize>) -> bool {
    exists|p: int| 0 <= p < b.len() && p < a.len() && #[trigger] differs_first_at(a, b, p)
}

/// `a` and `b` agree before position `p`, where `a` is smaller.
pub open spec fn differs_first_at(a: Seq<usize>, b: Seq<usize>, p: int) -> bool {
    a.subrange(0, p) == b.subrange(0, p) && a[p] < b[p]
}

/// The eight category indices of a reported grid, rows first.
pub open spec fn event_key(ev: Event) -> Seq<usize> {
    match ev {
        Event::Found { rows, cols } => grid_sel(rows@, cols@),
        Event::Tick { .. } => Seq::empty(),
    }
}

/// The reported grids come in strictly increasing order of their keys.
pub open spec fn found_sorted(evs: Seq<Event>) -> bool {
    forall|e1: int, e2: int|
        0 <= e1 < e2 < evs.len() && evs[e1] is Found && evs[e2] is Found ==> lt_prefix(
            #[trigger] event_key(evs[e1]),
            #[trigger] event_key(evs[e2]),
        )
}

/// Every reported grid's key is below `b`.
pub open spec fn found_below(evs: Seq<Event>, b: Seq<usize>) -> bool {
    forall|e: int| 0 <= e < evs.len() && evs[e] is Found ==> lt_prefix(#[trigger] event_key(evs[e]), b)
}

proof fn lemma_lt_extend(a: Seq<usize>, b: Seq<usize>, v: usize)
    requires
        lt_prefix(a, b),
    ensures
        lt_prefix(a, b.push(v)),
{
    let p = choose|p: int| 0 <= p < b.len() && p < a.len() && #[trigger] differs_first_at(a, b, p);
    assert(b.push(v).subrange(0, p) =~= b.subrange(0, p));
    assert(differs_first_at(a, b.push(v), p));
}

proof fn lemma_lt_bump(a: Seq<usize>, pre: Seq<usize>, v: usize, v2: usize)
    requires
        lt_prefix(a, pre.push(v)),
        v <= v2,
    ensures
        lt_prefix(a, pre.push(v2)),
{
    let b = pre.push(v);
    let p = choose|p: int| 0 <= p < b.len() && p < a.len() && #[trigger] differs_first_at(a, b, p);
    assert(pre.push(v2).subrange(0, p) =~= b.subrange(0, p));
    assert(differs_first_at(a, pre.push(v2), p));
}

proof fn lemma_lt_lift(a: Seq<usize>, pre: Seq<usize>, v: usize, u: usize, v2: usize)
    requires
        lt_prefix(a, pre.push(v).push(u)),
        v < v2,
    ensures
        lt_prefix(a, pre.push(v2)),
{
    let b = pre.push(v).push(u);
    let p = choose|p: int| 0 <= p < b.len() && p < a.len() && #[trigger] differs_first_at(a, b, p);
    let q = pre.len() as int;
    if p <= q {
        assert(pre.push(v2).subrange(0, p) =~= b.subrange(0, p));
        assert(differs_first_at(a, pre.push(v2), p));
    } else {
        assert(a.subrange(0, p)[q] == b.subrange(0, p)[q]);
        assert(a[q] == v);
        assert(a.subrange(0, q) =~= a.subrange(0, p).subrange(0, q));
        assert(pre.push(v2).subrange(0, q) =~= b.subrange(0, p).subrange(0, q));
        assert(differs_first_at(a, pre.push(v2), q));
    }
}

proof fn lemma_lt_of_prefix(a: Seq<usize>, pre: Seq<usize>, v: usize)
    requires
        a.len() > pre.len(),
        a.subrange(0, pre.len() as int) == pre,
        a[pre.len() as int] < v,
    ensures
        lt_prefix(a, pre.push(v)),
{
    let q = pre.len() as int;
    assert(pre.push(v).subrange(0, q) =~= pre);
    assert(differs_first_at(a, pre.push(v), q));
}

/// Keys in strict order are distinct.
pub proof fn lemma_lt_distinct(a: Seq<usize>, b: Seq<usize>)
    requires
        lt_prefix(a, b),
    ensures
        a != b,
{
    let p = choose|p: int| 0 <= p < b.len() && p < a.len() && #[trigger] differs_first_at(a, b, p);
}

proof fn lemma_below_weaken(evs: Seq<Event>, pre: Seq<usize>, v: usize, v2: usize)
    requires
        found_below(evs, pre.push(v)),
        v <= v2,
    ensures
        found_below(evs, pre.push(v2)),
{
    assert forall|e: int| 0 <= e < evs.len() && evs[e] is Found implies lt_prefix(#[trigger] event_key(evs[e]), pre.push(v2)) by {
        lemma_lt_bump(event_key(evs[e]), pre, v, v2);
    }
}

proof fn lemma_below_extend(evs: Seq<Event>, b: Seq<usize>, v: usize)
    requires
        found_below(evs, b),
    ensures
        found_below(evs, b.push(v)),
{
    assert forall|e: int| 0 <= e < evs.len() && evs[e] is Found implies lt_prefix(#[trigger] event_key(evs[e]), b.push(v)) by {
        lemma_lt_extend(event_key(evs[e]), b, v);
    }
}

proof fn lemma_below_lift(evs: Seq<Event>, pre: Seq<usize>, v: usize, u: usize, v2: usize)
    requires
        found_below(evs, pre.push(v).push(u)),
        v < v2,
    ensures
        found_below(evs, pre.push(v2)),
{
    assert forall|e: int| 0 <= e < evs.len() && evs[e] is Found implies lt_prefix(#[trigger] event_key(evs[e]), pre.push(v2)) by {
        lemma_lt_lift(event_key(evs[e]), pre, v, u, v2);
    }
}

/// Appending a tick keeps the order and the bound of the reported grids.
proof fn lemma_order_push_tick(evs: Seq<Event>, b: Seq<usize>, anchor: usize, progress: usize, total: usize)
    requires
        found_sorted(evs),
        found_below(evs, b),
    ensures
        found_sorted(evs.push(Event::Tick { anchor, progress, total })),
        found_below(evs.push(Event::Tick { anchor, progress, total }), b),
{
    let next = evs.push(Event::Tick { anchor, progress, total });
    assert forall|e1: int, e2: int|
        0 <= e1 < e2 < next.len() && next[e1] is Found && next[e2] is Found implies lt_prefix(
        #[trigger] event_key(next[e1]),
        #[trigger] event_key(next[e2]),
    ) by {
        assert(next[e1] == evs[e1]);
        assert(next[e2] == evs[e2]);
    }
    assert forall|e: int| 0 <= e < next.len() && next[e] is Found implies lt_prefix(#[trigger] event_key(next[e]), b) by {
        assert(next[e] == evs[e]);
    }
}

/// Appending a grid whose key is the bound keeps the order, and the new
/// bound `pre` then `v2` covers it where the key is `pre` then `w < v2`.
proof fn lemma_order_push_found(evs: Seq<Event>, rows: [usize; 4], cols: [usize; 4], pre: Seq<usize>, w: usize, v2: usize)
    requires
        found_sorted(evs),
        found_below(evs, pre.push(w)),
        grid_sel(rows@, cols@) == pre.push(w),
        w < v2,
    ensures
        found_sorted(evs.push(Event::Found { rows, cols })),
        found_below(evs.push(Event::Found { rows, cols }), pre.push(v2)),
{
    let ev = Event::Found { rows, cols };
    let next = evs.push(ev);
    assert forall|e1: int, e2: int|
        0 <= e1 < e2 < next.len() && next[e1] is Found && next[e2] is Found implies lt_prefix(
        #[trigger] event_key(next[e1]),
        #[trigger] event_key(next[e2]),
    ) by {
        assert(next[e1] == evs[e1]);
        if e2 < evs.len() {
            assert(next[e2] == evs[e2]);
        }
    }
    lemma_below_weaken(evs, pre, w, v2);
    assert forall|e: int| 0 <= e < next.len() && next[e] is Found implies lt_prefix(#[trigger] event_key(next[e]), pre.push(v2)) by {
        if e < evs.len() {
            assert(next[e] == evs[e]);
        } else {
            let k = pre.push(w);
            assert(k.subrange(0, pre.len() as int) =~= pre);
            lemma_lt_of_prefix(k, pre, v2);
        }
    }
}

/// The fixed facts under which the columns of a row quadruple are searched.
pub open spec fn column_search_ready(ctx: SearchContext, rows: Seq<usize>, cand: Seq<usize>) -> bool {
    &&& ctx.wf()
    &&& rows_ok(ctx, rows)
    &&& sorted_strict(cand)
    &&& forall|x: int| 0 <= x < cand.len() ==> #[trigger] cand[x] < ctx.n()
    &&& forall|c: usize| #[trigger] cand.contains(c) <==> is_col_cand(ctx, rows, c as int)
}

/// Event `ev` reports the grid `rows` by `cols`.
pub open spec fn reports(ev: Event, rows: Seq<usize>, cols: Seq<usize>) -> bool {
    match ev {
        Event::Found { rows: r, cols: c } => r@ == rows && c@ == cols,
        Event::Tick { .. } => false,
    }
}

/// Some event reports the grid `rows` by `cols`.
pub open spec fn found_in(evs: Seq<Event>, rows: Seq<usize>, cols: Seq<usize>) -> bool {
    exists|e: int| 0 <= e < evs.len() && #[trigger] reports(evs[e], rows, cols)
}

/// `new` starts with `old`.
pub open spec fn extends(old: Seq<Event>, new: Seq<Event>) -> bool {
    old.len() <= new.len() && new.subrange(0, old.len() as int) == old
}

/// The events from `from` on are valid grids whose first rows are `i`, `j`.
pub open spec fn grids_since(ctx: SearchContext, evs: Seq<Event>, from: int, i: int, j: int) -> bool {
    forall|e: int|
        from <= e < evs.len() ==> match #[trigger] evs[e] {
            Event::Found { rows, cols } => valid_grid(ctx, rows@, cols@) && rows[0] == i && rows[1] == j,
            Event::Tick { .. } => false,
        }
}

proof fn lemma_found_kept(old: Seq<Event>, new: Seq<Event>)
    requires
        extends(old, new),
    ensures
        forall|r: Seq<usize>, c: Seq<usize>| found_in(old, r, c) ==> #[trigger] found_in(new, r, c),
{
    assert forall|r: Seq<usize>, c: Seq<usize>| found_in(old, r, c) implies #[trigger] found_in(new, r, c) by {
        let e = choose|e: int| 0 <= e < old.len() && #[trigger] reports(old[e], r, c);
        assert(new.subrange(0, old.len() as int)[e] == new[e]);
        assert(reports(new[e], r, c));
    }
}

proof fn lemma_extends_push(evs: Seq<Event>, ev: Event)
    ensures
        extends(evs, evs.push(ev)),
{
    assert(evs.push(ev).subrange(0, evs.len() as int) =~= evs);
}

proof fn lemma_extends_trans(a: Seq<Event>, b: Seq<Event>, c: Seq<Event>)
    requires
        extends(a, b),
        extends(b, c),
    ensures
        extends(a, c),
{
    assert(c.subrange(0, a.len() as int) =~= b.subrange(0, a.len() as int));
}

/// `cols` is a grid's column quadruple drawn from `cand`, passing the checks
/// that involve columns.
pub open spec fn col_choice(ctx: SearchContext, rows: Seq<usize>, cand: Seq<usize>, cols: Seq<usize>) -> bool {
    &&& two_hop_clique(ctx, cols)
    &&& forall|t: int| 0 <= t < 4 ==> #[trigger] cand.contains(cols[t])
    &&& within_caps(ctx.meta@, ctx.caps@, grid_sel(rows, cols))
    &&& cells_unique(ctx.masks@, ctx.width as int, rows, cols)
}

/// Every column choice that starts with `pre` and continues below `lim` is
/// reported.
pub open spec fn cols_done(
    ctx: SearchContext,
    rows: Seq<usize>,
    cand: Seq<usize>,
    evs: Seq<Event>,
    pre: Seq<usize>,
    lim: int,
) -> bool {
    forall|cols: Seq<usize>|
        #[trigger] col_choice(ctx, rows, cand, cols) && cols.subrange(0, pre.len() as int) == pre && (
        pre.len() < 4 ==> cols[pre.len() as int] < lim) ==> found_in(evs, rows, cols)
}

/// The bound that position `k` of a sorted list sets.
pub open spec fn limit_at(s: Seq<usize>, k: int, n: int) -> int {
    if k < s.len() {
        s[k] as int
    } else {
        n
    }
}

proof fn lemma_member_index(s: Seq<usize>, x: usize) -> (t: int)
    requires
        s.contains(x),
    ensures
        0 <= t < s.len(),
        s[t] == x,
{
    choose|t: int| 0 <= t < s.len() && s[t] == x
}

/// A column choice with prefix `pre` cannot continue below the entry after
/// the prefix's last element.
proof fn lemma_cols_enter(
    ctx: SearchContext,
    rows: Seq<usize>,
    cand: Seq<usize>,
    evs: Seq<Event>,
    pre: Seq<usize>,
    k: int,
)
    requires
        column_search_ready(ctx, rows, cand),
        pre.len() < 4,
        0 <= k <= cand.len(),
        (pre.len() == 0 && k == 0) || (pre.len() > 0 && k >= 1 && pre.last() == cand[k - 1]),
    ensures
        cols_done(ctx, rows, cand, evs, pre, limit_at(cand, k, ctx.n())),
{
    assert forall|cols: Seq<usize>|
        #[trigger] col_choice(ctx, rows, cand, cols) && cols.subrange(0, pre.len() as int) == pre && (
        pre.len() < 4 ==> cols[pre.len() as int] < limit_at(cand, k, ctx.n())) implies found_in(
        evs,
        rows,
        cols,
    ) by {
        let p = pre.len() as int;
        assert(cand.contains(cols[p]));
        let t = lemma_member_index(cand, cols[p]);
        if p > 0 {
            assert(cols[p - 1] == cols.subrange(0, p)[p - 1]);
            assert(cols[p - 1] < cols[p]);
            if t < k {
                assert(cand[t] <= cand[k - 1]);
            }
        }
        if k < cand.len() {
            if t >= k {
                assert(cand[t] >= cand[k]);
            }
        } else {
            assert(cols[p] < ctx.n());
            assert(t < k);
        }
    }
}

/// Having reported every choice with `pre` below `cand[k]` and every choice
/// with `pre` then `cand[k]`, every choice with `pre` below the next bound is
/// reported.
proof fn lemma_cols_advance(
    ctx: SearchContext,
    rows: Seq<usize>,
    cand: Seq<usize>,
    evs: Seq<Event>,
    pre: Seq<usize>,
    k: int,
)
    requires
        column_search_ready(ctx, rows, cand),
        pre.len() < 4,
        0 <= k < cand.len(),
        cols_done(ctx, rows, cand, evs, pre, cand[k] as int),
        cols_done(ctx, rows, cand, evs, pre.push(cand[k]), ctx.n()),
    ensures
        cols_done(ctx, rows, cand, evs, pre, limit_at(cand, k + 1, ctx.n())),
{
    assert forall|cols: Seq<usize>|
        #[trigger] col_choice(ctx, rows, cand, cols) && cols.subrange(0, pre.len() as int) == pre && (
        pre.len() < 4 ==> cols[pre.len() as int] < limit_at(cand, k + 1, ctx.n())) implies found_in(
        evs,
        rows,
        cols,
    ) by {
        let p = pre.len() as int;
        assert(cand.contains(cols[p]));
        let t = lemma_member_index(cand, cols[p]);
        if cols[p] >= cand[k] {
            if t > k {
                assert(cand[t] >= cand[k + 1]);
            }
            if t < k {
                assert(cand[t] < cand[k]);
            }
            assert(cols.subrange(0, p + 1) =~= pre.push(cand[k]));
            if p + 1 < 4 {
                assert(cols[p + 1] < ctx.n());
            }
        }
    }
}

proof fn lemma_cols_grow(
    ctx: SearchContext,
    rows: Seq<usize>,
    cand: Seq<usize>,
    old: Seq<Event>,
    new: Seq<Event>,
    pre: Seq<usize>,
    lim: int,
)
    requires
        extends(old, new),
        cols_done(ctx, rows, cand, old, pre, lim),
    ensures
        cols_done(ctx, rows, cand, new, pre, lim),
{
    lemma_found_kept(old, new);
}

/// Appends every grid over these rows whose columns are a two-hop clique of
/// four candidates and which passes the meta caps and cell uniqueness.
fn search_columns(ctx: &SearchContext, rows: &[usize; 4], cand: &Vec<usize>, out: &mut Vec<Event>)
    requires
        column_search_ready(*ctx, rows@, cand@),
        found_sorted(old(out)@),
        found_below(old(out)@, rows@),
    ensures
        found_sorted(final(out)@),
        found_below(final(out)@, rows@.push(ctx.n() as usize)),
        extends(old(out)@, final(out)@),
        grids_since(*ctx, final(out)@, old(out)@.len() as int, rows@[0] as int, rows@[1] as int),
        forall|cols: Seq<usize>| #[trigger] col_choice(*ctx, rows@, cand@, cols) ==> found_in(final(out)@, rows@, cols),
{
    let ghost out0 = out@;
    let ghost n = ctx.n();
    let ghost e0 = Seq::<usize>::empty();
    let m = cand.len();
    proof {
        assert(extends(out0, out@)) by {
            assert(out@.subrange(0, out0.len() as int) =~= out0);
        }
        lemma_cols_enter(*ctx, rows@, cand@, out@, e0, 0);
        lemma_below_extend(out@, rows@, limit_at(cand@, 0, n) as usize);
    }
    let mut a: usize = 0;
    while a < m
        invariant
            column_search_ready(*ctx, rows@, cand@),
            m == cand@.len(),
            n == ctx.n(),
            e0 == Seq::<usize>::empty(),
            a <= m,
            extends(out0, out@),
            grids_since(*ctx, out@, out0.len() as int, rows@[0] as int, rows@[1] as int),
            cols_done(*ctx, rows@, cand@, out@, e0, limit_at(cand@, a as int, n)),
            found_sorted(out@),
            found_below(out@, rows@.push(limit_at(cand@, a as int, n) as usize)),
        decreases m - a,
    {
        let x = cand[a];
        let ghost px = seq![x];
        proof {
            assert(e0.push(x) =~= px);
            lemma_cols_enter(*ctx, rows@, cand@, out@, px, a as int + 1);
            assert(rows@ + px =~= rows@.push(x));
            lemma_below_extend(out@, rows@ + px, limit_at(cand@, a as int + 1, n) as usize);
        }
        let mut b: usize = a + 1;
        while b < m
            invariant
                column_search_ready(*ctx, rows@, cand@),
                m == cand@.len(),
                n == ctx.n(),
                e0 == Seq::<usize>::empty(),
                a < m,
                x == cand@[a as int],
                px == seq![x],
                a < b <= m,
                extends(out0, out@),
                grids_since(*ctx, out@, out0.len() as int, rows@[0] as int, rows@[1] as int),
                cols_done(*ctx, rows@, cand@, out@, e0, x as int),
                cols_done(*ctx, rows@, cand@, out@, px, limit_at(cand@, b as int, n)),
                found_sorted(out@),
                found_below(out@, (rows@ + px).push(limit_at(cand@, b as int, n) as usize)),
            decreases m - b,
        {
            let y = cand[b];
            let ghost pxy = seq![x, y];
            proof {
                assert(px.push(y) =~= pxy);
                assert(rows@ + pxy =~= (rows@ + px).push(y));
            }
            if ctx.n2_table[x][y] {
                proof {
                    lemma_cols_enter(*ctx, rows@, cand@, out@, pxy, b as int + 1);
                    lemma_below_extend(out@, rows@ + pxy, limit_at(cand@, b as int + 1, n) as usize);
                }
                let mut c: usize = b + 1;
                while c < m
                    invariant
                        column_search_ready(*ctx, rows@, cand@),
                        m == cand@.len(),
                        n == ctx.n(),
                        e0 == Seq::<usize>::empty(),
                        a < b < m,
                        x == cand@[a as int],
                        y == cand@[b as int],
                        px == seq![x],
                        pxy == seq![x, y],
                        ctx.in_n2(x as int, y as int),
                        b < c <= m,
                        extends(out0, out@),
                        grids_since(*ctx, out@, out0.len() as int, rows@[0] as int, rows@[1] as int),
                        cols_done(*ctx, rows@, cand@, out@, e0, x as int),
                        cols_done(*ctx, rows@, cand@, out@, px, y as int),
                        cols_done(*ctx, rows@, cand@, out@, pxy, limit_at(cand@, c as int, n)),
                        rows@ + pxy == (rows@ + px).push(y),
                        found_sorted(out@),
                        found_below(out@, (rows@ + pxy).push(limit_at(cand@, c as int, n) as usize)),
                    decreases m - c,
                {
                    let z = cand[c];
                    let ghost pxyz = seq![x, y, z];
                    proof {
                        assert(pxy.push(z) =~= pxyz);
                        assert(rows@ + pxyz =~= (rows@ + pxy).push(z));
                    }
                    if ctx.n2_table[x][z] && ctx.n2_table[y][z] {
                        proof {
                            lemma_cols_enter(*ctx, rows@, cand@, out@, pxyz, c as int + 1);
                            lemma_below_extend(out@, rows@ + pxyz, limit_at(cand@, c as int + 1, n) as usize);
                        }
                        let mut d: usize = c + 1;
                        while d < m
                            invariant
                                column_search_ready(*ctx, rows@, cand@),
                                m == cand@.len(),
                                n == ctx.n(),
                                e0 == Seq::<usize>::empty(),
                                a < b < c < m,
                                x == cand@[a as int],
                                y == cand@[b as int],
                                z == cand@[c as int],
                                px == seq![x],
                                pxy == seq![x, y],
                                pxyz == seq![x, y, z],
                                ctx.in_n2(x as int, y as int),
                                ctx.in_n2(x as int, z as int),
                                ctx.in_n2(y as int, z as int),
                                c < d <= m,
                                extends(out0, out@),
                                grids_since(*ctx, out@, out0.len() as int, rows@[0] as int, rows@[1] as int),
                                cols_done(*ctx, rows@, cand@, out@, e0, x as int),
                                cols_done(*ctx, rows@, cand@, out@, px, y as int),
                                cols_done(*ctx, rows@, cand@, out@, pxy, z as int),
                                cols_done(*ctx, rows@, cand@, out@, pxyz, limit_at(cand@, d as int, n)),
                                rows@ + pxy == (rows@ + px).push(y),
                                rows@ + pxyz == (rows@ + pxy).push(z),
                                found_sorted(out@),
                                found_below(out@, (rows@ + pxyz).push(limit_at(cand@, d as int, n) as usize)),
                            decreases m - d,
                        {
                            let w = cand[d];
                            let cols: [usize; 4] = [x, y, z, w];
                            let ghost old_out = out@;
                            proof {
                                assert(cand@.contains(x));
                                assert(cand@.contains(y));
                                assert(cand@.contains(z));
                                assert(cand@.contains(w));
                                assert(cols@ =~= seq![x, y, z, w]);
                                assert(pxyz.push(w) =~= cols@);
                                assert(grid_sel(rows@, cols@) =~= (rows@ + pxyz).push(w));
                            }
                            let keep = ctx.n2_table[x][w] && ctx.n2_table[y][w] && ctx.n2_table[z][w]
                                && check_meta_constraint(rows, &cols, ctx)
                                && cells_have_unique_words(rows, &cols, ctx);
                            if keep {
                                proof {
                                    assert(two_hop_clique(*ctx, cols@));
                                    assert(forall|t: int|
                                        0 <= t < 4 ==> #[trigger] is_col_cand(
                                            *ctx,
                                            rows@,
                                            cols@[t] as int,
                                        ));
                                    assert(x > rows[0]);
                                    assert(valid_grid(*ctx, rows@, cols@));
                                }
                                out.push(Event::Found { rows: *rows, cols });
                                proof {
                                    lemma_order_push_found(old_out, *rows, cols, rows@ + pxyz, w, limit_at(cand@, d as int + 1, n) as usize);
                                    lemma_extends_push(old_out, Event::Found { rows: *rows, cols });
                                    lemma_extends_trans(out0, old_out, out@);
                                    assert(reports(out@[old_out.len() as int], rows@, cols@));
                                    lemma_cols_grow(*ctx, rows@, cand@, old_out, out@, e0, x as int);
                                    lemma_cols_grow(*ctx, rows@, cand@, old_out, out@, px, y as int);
                                    lemma_cols_grow(*ctx, rows@, cand@, old_out, out@, pxy, z as int);
                                    lemma_cols_grow(*ctx, rows@, cand@, old_out, out@, pxyz, w as int);
                                    assert forall|e: int|
                                        out0.len() <= e < out@.len() implies match #[trigger] out@[e] {
                                        Event::Found { rows: r, cols: c } => valid_grid(*ctx, r@, c@) && r[0]
                                            == rows@[0] && r[1] == rows@[1],
                                        Event::Tick { .. } => false,
                                    } by {
                                        if e < old_out.len() {
                                            assert(out@[e] == old_out[e]);
                                        }
                                    }
                                }
                            }
                            proof {
                                assert(cols_done(*ctx, rows@, cand@, out@, pxyz.push(w), n)) by {
                                    assert forall|cs: Seq<usize>|
                                        #[trigger] col_choice(*ctx, rows@, cand@, cs) && cs.subrange(0, 4) == cols@
                                        implies found_in(out@, rows@, cs) by {
                                        assert(cs =~= cols@);
                                        if !keep {
                                            assert(cs[3] == w);
                                            assert(ctx.in_n2(cs[0] as int, cs[3] as int));
                                            assert(ctx.in_n2(cs[1] as int, cs[3] as int));
                                            assert(ctx.in_n2(cs[2] as int, cs[3] as int));
                                        } else {
                                            assert(reports(out@[old_out.len() as int], rows@, cs));
                                        }
                                    }
                                }
                                lemma_cols_advance(*ctx, rows@, cand@, out@, pxyz, d as int);
                                if !keep {
                                    lemma_below_weaken(out@, rows@ + pxyz, w, limit_at(cand@, d as int + 1, n) as usize);
                                }
                            }
                            d = d + 1;
                        }
                        proof {
                            lemma_below_lift(out@, rows@ + pxy, z, n as usize, limit_at(cand@, c as int + 1, n) as usize);
                        }
                    } else {
                        proof {
                            lemma_below_weaken(out@, rows@ + pxy, z, limit_at(cand@, c as int + 1, n) as usize);
                            assert(cols_done(*ctx, rows@, cand@, out@, pxyz, n)) by {
                                assert forall|cs: Seq<usize>|
                                    #[trigger] col_choice(*ctx, rows@, cand@, cs) && cs.subrange(0, 3) == pxyz
                                    implies found_in(out@, rows@, cs) by {
                                    assert(cs[0] == cs.subrange(0, 3)[0]);
                                    assert(cs[1] == cs.subrange(0, 3)[1]);
                                    assert(cs[2] == cs.subrange(0, 3)[2]);
                                    assert(ctx.in_n2(cs[0] as int, cs[2] as int));
                                    assert(ctx.in_n2(cs[1] as int, cs[2] as int));
                                }
                            }
                        }
                    }
                    proof {
                        lemma_cols_advance(*ctx, rows@, cand@, out@, pxy, c as int);
                    }
                    c = c + 1;
                }
                proof {
                    lemma_below_lift(out@, rows@ + px, y, n as usize, limit_at(cand@, b as int + 1, n) as usize);
                }
            } else {
                proof {
                    lemma_below_weaken(out@, rows@ + px, y, limit_at(cand@, b as int + 1, n) as usize);
                    assert(cols_done(*ctx, rows@, cand@, out@, pxy, n)) by {
                        assert forall|cs: Seq<usize>|
                            #[trigger] col_choice(*ctx, rows@, cand@, cs) && cs.subrange(0, 2) == pxy
                            implies found_in(out@, rows@, cs) by {
                            assert(cs[0] == cs.subrange(0, 2)[0]);
                            assert(cs[1] == cs.subrange(0, 2)[1]);
                            assert(ctx.in_n2(cs[0] as int, cs[1] as int));
                        }
                    }
                }
            }
            proof {
                lemma_cols_advance(*ctx, rows@, cand@, out@, px, b as int);
            }
            b = b + 1;
        }
        proof {
            lemma_cols_advance(*ctx, rows@, cand@, out@, e0, a as int);
            lemma_below_lift(out@, rows@, x, n as usize, limit_at(cand@, a as int + 1, n) as usize);
        }
        a = a + 1;
    }
    proof {
        assert forall|cols: Seq<usize>| #[trigger] col_choice(*ctx, rows@, cand@, cols) implies found_in(
            out@,
            rows@,
            cols,
        ) by {
            assert(cols.subrange(0, 0) =~= e0);
            assert(cand@.contains(cols[0]));
        }
    }
}


/// The entries of `list` above `above` that are two-hop neighbours of `hub`,
/// in the order of `list`.
fn two_hop_after(ctx: &SearchContext, list: &Vec<usize>, above: usize, hub: usize) -> (r: Vec<usize>)
    requires
        ctx.wf(),
        hub < ctx.n(),
        sorted_strict(list@),
        forall|x: int| 0 <= x < list@.len() ==> #[trigger] list@[x] < ctx.n(),
    ensures
        sorted_strict(r@),
        forall|x: int| 0 <= x < r@.len() ==> #[trigger] r@[x] < ctx.n(),
        forall|x: usize|
            #[trigger] r@.contains(x) <==> (list@.contains(x) && x > above && ctx.in_n2(hub as int, x as int)),
{
    let mut r: Vec<usize> = Vec::new();
    let mut p: usize = 0;
    while p < list.len()
        invariant
            ctx.wf(),
            hub < ctx.n(),
            sorted_strict(list@),
            forall|x: int| 0 <= x < list@.len() ==> #[trigger] list@[x] < ctx.n(),
            p <= list@.len(),
            sorted_strict(r@),
            forall|x: int| 0 <= x < r@.len() ==> #[trigger] r@[x] < ctx.n(),
            forall|x: int| 0 <= x < r@.len() && p < list@.len() ==> #[trigger] r@[x] < list@[p as int],
            forall|x: usize|
                #[trigger] r@.contains(x) <==> (list@.subrange(0, p as int).contains(x) && x > above
                    && ctx.in_n2(hub as int, x as int)),
        decreases list@.len() - p,
    {
        let x = list[p];
        let ghost old_r = r@;
        if x > above && ctx.n2_table[hub][x] {
            r.push(x);
            assert(r@.last() == x);
        }
        proof {
            crate::graph::lemma_push_contains(old_r, r@, x);
            let pre = list@.subrange(0, p as int);
            let post = list@.subrange(0, p as int + 1);
            assert(post =~= pre.push(x));
            crate::graph::lemma_push_contains(pre, post, x);
        }
        p = p + 1;
    }
    assert(list@.subrange(0, list@.len() as int) =~= list@);
    r
}

/// The two-hop neighbours of `i` above `i`, in the order of its list.
pub open spec fn later_n2(ctx: SearchContext, i: int) -> Seq<usize> {
    ctx.n2@[i]@.filter(|x: usize| x > i)
}

/// The two-hop neighbours of `i` above `i`: the secondary indices of anchor `i`.
fn later_neighbours(ctx: &SearchContext, i: usize) -> (r: Vec<usize>)
    requires
        ctx.wf(),
        i < ctx.n(),
    ensures
        r@ == later_n2(*ctx, i as int),
        sorted_strict(r@),
        forall|x: int|
            0 <= x < r@.len() ==> #[trigger] r@[x] < ctx.n() && r@[x] > i && ctx.in_n2(i as int, r@[x] as int),
{
    let list = &ctx.n2[i];
    let ghost f = |x: usize| x > i;
    let mut r: Vec<usize> = Vec::new();
    let mut p: usize = 0;
    while p < list.len()
        invariant
            ctx.wf(),
            i < ctx.n(),
            *list == ctx.n2@[i as int],
            f == (|x: usize| x > i),
            p <= list@.len(),
            r@ == list@.subrange(0, p as int).filter(f),
            sorted_strict(list@),
            sorted_strict(r@),
            forall|x: int| 0 <= x < r@.len() && p < list@.len() ==> #[trigger] r@[x] < list@[p as int],
            forall|x: int|
                0 <= x < r@.len() ==> #[trigger] r@[x] < ctx.n() && r@[x] > i && ctx.in_n2(i as int, r@[x] as int),
        decreases list@.len() - p,
    {
        let x = list[p];
        proof {
            reveal(Seq::filter);
            lemma_prefix_step(list@, p as int);
            assert(list@.subrange(0, p as int + 1).filter(f) == if f(x) {
                list@.subrange(0, p as int).filter(f).push(x)
            } else {
                list@.subrange(0, p as int).filter(f)
            });
            assert(ctx.n2@[i as int]@.contains(x));
            assert(x < ctx.n());
        }
        if x > i {
            r.push(x);
            assert(r@.last() == x);
        }
        p = p + 1;
    }
    assert(list@.subrange(0, list@.len() as int) =~= list@);
    r
}

/// The secondary sub-range that a work unit asks for: the whole range
/// unless both bounds are given, else the bounds clamped to `total`, with
/// the end never below the start.
pub open spec fn window_of(total: usize, j_start: Option<usize>, j_end: Option<usize>) -> (usize, usize) {
    match (j_start, j_end) {
        (Some(s), Some(e)) => {
            let ps = if s < total {
                s
            } else {
                total
            };
            let pe0 = if e < total {
                e
            } else {
                total
            };
            (ps, if pe0 < ps {
                ps
            } else {
                pe0
            })
        },
        _ => (0usize, total),
    }
}

/// The secondary sub-range `[ps, pe)` of `total` secondary indices.
pub fn j_window(total: usize, j_start: Option<usize>, j_end: Option<usize>) -> (w: (usize, usize))
    ensures
        w == window_of(total, j_start, j_end),
        w.0 <= w.1 <= total,
{
    match (j_start, j_end) {
        (Some(s), Some(e)) => {
            let ps = if s < total {
                s
            } else {
                total
            };
            let pe0 = if e < total {
                e
            } else {
                total
            };
            (ps, if pe0 < ps {
                ps
            } else {
                pe0
            })
        },
        _ => (0, total),
    }
}

/// Whether a progress event is due after `progress` of `total` secondary
/// indices: every second index, and at the end of the range.
pub fn tick_due(progress: usize, total: usize) -> (b: bool)
    ensures
        b == (progress % 2 == 0 || progress == total),
{
    progress % 2 == 0 || progress == total
}

proof fn lemma_sorted_step(s: Seq<usize>, x: usize, k: int, n: int)
    requires
        sorted_strict(s),
        s.contains(x),
        0 <= k < s.len(),
        x < limit_at(s, k + 1, n),
    ensures
        x <= s[k],
{
    let t = lemma_member_index(s, x);
    if t > k {
        assert(s[t] >= s[k + 1]);
    }
    if t < k {
        assert(s[t] < s[k]);
    }
}

proof fn lemma_sorted_enter(s: Seq<usize>, x: usize, n: int)
    requires
        sorted_strict(s),
        s.contains(x),
    ensures
        x >= limit_at(s, 0, n),
{
    let t = lemma_member_index(s, x);
    if t > 0 {
        assert(s[t] > s[0]);
    }
}

proof fn lemma_four_members(s: Seq<usize>, cols: Seq<usize>)
    requires
        sorted_strict(s),
        cols.len() == 4,
        increasing(cols),
        forall|t: int| 0 <= t < 4 ==> #[trigger] s.contains(cols[t]),
    ensures
        s.len() >= 4,
{
    assert(s.contains(cols[0]));
    assert(s.contains(cols[1]));
    assert(s.contains(cols[2]));
    assert(s.contains(cols[3]));
    let t0 = lemma_member_index(s, cols[0]);
    let t1 = lemma_member_index(s, cols[1]);
    let t2 = lemma_member_index(s, cols[2]);
    let t3 = lemma_member_index(s, cols[3]);
    if t1 <= t0 {
        assert(s[t1] <= s[t0]);
    }
    if t2 <= t1 {
        assert(s[t2] <= s[t1]);
    }
    if t3 <= t2 {
        assert(s[t3] <= s[t2]);
    }
}

/// Every valid grid whose rows start `i, j` and continue with a third row
/// below `lim` is reported.
pub open spec fn rows_done(ctx: SearchContext, evs: Seq<Event>, i: int, j: int, lim: int) -> bool {
    forall|rows: Seq<usize>, cols: Seq<usize>|
        #[trigger] valid_grid(ctx, rows, cols) && rows[0] == i && rows[1] == j && rows[2] < lim
            ==> found_in(evs, rows, cols)
}

/// Every valid grid whose rows start `i, j, k` and continue with a fourth
/// row below `lim` is reported.
pub open spec fn rows_done_k(ctx: SearchContext, evs: Seq<Event>, i: int, j: int, k: int, lim: int) -> bool {
    forall|rows: Seq<usize>, cols: Seq<usize>|
        #[trigger] valid_grid(ctx, rows, cols) && rows[0] == i && rows[1] == j && rows[2] == k && rows[3]
            < lim ==> found_in(evs, rows, cols)
}

/// Appends the grids whose first two rows are `i` and `j`.
fn search_pair(ctx: &SearchContext, i: usize, j: usize, out: &mut Vec<Event>)
    requires
        ctx.wf(),
        i < j < ctx.n(),
        ctx.in_n2(i as int, j as int),
        found_sorted(old(out)@),
        found_below(old(out)@, seq![i, j]),
    ensures
        found_sorted(final(out)@),
        found_below(final(out)@, seq![i, j, ctx.n() as usize]),
        extends(old(out)@, final(out)@),
        grids_since(*ctx, final(out)@, old(out)@.len() as int, i as int, j as int),
        forall|rows: Seq<usize>, cols: Seq<usize>|
            #[trigger] valid_grid(*ctx, rows, cols) && rows[0] == i && rows[1] == j ==> found_in(
                final(out)@,
                rows,
                cols,
            ),
{
    let ghost out0 = out@;
    let ghost n = ctx.n();
    let k_list = two_hop_after(ctx, &ctx.n2[i], j, j);
    proof {
        assert(out@.subrange(0, out0.len() as int) =~= out0);
        assert forall|rows: Seq<usize>, cols: Seq<usize>|
            #[trigger] valid_grid(*ctx, rows, cols) && rows[0] == i && rows[1] == j implies k_list@.contains(rows[2]) by {
            assert(ctx.in_n2(rows[0] as int, rows[2] as int));
            assert(ctx.in_n2(rows[1] as int, rows[2] as int));
            assert(rows[1] < rows[2]);
        }
        assert forall|rows: Seq<usize>, cols: Seq<usize>|
            #[trigger] valid_grid(*ctx, rows, cols) && rows[0] == i && rows[1] == j && rows[2] < limit_at(k_list@, 0, n)
            implies found_in(out@, rows, cols) by {
            lemma_sorted_enter(k_list@, rows[2], n);
        }
        lemma_below_extend(out@, seq![i, j], limit_at(k_list@, 0, n) as usize);
    }
    let mut p: usize = 0;
    while p < k_list.len()
        invariant
            ctx.wf(),
            n == ctx.n(),
            i < j < ctx.n(),
            ctx.in_n2(i as int, j as int),
            sorted_strict(k_list@),
            forall|x: int| 0 <= x < k_list@.len() ==> #[trigger] k_list@[x] < ctx.n(),
            forall|x: usize|
                #[trigger] k_list@.contains(x) <==> (ctx.n2@[i as int]@.contains(x) && x > j && ctx.in_n2(
                    j as int,
                    x as int,
                )),
            forall|rows: Seq<usize>, cols: Seq<usize>|
                #[trigger] valid_grid(*ctx, rows, cols) && rows[0] == i && rows[1] == j ==> k_list@.contains(rows[2]),
            p <= k_list@.len(),
            extends(out0, out@),
            grids_since(*ctx, out@, out0.len() as int, i as int, j as int),
            rows_done(*ctx, out@, i as int, j as int, limit_at(k_list@, p as int, n)),
            found_sorted(out@),
            found_below(out@, seq![i, j].push(limit_at(k_list@, p as int, n) as usize)),
        decreases k_list@.len() - p,
    {
        let k = k_list[p];
        proof {
            assert(k_list@.contains(k));
        }
        let l_list = two_hop_after(ctx, &k_list, k, k);
        proof {
            assert forall|rows: Seq<usize>, cols: Seq<usize>|
                #[trigger] valid_grid(*ctx, rows, cols) && rows[0] == i && rows[1] == j && rows[2] == k implies l_list@.contains(rows[3]) by {
                assert(ctx.in_n2(rows[0] as int, rows[3] as int));
                assert(ctx.in_n2(rows[1] as int, rows[3] as int));
                assert(ctx.in_n2(rows[2] as int, rows[3] as int));
                assert(rows[1] < rows[2] && rows[2] < rows[3]);
                assert(k_list@.contains(rows[3]));
            }
            assert forall|rows: Seq<usize>, cols: Seq<usize>|
                #[trigger] valid_grid(*ctx, rows, cols) && rows[0] == i && rows[1] == j && rows[2] == k && rows[3]
                    < limit_at(l_list@, 0, n) implies found_in(out@, rows, cols) by {
                lemma_sorted_enter(l_list@, rows[3], n);
            }
            assert(seq![i, j].push(k) =~= seq![i, j, k]);
            lemma_below_extend(out@, seq![i, j, k], limit_at(l_list@, 0, n) as usize);
        }
        let mut q: usize = 0;
        while q < l_list.len()
            invariant
                ctx.wf(),
                n == ctx.n(),
                i < j < k,
                k < ctx.n(),
                ctx.in_n2(i as int, j as int),
                ctx.in_n2(i as int, k as int),
                ctx.in_n2(j as int, k as int),
                p < k_list@.len(),
                k == k_list@[p as int],
                forall|x: usize|
                    #[trigger] k_list@.contains(x) <==> (ctx.n2@[i as int]@.contains(x) && x > j && ctx.in_n2(
                        j as int,
                        x as int,
                    )),
                sorted_strict(l_list@),
                forall|x: int| 0 <= x < l_list@.len() ==> #[trigger] l_list@[x] < ctx.n(),
                forall|x: usize|
                    #[trigger] l_list@.contains(x) <==> (k_list@.contains(x) && x > k && ctx.in_n2(
                        k as int,
                        x as int,
                    )),
                forall|rows: Seq<usize>, cols: Seq<usize>|
                    #[trigger] valid_grid(*ctx, rows, cols) && rows[0] == i && rows[1] == j && rows[2] == k
                        ==> l_list@.contains(rows[3]),
                q <= l_list@.len(),
                extends(out0, out@),
                grids_since(*ctx, out@, out0.len() as int, i as int, j as int),
                rows_done(*ctx, out@, i as int, j as int, k as int),
                rows_done_k(*ctx, out@, i as int, j as int, k as int, limit_at(l_list@, q as int, n)),
                found_sorted(out@),
                found_below(out@, seq![i, j, k].push(limit_at(l_list@, q as int, n) as usize)),
            decreases l_list@.len() - q,
        {
            let l = l_list[q];
            let rows: [usize; 4] = [i, j, k, l];
            let ghost old_out = out@;
            proof {
                assert(l_list@.contains(l));
                assert(k_list@.contains(l));
                assert(rows@ =~= seq![i, j, k, l]);
                assert(seq![i, j, k].push(l) =~= rows@);
                assert(two_hop_clique(*ctx, rows@));
            }
            if excl(&rows, ctx) && check_rows_meta(&rows, ctx) {
                let cand = column_candidates(&rows, ctx);
                if cand.len() >= GRID_SIDE && cand[0] > i {
                    proof {
                        assert forall|c: int| #[trigger] is_col_cand(*ctx, rows@, c) implies c > rows@[0] by {
                            assert((c as usize) as int == c);
                            assert(is_col_cand(*ctx, rows@, (c as usize) as int));
                            assert(cand@.contains(c as usize));
                            let y = lemma_member_index(cand@, c as usize);
                            if y > 0 {
                                assert(cand@[0] < cand@[y]);
                            }
                        }
                        assert(rows_ok(*ctx, rows@));
                    }
                    search_columns(ctx, &rows, &cand, out);
                    proof {
                        lemma_below_lift(out@, seq![i, j, k], l, n as usize, limit_at(l_list@, q as int + 1, n) as usize);
                        lemma_extends_trans(out0, old_out, out@);
                        assert forall|e: int|
                            out0.len() <= e < out@.len() implies match #[trigger] out@[e] {
                            Event::Found { rows: r, cols: c } => valid_grid(*ctx, r@, c@) && r[0] == i && r[1] == j,
                            Event::Tick { .. } => false,
                        } by {
                            if e < old_out.len() {
                                assert(out@.subrange(0, old_out.len() as int)[e] == out@[e]);
                            }
                        }
                        assert forall|rs: Seq<usize>, cs: Seq<usize>|
                            #[trigger] valid_grid(*ctx, rs, cs) && rs[0] == i && rs[1] == j && rs[2] == k && rs[3] == l
                            implies found_in(out@, rs, cs) by {
                            assert(rs =~= rows@);
                            assert forall|t: int| 0 <= t < 4 implies #[trigger] cand@.contains(cs[t]) by {
                                assert(is_col_cand(*ctx, rows@, cs[t] as int));
                            }
                            assert(col_choice(*ctx, rows@, cand@, cs));
                        }
                    }
                } else {
                    proof {
                        assert forall|rs: Seq<usize>, cs: Seq<usize>|
                            #[trigger] valid_grid(*ctx, rs, cs) && rs[0] == i && rs[1] == j && rs[2] == k && rs[3] == l
                            implies false by {
                            assert(rs =~= rows@);
                            assert forall|t: int| 0 <= t < 4 implies #[trigger] cand@.contains(cs[t]) by {
                                assert(is_col_cand(*ctx, rows@, cs[t] as int));
                            }
                            lemma_four_members(cand@, cs);
                            assert(cand@.contains(cand@[0]));
                            assert(is_col_cand(*ctx, rows@, cand@[0] as int));
                        }
                        assert(out@.subrange(0, old_out.len() as int) =~= old_out);
                        lemma_below_weaken(out@, seq![i, j, k], l, limit_at(l_list@, q as int + 1, n) as usize);
                    }
                }
            } else {
                proof {
                    assert forall|rs: Seq<usize>, cs: Seq<usize>|
                        #[trigger] valid_grid(*ctx, rs, cs) && rs[0] == i && rs[1] == j && rs[2] == k && rs[3] == l
                        implies false by {
                        assert(rs =~= rows@);
                    }
                    assert(out@.subrange(0, old_out.len() as int) =~= old_out);
                    lemma_below_weaken(out@, seq![i, j, k], l, limit_at(l_list@, q as int + 1, n) as usize);
                }
            }
            proof {
                lemma_found_kept(old_out, out@);
                assert forall|rs: Seq<usize>, cs: Seq<usize>|
                    #[trigger] valid_grid(*ctx, rs, cs) && rs[0] == i && rs[1] == j && rs[2] == k && rs[3]
                        < limit_at(l_list@, q as int + 1, n) implies found_in(out@, rs, cs) by {
                    lemma_sorted_step(l_list@, rs[3], q as int, n);
                }
            }
            q = q + 1;
        }
        proof {
            assert forall|rs: Seq<usize>, cs: Seq<usize>|
                #[trigger] valid_grid(*ctx, rs, cs) && rs[0] == i && rs[1] == j && rs[2] < limit_at(
                    k_list@,
                    p as int + 1,
                    n,
                ) implies found_in(out@, rs, cs) by {
                lemma_sorted_step(k_list@, rs[2], p as int, n);
                if rs[2] == k {
                    assert(rs[3] < n);
                }
            }
            assert(seq![i, j].push(k) =~= seq![i, j, k]);
            lemma_below_lift(out@, seq![i, j], k, n as usize, limit_at(k_list@, p as int + 1, n) as usize);
        }
        p = p + 1;
    }
    proof {
        assert forall|rs: Seq<usize>, cs: Seq<usize>|
            #[trigger] valid_grid(*ctx, rs, cs) && rs[0] == i && rs[1] == j implies found_in(out@, rs, cs) by {
            assert(rs[2] < n);
        }
        assert(seq![i, j].push(n as usize) =~= seq![i, j, ctx.n() as usize]);
    }
}

/// The grids that a work unit owns: valid grids whose anchor lies in
/// `[start, end)` and whose second row sits at a secondary index of the
/// unit's window.
pub open spec fn in_unit(
    ctx: SearchContext,
    start: int,
    end: int,
    j_start: Option<usize>,
    j_end: Option<usize>,
    rows: Seq<usize>,
    cols: Seq<usize>,
) -> bool {
    let later = later_n2(ctx, rows[0] as int);
    let w = window_of(later.len() as usize, j_start, j_end);
    &&& valid_grid(ctx, rows, cols)
    &&& start <= rows[0] < end
    &&& exists|jj: int| w.0 <= jj < w.1 && #[trigger] later[jj] == rows[1]
}

/// The events of a work unit so far: its own grids and progress events.
pub open spec fn unit_events(
    ctx: SearchContext,
    start: int,
    end: int,
    j_start: Option<usize>,
    j_end: Option<usize>,
    evs: Seq<Event>,
) -> bool {
    forall|e: int|
        0 <= e < evs.len() ==> match #[trigger] evs[e] {
            Event::Found { rows, cols } => in_unit(ctx, start, end, j_start, j_end, rows@, cols@),
            Event::Tick { progress, total, .. } => progress <= total,
        }
}

proof fn lemma_unit_events_push(
    ctx: SearchContext,
    start: int,
    end: int,
    j_start: Option<usize>,
    j_end: Option<usize>,
    evs: Seq<Event>,
    anchor: usize,
    progress: usize,
    total: usize,
)
    requires
        unit_events(ctx, start, end, j_start, j_end, evs),
        progress <= total,
    ensures
        unit_events(ctx, start, end, j_start, j_end, evs.push(Event::Tick { anchor, progress, total })),
        extends(evs, evs.push(Event::Tick { anchor, progress, total })),
{
    lemma_extends_push(evs, Event::Tick { anchor, progress, total });
    let next = evs.push(Event::Tick { anchor, progress, total });
    assert forall|e: int| 0 <= e < next.len() implies match #[trigger] next[e] {
        Event::Found { rows, cols } => in_unit(ctx, start, end, j_start, j_end, rows@, cols@),
        Event::Tick { progress, total, .. } => progress <= total,
    } by {
        if e < evs.len() {
            assert(next[e] == evs[e]);
        }
    }
}

/// The progress events among `evs`, in order.
pub open spec fn ticks_of(evs: Seq<Event>) -> Seq<Event>
    decreases evs.len(),
{
    if evs.len() == 0 {
        Seq::empty()
    } else {
        ticks_of(evs.drop_last()) + if evs.last() is Tick {
            seq![evs.last()]
        } else {
            Seq::empty()
        }
    }
}

/// The progress events of an anchor with `total` secondary indices, once
/// `done` of them are processed: one after every second index and one after
/// the last.
pub open spec fn anchor_ticks(anchor: usize, total: usize, done: int) -> Seq<Event>
    decreases done,
{
    if done <= 0 {
        Seq::empty()
    } else {
        anchor_ticks(anchor, total, done - 1) + if done % 2 == 0 || done == total {
            seq![Event::Tick { anchor, progress: done as usize, total }]
        } else {
            Seq::empty()
        }
    }
}

/// All progress events of an anchor with `total` secondary indices; an
/// anchor with none still reports that it is complete.
pub open spec fn all_anchor_ticks(anchor: usize, total: usize) -> Seq<Event> {
    anchor_ticks(anchor, total, total as int) + if total == 0 {
        seq![Event::Tick { anchor, progress: 0, total: 0 }]
    } else {
        Seq::empty()
    }
}

/// How many secondary indices of anchor `i` a unit's window covers.
pub open spec fn window_len(ctx: SearchContext, i: int, j_start: Option<usize>, j_end: Option<usize>) -> usize {
    let w = window_of(later_n2(ctx, i).len() as usize, j_start, j_end);
    (w.1 - w.0) as usize
}

/// The progress events of the anchors in `[start, upto)`.
pub open spec fn unit_ticks(
    ctx: SearchContext,
    start: int,
    upto: int,
    j_start: Option<usize>,
    j_end: Option<usize>,
) -> Seq<Event>
    decreases upto - start,
{
    if upto <= start {
        Seq::empty()
    } else {
        unit_ticks(ctx, start, upto - 1, j_start, j_end) + all_anchor_ticks(
            (upto - 1) as usize,
            window_len(ctx, upto - 1, j_start, j_end),
        )
    }
}

proof fn lemma_ticks_push(evs: Seq<Event>, ev: Event)
    ensures
        ticks_of(evs.push(ev)) == ticks_of(evs) + if ev is Tick {
            seq![ev]
        } else {
            Seq::empty()
        },
{
    assert(evs.push(ev).drop_last() =~= evs);
}

proof fn lemma_ticks_grids(old: Seq<Event>, new: Seq<Event>)
    requires
        extends(old, new),
        forall|e: int| old.len() <= e < new.len() ==> !(#[trigger] new[e] is Tick),
    ensures
        ticks_of(new) == ticks_of(old),
    decreases new.len() - old.len(),
{
    if new.len() > old.len() {
        let prev = new.drop_last();
        assert(prev.subrange(0, old.len() as int) =~= new.subrange(0, old.len() as int));
        assert forall|e: int| old.len() <= e < prev.len() implies !(#[trigger] prev[e] is Tick) by {
            assert(prev[e] == new[e]);
        }
        lemma_ticks_grids(old, prev);
        assert(!(new[new.len() - 1] is Tick));
    } else {
        assert(new =~= old);
    }
}

/// The key bound of a progress event: the grids before it are exactly those
/// below its anchor, or at its anchor with a second row before the window
/// index the event has reached.
pub open spec fn tick_bound(
    ctx: SearchContext,
    j_start: Option<usize>,
    j_end: Option<usize>,
    anchor: usize,
    progress: usize,
) -> Seq<usize> {
    let later = later_n2(ctx, anchor as int);
    let w = window_of(later.len() as usize, j_start, j_end);
    seq![anchor, limit_at(later, w.0 + progress, ctx.n()) as usize]
}

/// Each progress event comes after every grid below its bound and before
/// every other grid.
pub open spec fn ticks_placed(ctx: SearchContext, j_start: Option<usize>, j_end: Option<usize>, evs: Seq<Event>) -> bool {
    forall|e: int, f: int|
        #![trigger evs[e], evs[f]]
        0 <= e < evs.len() && 0 <= f < evs.len() && evs[e] is Tick && evs[f] is Found ==> (f < e
            <==> lt_prefix(
            event_key(evs[f]),
            tick_bound(ctx, j_start, j_end, evs[e]->anchor, evs[e]->progress),
        ))
}

proof fn lemma_key_not_below(k: Seq<usize>, b: Seq<usize>)
    requires
        k.len() >= 2,
        b.len() == 2,
        b[0] < k[0] || (b[0] == k[0] && b[1] <= k[1]),
    ensures
        !lt_prefix(k, b),
{
    if lt_prefix(k, b) {
        let p = choose|p: int| 0 <= p < b.len() && p < k.len() && #[trigger] differs_first_at(k, b, p);
        if p == 1 {
            assert(k.subrange(0, 1)[0] == b.subrange(0, 1)[0]);
        }
    }
}

proof fn lemma_place_grids(
    ctx: SearchContext,
    j_start: Option<usize>,
    j_end: Option<usize>,
    before: Seq<Event>,
    after: Seq<Event>,
    i: usize,
    j: usize,
)
    requires
        ticks_placed(ctx, j_start, j_end, before),
        extends(before, after),
        forall|e: int|
            before.len() <= e < after.len() ==> #[trigger] after[e] is Found && after[e]->rows[0] == i
                && after[e]->rows[1] == j,
        forall|e: int|
            0 <= e < before.len() && #[trigger] before[e] is Tick ==> {
                let b = tick_bound(ctx, j_start, j_end, before[e]->anchor, before[e]->progress);
                b[0] < i || (b[0] == i && b[1] <= j)
            },
    ensures
        ticks_placed(ctx, j_start, j_end, after),
{
    assert forall|e: int, f: int|
        #![trigger after[e], after[f]]
        0 <= e < after.len() && 0 <= f < after.len() && after[e] is Tick && after[f] is Found implies (f < e
            <==> lt_prefix(
            event_key(after[f]),
            tick_bound(ctx, j_start, j_end, after[e]->anchor, after[e]->progress),
        )) by {
        assert(e < before.len());
        assert(after[e] == after.subrange(0, before.len() as int)[e]);
        assert(before[e] is Tick);
        if f < before.len() {
            assert(after[f] == after.subrange(0, before.len() as int)[f]);
            assert(before[f] is Found);
        } else {
            let k = event_key(after[f]);
            assert(k[0] == i && k[1] == j);
            lemma_key_not_below(k, tick_bound(ctx, j_start, j_end, after[e]->anchor, after[e]->progress));
        }
    }
}

proof fn lemma_place_tick(
    ctx: SearchContext,
    j_start: Option<usize>,
    j_end: Option<usize>,
    evs: Seq<Event>,
    anchor: usize,
    progress: usize,
    total: usize,
)
    requires
        ticks_placed(ctx, j_start, j_end, evs),
        found_below(evs, tick_bound(ctx, j_start, j_end, anchor, progress)),
    ensures
        ticks_placed(ctx, j_start, j_end, evs.push(Event::Tick { anchor, progress, total })),
{
    let t = Event::Tick { anchor, progress, total };
    let next = evs.push(t);
    assert forall|e: int, f: int|
        #![trigger next[e], next[f]]
        0 <= e < next.len() && 0 <= f < next.len() && next[e] is Tick && next[f] is Found implies (f < e
            <==> lt_prefix(
            event_key(next[f]),
            tick_bound(ctx, j_start, j_end, next[e]->anchor, next[e]->progress),
        )) by {
        assert(f < evs.len());
        assert(next[f] == evs[f]);
        if e < evs.len() {
            assert(next[e] == evs[e]);
        }
    }
}

/// A work unit in progress. Each step reports the events of one secondary
/// index of the current anchor, or the completion of an anchor that has
/// none, so that a caller can pass them on as they come.
pub struct UnitRun {
    pub start: usize,
    pub end: usize,
    pub j_start: Option<usize>,
    pub j_end: Option<usize>,
    /// `end`, clamped to the number of categories.
    pub stop: usize,
    /// The current anchor.
    pub i: usize,
    /// Whether the anchor's secondary indices are loaded and some remain.
    pub open: bool,
    /// The secondary indices of the current anchor.
    pub j_list: Vec<usize>,
    /// The window `[ps, pe)` of `j_list` that the unit covers.
    pub ps: usize,
    pub pe: usize,
    /// The next secondary index to process.
    pub jj: usize,
}

impl UnitRun {
    pub open spec fn anchors_left(&self) -> nat {
        if self.i < self.stop {
            (self.stop - self.i) as nat
        } else {
            0
        }
    }

    pub open spec fn indices_left(&self) -> nat {
        if self.open {
            (self.pe - self.jj) as nat
        } else {
            usize::MAX as nat + 1
        }
    }

    /// The unit has no step left.
    pub open spec fn finished(&self) -> bool {
        !self.open && self.i >= self.stop
    }

    /// What holds between anchors: `out` holds the events of the anchors
    /// before `i`.
    pub open spec fn between_anchors(&self, ctx: SearchContext, out: Seq<Event>) -> bool {
        let (start, end, j_start, j_end, i) = (self.start, self.end, self.j_start, self.j_end, self.i);
        &&& unit_events(ctx, start as int, end as int, j_start, j_end, out)
        &&& forall|rows: Seq<usize>, cols: Seq<usize>|
            #[trigger] in_unit(ctx, start as int, end as int, j_start, j_end, rows, cols) && rows[0] < i
                ==> found_in(out, rows, cols)
        &&& found_sorted(out)
        &&& found_below(out, seq![i])
        &&& ticks_of(out) == unit_ticks(ctx, start as int, i as int, j_start, j_end)
        &&& ticks_placed(ctx, j_start, j_end, out)
        &&& forall|e: int| 0 <= e < out.len() && #[trigger] out[e] is Tick ==> out[e]->anchor < i
    }

    /// What holds inside anchor `i`: `out` holds the events of the earlier
    /// anchors and of the secondary indices before `jj`.
    pub open spec fn within_anchor(&self, ctx: SearchContext, out: Seq<Event>) -> bool {
        let (start, end, j_start, j_end, i) = (self.start, self.end, self.j_start, self.j_end, self.i);
        let (jl, ps, pe, jj) = (self.j_list@, self.ps, self.pe, self.jj);
        let n = ctx.n();
        &&& i < self.stop
        &&& jl == later_n2(ctx, i as int)
        &&& (ps, pe) == window_of(jl.len() as usize, j_start, j_end)
        &&& ps <= jj < pe <= jl.len()
        &&& forall|x: int|
            0 <= x < jl.len() ==> #[trigger] jl[x] < ctx.n() && jl[x] > i && ctx.in_n2(i as int, jl[x] as int)
        &&& sorted_strict(jl)
        &&& found_sorted(out)
        &&& found_below(out, seq![i].push(limit_at(jl, jj as int, n) as usize))
        &&& ticks_of(out) == unit_ticks(ctx, start as int, i as int, j_start, j_end) + anchor_ticks(
            i,
            (pe - ps) as usize,
            jj - ps,
        )
        &&& ticks_placed(ctx, j_start, j_end, out)
        &&& forall|e: int|
            0 <= e < out.len() && #[trigger] out[e] is Tick ==> out[e]->anchor < i || (out[e]->anchor == i
                && out[e]->progress <= jj - ps)
        &&& unit_events(ctx, start as int, end as int, j_start, j_end, out)
        &&& forall|rows: Seq<usize>, cols: Seq<usize>|
            #[trigger] in_unit(ctx, start as int, end as int, j_start, j_end, rows, cols) && rows[0] < i
                ==> found_in(out, rows, cols)
        &&& forall|rows: Seq<usize>, cols: Seq<usize>, x: int|
            #![trigger valid_grid(ctx, rows, cols), jl[x]]
            valid_grid(ctx, rows, cols) && rows[0] == i && ps <= x < jj && jl[x] == rows[1] ==> found_in(
                out,
                rows,
                cols,
            )
    }

    /// `out` holds exactly the events of the steps taken so far.
    pub open spec fn wf(&self, ctx: SearchContext, out: Seq<Event>) -> bool {
        &&& ctx.wf()
        &&& self.stop <= self.end
        &&& self.stop as int == (if self.end < ctx.n() {
            self.end as int
        } else {
            ctx.n()
        })
        &&& self.start <= self.i
        &&& (self.i == self.start || self.i <= self.stop)
        &&& if self.open {
            self.within_anchor(ctx, out)
        } else {
            self.between_anchors(ctx, out)
        }
    }

    /// Starts work unit `[start, end)` with the secondary window given by
    /// `j_start` and `j_end`.
    pub fn new(ctx: &SearchContext, start: usize, end: usize, j_start: Option<usize>, j_end: Option<usize>) -> (r: UnitRun)
        requires
            ctx.wf(),
        ensures
            r.wf(*ctx, Seq::empty()),
            r.start == start,
            r.end == end,
            r.j_start == j_start,
            r.j_end == j_end,
    {
        let n = ctx.masks.len();
        let stop = if end < n {
            end
        } else {
            n
        };
        let r = UnitRun { start, end, j_start, j_end, stop, i: start, open: false, j_list: Vec::new(), ps: 0, pe: 0, jj: 0 };
        proof {
            assert(ticks_of(Seq::<Event>::empty()) == Seq::<Event>::empty());
        }
        r
    }

    /// Closes anchor `i` once its last secondary index is processed, or at
    /// once where it has none; an anchor with none reports its completion.
    fn close_anchor(&mut self, ctx: &SearchContext, out: &mut Vec<Event>, Ghost(jl): Ghost<Seq<usize>>)
        requires
            ctx.wf(),
            old(self).stop <= old(self).end,
            old(self).stop as int == (if old(self).end < ctx.n() {
                old(self).end as int
            } else {
                ctx.n()
            }),
            old(self).start <= old(self).i < old(self).stop,
            old(self).jj == old(self).pe,
            jl == old(self).j_list@,
            ({
                let s = *old(self);
                let o = old(out)@;
                let n = ctx.n();
                &&& jl == later_n2(*ctx, s.i as int)
                &&& (s.ps, s.pe) == window_of(jl.len() as usize, s.j_start, s.j_end)
                &&& s.ps <= s.pe <= jl.len()
                &&& found_sorted(o)
                &&& found_below(o, seq![s.i].push(limit_at(jl, s.jj as int, n) as usize))
                &&& ticks_of(o) == unit_ticks(*ctx, s.start as int, s.i as int, s.j_start, s.j_end)
                    + anchor_ticks(s.i, (s.pe - s.ps) as usize, s.jj - s.ps)
                &&& ticks_placed(*ctx, s.j_start, s.j_end, o)
                &&& forall|e: int|
                    0 <= e < o.len() && #[trigger] o[e] is Tick ==> o[e]->anchor < s.i || (o[e]->anchor == s.i
                        && o[e]->progress <= s.jj - s.ps)
                &&& unit_events(*ctx, s.start as int, s.end as int, s.j_start, s.j_end, o)
                &&& forall|rows: Seq<usize>, cols: Seq<usize>|
                    #[trigger] in_unit(*ctx, s.start as int, s.end as int, s.j_start, s.j_end, rows, cols)
                        && rows[0] < s.i ==> found_in(o, rows, cols)
                &&& forall|rows: Seq<usize>, cols: Seq<usize>, x: int|
                    #![trigger valid_grid(*ctx, rows, cols), jl[x]]
                    valid_grid(*ctx, rows, cols) && rows[0] == s.i && s.ps <= x < s.jj && jl[x] == rows[1]
                        ==> found_in(o, rows, cols)
            }),
        ensures
            final(self).wf(*ctx, final(out)@),
            !final(self).open,
            final(self).i == old(self).i + 1,
            final(self).start == old(self).start,
            final(self).end == old(self).end,
            final(self).j_start == old(self).j_start,
            final(self).j_end == old(self).j_end,
            final(self).stop == old(self).stop,
            extends(old(out)@, final(out)@),
    {
        let i = self.i;
        let ps = self.ps;
        let pe = self.pe;
        let jj = self.jj;
        let start = self.start;
        let end = self.end;
        let j_start = self.j_start;
        let j_end = self.j_end;
        let total = pe - ps;
        let progress = jj - ps;
        let n = ctx.masks.len();
        let ghost out0 = out@;
        if total == 0 || progress != total {
            let ghost mid = out@;
            proof {
                lemma_unit_events_push(*ctx, start as int, end as int, j_start, j_end, out@, i, total, total);
                lemma_order_push_tick(out@, seq![i].push(limit_at(jl, jj as int, n as int) as usize), i, total, total);
                assert(tick_bound(*ctx, j_start, j_end, i, total) =~= seq![i].push(limit_at(jl, jj as int, n as int) as usize));
                lemma_place_tick(*ctx, j_start, j_end, out@, i, total, total);
            }
            out.push(Event::Tick { anchor: i, progress: total, total });
            proof {
                assert forall|e: int| 0 <= e < out@.len() && #[trigger] out@[e] is Tick implies out@[e]->anchor <= i by {
                    if e < mid.len() {
                        assert(out@[e] == mid[e]);
                    }
                }
                lemma_found_kept(mid, out@);
                lemma_ticks_push(mid, Event::Tick { anchor: i, progress: total, total });
            }
        }
        proof {
            assert(progress == total);
            assert(later_n2(*ctx, i as int).len() == jl.len());
            assert(total == window_len(*ctx, i as int, j_start, j_end));
            let base = unit_ticks(*ctx, start as int, i as int, j_start, j_end);
            assert(unit_ticks(*ctx, start as int, i as int + 1, j_start, j_end) == base + all_anchor_ticks(i, total));
            if total == 0 {
                let t0 = Event::Tick { anchor: i, progress: 0, total: 0 };
                assert(all_anchor_ticks(i, total) == anchor_ticks(i, total, 0) + seq![t0]);
                assert(base + anchor_ticks(i, total, 0) + seq![t0] =~= base + (anchor_ticks(i, total, 0) + seq![t0]));
            } else {
                assert(all_anchor_ticks(i, total) == anchor_ticks(i, total, total as int) + Seq::<Event>::empty());
                assert(anchor_ticks(i, total, total as int) + Seq::<Event>::empty() =~= anchor_ticks(i, total, total as int));
            }
        }
        proof {
            assert forall|rows: Seq<usize>, cols: Seq<usize>|
                #[trigger] in_unit(*ctx, start as int, end as int, j_start, j_end, rows, cols) && rows[0] < i + 1
                    implies found_in(out@, rows, cols) by {
                if rows[0] == i {
                    let later = later_n2(*ctx, rows[0] as int);
                    let x = choose|x: int|
                        window_of(later.len() as usize, j_start, j_end).0 <= x < window_of(
                            later.len() as usize,
                            j_start,
                            j_end,
                        ).1 && #[trigger] later[x] == rows[1];
                    assert(jl[x] == rows[1]);
                }
            }
            let lim = limit_at(jl, jj as int, n as int) as usize;
            assert(Seq::<usize>::empty().push(i).push(lim) =~= seq![i].push(lim));
            assert(Seq::<usize>::empty().push((i + 1) as usize) =~= seq![(i + 1) as usize]);
            lemma_below_lift(out@, Seq::<usize>::empty(), i, lim, (i + 1) as usize);
        }
        proof {
            assert(extends(out0, out@)) by {
                assert(out@.subrange(0, out0.len() as int) =~= out0);
            }
        }
        self.i = i + 1;
        self.open = false;
    }

    /// Loads the secondary indices of anchor `i`; an anchor with none is
    /// closed at once.
    fn open_anchor(&mut self, ctx: &SearchContext, out: &mut Vec<Event>)
        requires
            old(self).wf(*ctx, old(out)@),
            !old(self).open,
            old(self).i < old(self).stop,
        ensures
            final(self).wf(*ctx, final(out)@),
            final(self).start == old(self).start,
            final(self).end == old(self).end,
            final(self).j_start == old(self).j_start,
            final(self).j_end == old(self).j_end,
            final(self).stop == old(self).stop,
            extends(old(out)@, final(out)@),
            final(self).open ==> final(self).i == old(self).i,
            !final(self).open ==> final(self).i == old(self).i + 1,
    {
        let n = ctx.masks.len();
        let ghost out0 = out@;
        proof {
            assert(extends(out0, out@)) by {
                assert(out@.subrange(0, out0.len() as int) =~= out0);
            }
        }
        let i = self.i;
        let j_list = later_neighbours(ctx, i);
        let (ps, pe) = j_window(j_list.len(), self.j_start, self.j_end);
        self.j_list = j_list;
        self.ps = ps;
        self.pe = pe;
        self.jj = ps;
        proof {
            let jl = self.j_list@;
            assert(unit_ticks(*ctx, self.start as int, i as int, self.j_start, self.j_end) + anchor_ticks(i, (pe - ps) as usize, 0)
                =~= unit_ticks(*ctx, self.start as int, i as int, self.j_start, self.j_end));
            lemma_below_extend(out@, seq![i], limit_at(jl, ps as int, n as int) as usize);
        }
        if ps == pe {
            let ghost jl = self.j_list@;
            self.close_anchor(ctx, out, Ghost(jl));
            return;
        }
        self.open = true;
    }

    /// Processes secondary index `jj` of the open anchor, closing the anchor
    /// after its last one.
    fn advance(&mut self, ctx: &SearchContext, out: &mut Vec<Event>)
        requires
            old(self).wf(*ctx, old(out)@),
            old(self).open,
        ensures
            final(self).wf(*ctx, final(out)@),
            final(self).start == old(self).start,
            final(self).end == old(self).end,
            final(self).j_start == old(self).j_start,
            final(self).j_end == old(self).j_end,
            final(self).stop == old(self).stop,
            extends(old(out)@, final(out)@),
            final(self).anchors_left() < old(self).anchors_left() || (final(self).anchors_left()
                == old(self).anchors_left() && final(self).indices_left() < old(self).indices_left()),
    {
        let n = ctx.masks.len();
        let i = self.i;
        let ps = self.ps;
        let pe = self.pe;
        let jj = self.jj;
        let start = self.start;
        let end = self.end;
        let j_start = self.j_start;
        let j_end = self.j_end;
        let total = pe - ps;
        let mut progress: usize = jj - ps;
        let ghost jl = self.j_list@;
        let ghost out_open = out@;
        let j = self.j_list[jj];
        let ghost before = out@;
        proof {
            assert(seq![i].push(j) =~= seq![i, j]);
        }
        search_pair(ctx, i, j, out);
        proof {
            assert(seq![i].push(j).push(n as usize) =~= seq![i, j, ctx.n() as usize]);
            lemma_below_lift(out@, seq![i], j, n as usize, limit_at(jl, jj as int + 1, n as int) as usize);
            lemma_found_kept(before, out@);
            lemma_ticks_grids(before, out@);
            assert forall|e: int|
                0 <= e < before.len() && #[trigger] before[e] is Tick implies {
                    let b = tick_bound(*ctx, j_start, j_end, before[e]->anchor, before[e]->progress);
                    b[0] < i || (b[0] == i && b[1] <= j)
                } by {
                if before[e]->anchor == i {
                    let x = ps + before[e]->progress;
                    assert(later_n2(*ctx, i as int) == jl);
                    if x < jj {
                        assert(jl[x] < jl[jj as int]);
                    }
                }
            }
            lemma_place_grids(*ctx, j_start, j_end, before, out@, i, j);
            assert forall|e: int| 0 <= e < out@.len() && #[trigger] out@[e] is Tick implies out@[e]->anchor < i
                || (out@[e]->anchor == i && out@[e]->progress <= progress) by {
                assert(e < before.len());
                assert(out@[e] == out@.subrange(0, before.len() as int)[e]);
            }
            assert forall|e: int| 0 <= e < out@.len() implies match #[trigger] out@[e] {
                Event::Found { rows, cols } => in_unit(*ctx, start as int, end as int, j_start, j_end, rows@, cols@),
                Event::Tick { progress, total, .. } => progress <= total,
            } by {
                if e < before.len() {
                    assert(out@.subrange(0, before.len() as int)[e] == out@[e]);
                } else {
                    let rows = out@[e]->rows;
                    assert(jl[jj as int] == rows@[1]);
                }
            }
        }
        progress = progress + 1;
        if tick_due(progress, total) {
            let ghost mid = out@;
            proof {
                lemma_unit_events_push(*ctx, start as int, end as int, j_start, j_end, out@, i, progress, total);
                lemma_order_push_tick(out@, seq![i].push(limit_at(jl, jj as int + 1, n as int) as usize), i, progress, total);
                assert(tick_bound(*ctx, j_start, j_end, i, progress) =~= seq![i].push(limit_at(jl, jj as int + 1, n as int) as usize));
                lemma_place_tick(*ctx, j_start, j_end, out@, i, progress, total);
            }
            out.push(Event::Tick { anchor: i, progress, total });
            proof {
                assert forall|e: int| 0 <= e < out@.len() && #[trigger] out@[e] is Tick implies out@[e]->anchor < i
                    || (out@[e]->anchor == i && out@[e]->progress <= progress) by {
                    if e < mid.len() {
                        assert(out@[e] == mid[e]);
                    }
                }
                lemma_found_kept(mid, out@);
                lemma_ticks_push(mid, Event::Tick { anchor: i, progress, total });
            }
        }
        proof {
            let base = unit_ticks(*ctx, start as int, i as int, j_start, j_end);
            let prev = anchor_ticks(i, total, progress - 1);
            let t = Event::Tick { anchor: i, progress, total };
            if progress % 2 == 0 || progress == total {
                assert(anchor_ticks(i, total, progress as int) == prev + seq![t]);
                assert(base + prev + seq![t] =~= base + (prev + seq![t]));
            } else {
                assert(anchor_ticks(i, total, progress as int) == prev + Seq::<Event>::empty());
                assert(prev + Seq::<Event>::empty() =~= prev);
            }
        }
        self.jj = jj + 1;
        proof {
            assert(extends(out_open, out@)) by {
                assert(out@.subrange(0, out_open.len() as int) =~= out_open);
            }
        }
        if jj + 1 == pe {
            let ghost out_mid = out@;
            self.close_anchor(ctx, out, Ghost(jl));
            proof {
                lemma_extends_trans(out_open, out_mid, out@);
            }
        }
    }

    /// Takes the next step of the unit, appending its events to `out`.
    /// Returns `false`, changing nothing, once the unit is finished.
    pub fn next_step(&mut self, ctx: &SearchContext, out: &mut Vec<Event>) -> (more: bool)
        requires
            old(self).wf(*ctx, old(out)@),
        ensures
            final(self).wf(*ctx, final(out)@),
            final(self).start == old(self).start,
            final(self).end == old(self).end,
            final(self).j_start == old(self).j_start,
            final(self).j_end == old(self).j_end,
            extends(old(out)@, final(out)@),
            !more <==> old(self).finished(),
            !more ==> *final(self) == *old(self) && final(out)@ == old(out)@,
            more ==> final(self).anchors_left() < old(self).anchors_left() || (final(self).anchors_left()
                == old(self).anchors_left() && final(self).indices_left() < old(self).indices_left()),
    {
        let ghost out_in = out@;
        if !self.open {
            if self.i >= self.stop {
                proof {
                    assert(out@.subrange(0, out@.len() as int) =~= out@);
                }
                return false;
            }
            self.open_anchor(ctx, out);
            if !self.open {
                return true;
            }
        }
        let ghost out_mid = out@;
        self.advance(ctx, out);
        proof {
            if out_mid != out_in {
                lemma_extends_trans(out_in, out_mid, out@);
            }
        }
        true
    }
}

/// Runs one work unit: anchors `i` in `[start, end)` (clamped to the number
/// of categories) and, for each, the secondary indices of the window that
/// `j_window` gives. Returns the found grids and the progress events in
/// the order they occur; the grids reported are exactly those the unit owns.
pub fn run_work(
    ctx: &SearchContext,
    start: usize,
    end: usize,
    j_start: Option<usize>,
    j_end: Option<usize>,
) -> (evs: Vec<Event>)
    requires
        ctx.wf(),
    ensures
        unit_events(*ctx, start as int, end as int, j_start, j_end, evs@),
        events_ok(*ctx, start as int, end as int, evs@),
        found_sorted(evs@),
        ticks_placed(*ctx, j_start, j_end, evs@),
        ticks_of(evs@) == unit_ticks(*ctx, start as int, if end < ctx.n() {
            end as int
        } else {
            ctx.n()
        }, j_start, j_end),
        forall|rows: Seq<usize>, cols: Seq<usize>|
            #[trigger] in_unit(*ctx, start as int, end as int, j_start, j_end, rows, cols) ==> found_in(
                evs@,
                rows,
                cols,
            ),
{
    let mut out: Vec<Event> = Vec::new();
    let mut run = UnitRun::new(ctx, start, end, j_start, j_end);
    while run.next_step(ctx, &mut out)
        invariant
            run.wf(*ctx, out@),
            run.start == start,
            run.end == end,
            run.j_start == j_start,
            run.j_end == j_end,
        decreases run.anchors_left(), run.indices_left(),
    {
    }
    proof {
        lemma_finished_unit(*ctx, run, out@);
    }
    out
}

/// A finished unit has reported exactly the grids it owns, in key order,
/// with its progress events in place.
pub proof fn lemma_finished_unit(ctx: SearchContext, run: UnitRun, out: Seq<Event>)
    requires
        run.wf(ctx, out),
        run.finished(),
    ensures
        unit_events(ctx, run.start as int, run.end as int, run.j_start, run.j_end, out),
        events_ok(ctx, run.start as int, run.end as int, out),
        found_sorted(out),
        ticks_placed(ctx, run.j_start, run.j_end, out),
        ticks_of(out) == unit_ticks(ctx, run.start as int, if run.end < ctx.n() {
            run.end as int
        } else {
            ctx.n()
        }, run.j_start, run.j_end),
        forall|rows: Seq<usize>, cols: Seq<usize>|
            #[trigger] in_unit(ctx, run.start as int, run.end as int, run.j_start, run.j_end, rows, cols) ==> found_in(
                out,
                rows,
                cols,
            ),
{
    let (start, end, j_start, j_end, i, stop) = (run.start, run.end, run.j_start, run.j_end, run.i, run.stop);
    let n = ctx.n();
    assert forall|rows: Seq<usize>, cols: Seq<usize>|
        #[trigger] in_unit(ctx, start as int, end as int, j_start, j_end, rows, cols) implies found_in(
        out,
        rows,
        cols,
    ) by {
        assert(rows[0] < n);
    }
    if i > stop {
        assert(unit_ticks(ctx, start as int, i as int, j_start, j_end) == Seq::<Event>::empty());
        assert(unit_ticks(ctx, start as int, stop as int, j_start, j_end) == Seq::<Event>::empty());
    }
    assert forall|e: int| 0 <= e < out.len() implies match #[trigger] out[e] {
        Event::Found { rows, cols } => valid_grid(ctx, rows@, cols@) && start <= rows[0] < end,
        Event::Tick { progress, total, .. } => progress <= total,
    } by {
        assert(match out[e] {
            Event::Found { rows, cols } => in_unit(ctx, start as int, end as int, j_start, j_end, rows@, cols@),
            Event::Tick { progress, total, .. } => progress <= total,
        });
    }
}

/// The grids that a work unit owns, as a set.
pub open spec fn unit_grids(
    ctx: SearchContext,
    start: int,
    end: int,
    j_start: Option<usize>,
    j_end: Option<usize>,
) -> Set<(Seq<usize>, Seq<usize>)> {
    Set::new(|g: (Seq<usize>, Seq<usize>)| in_unit(ctx, start, end, j_start, j_end, g.0, g.1))
}

/// The grids that some event reports, as a set.
pub open spec fn reported(evs: Seq<Event>) -> Set<(Seq<usize>, Seq<usize>)> {
    Set::new(|g: (Seq<usize>, Seq<usize>)| found_in(evs, g.0, g.1))
}

/// The grids a work unit reports are exactly the grids it owns.
pub proof fn lemma_reported_is_owned(
    ctx: SearchContext,
    start: int,
    end: int,
    j_start: Option<usize>,
    j_end: Option<usize>,
    evs: Seq<Event>,
)
    requires
        unit_events(ctx, start, end, j_start, j_end, evs),
        forall|rows: Seq<usize>, cols: Seq<usize>|
            #[trigger] in_unit(ctx, start, end, j_start, j_end, rows, cols) ==> found_in(evs, rows, cols),
    ensures
        reported(evs) == unit_grids(ctx, start, end, j_start, j_end),
{
    assert forall|g: (Seq<usize>, Seq<usize>)| #[trigger] reported(evs).contains(g) <==> unit_grids(
        ctx,
        start,
        end,
        j_start,
        j_end,
    ).contains(g) by {
        if found_in(evs, g.0, g.1) {
            let e = choose|e: int| 0 <= e < evs.len() && #[trigger] reports(evs[e], g.0, g.1);
            assert(match evs[e] {
                Event::Found { rows, cols } => in_unit(ctx, start, end, j_start, j_end, rows@, cols@),
                Event::Tick { progress, total, .. } => progress <= total,
            });
        }
    }
    assert(reported(evs) =~= unit_grids(ctx, start, end, j_start, j_end));
}

/// Splitting a unit's secondary range `[0, total)` at any `m` into the units
/// `[0, m)` and `[m, total)` loses and adds no grid: the two parts together
/// own exactly the grids of the whole.
pub proof fn lemma_split_resumes(ctx: SearchContext, start: int, end: int, total: usize, m: usize)
    requires
        m <= total,
    ensures
        unit_grids(ctx, start, end, Some(0usize), Some(total)) == unit_grids(
            ctx,
            start,
            end,
            Some(0usize),
            Some(m),
        ).union(unit_grids(ctx, start, end, Some(m), Some(total))),
{
    let whole = unit_grids(ctx, start, end, Some(0usize), Some(total));
    let first = unit_grids(ctx, start, end, Some(0usize), Some(m));
    let second = unit_grids(ctx, start, end, Some(m), Some(total));
    assert forall|g: (Seq<usize>, Seq<usize>)| #[trigger] whole.contains(g) <==> first.union(second).contains(g) by {
        let later = later_n2(ctx, g.0[0] as int);
        let t = later.len() as usize;
        if whole.contains(g) {
            let x = choose|x: int|
                window_of(t, Some(0usize), Some(total)).0 <= x < window_of(t, Some(0usize), Some(total)).1
                    && #[trigger] later[x] == g.0[1];
            if x < window_of(t, Some(0usize), Some(m)).1 {
                assert(first.contains(g));
            } else {
                assert(second.contains(g));
            }
        }
        if first.contains(g) {
            let x = choose|x: int|
                window_of(t, Some(0usize), Some(m)).0 <= x < window_of(t, Some(0usize), Some(m)).1
                    && #[trigger] later[x] == g.0[1];
            assert(whole.contains(g));
        }
        if second.contains(g) {
            let x = choose|x: int|
                window_of(t, Some(m), Some(total)).0 <= x < window_of(t, Some(m), Some(total)).1
                    && #[trigger] later[x] == g.0[1];
            assert(whole.contains(g));
        }
    }
    assert(whole =~= first.union(second));
}

// ---------------------------------------------------------------------------
// What holds of every emitted grid
// ---------------------------------------------------------------------------

/// Every row of an emitted grid keeps a word that the other three rows do
/// not have.
pub proof fn lemma_found_rows_exclusive(ctx: SearchContext, lo: int, hi: int, evs: Seq<Event>, e: int)
    requires
        events_ok(ctx, lo, hi, evs),
        0 <= e < evs.len(),
        evs[e] is Found,
    ensures
        forall|r: int| 0 <= r < 4 ==> #[trigger] has_own(ctx.masks@, ctx.width as int, evs[e]->rows@, r),
{
    assert(valid_grid(ctx, evs[e]->rows@, evs[e]->cols@));
}

/// Every one of the sixteen cells of an emitted grid has a word of its row
/// and column that none of the other six categories has.
pub proof fn lemma_found_cells_unique(ctx: SearchContext, lo: int, hi: int, evs: Seq<Event>, e: int)
    requires
        events_ok(ctx, lo, hi, evs),
        0 <= e < evs.len(),
        evs[e] is Found,
    ensures
        forall|r: int, c: int|
            0 <= r < 4 && 0 <= c < 4 ==> #[trigger] has_cell(
                ctx.masks@,
                ctx.width as int,
                grid_sel(evs[e]->rows@, evs[e]->cols@),
                r,
                4 + c,
            ),
{
    assert(valid_grid(ctx, evs[e]->rows@, evs[e]->cols@));
    assert(evs[e]->rows@.len() == 4);
}

/// No meta label occurs among the eight categories of an emitted grid more
/// often than its cap.
pub proof fn lemma_found_meta_caps(ctx: SearchContext, lo: int, hi: int, evs: Seq<Event>, e: int, l: usize)
    requires
        events_ok(ctx, lo, hi, evs),
        0 <= e < evs.len(),
        evs[e] is Found,
        l < ctx.caps@.len(),
    ensures
        count_label(ctx.meta@, grid_sel(evs[e]->rows@, evs[e]->cols@), l) <= ctx.caps@[l as int],
{
    assert(valid_grid(ctx, evs[e]->rows@, evs[e]->cols@));
    lemma_caps_bound_every_label(ctx.meta@, ctx.caps@, grid_sel(evs[e]->rows@, evs[e]->cols@), l);
}

/// `a` and `b` hold the same indices.
pub open spec fn same_members(a: Seq<usize>, b: Seq<usize>) -> bool {
    forall|x: usize| a.contains(x) <==> b.contains(x)
}

proof fn lemma_increasing_same_members(a: Seq<usize>, b: Seq<usize>, t: int)
    requires
        a.len() == 4,
        b.len() == 4,
        increasing(a),
        increasing(b),
        same_members(a, b),
        0 <= t <= 4,
    ensures
        forall|u: int| 0 <= u < t ==> a[u] == b[u],
    decreases t,
{
    if t > 0 {
        lemma_increasing_same_members(a, b, t - 1);
        let u = t - 1;
        assert(a.contains(a[u]));
        assert(b.contains(a[u]));
        let s = choose|s: int| 0 <= s < 4 && b[s] == a[u];
        assert(b.contains(b[u]));
        assert(a.contains(b[u]));
        let s2 = choose|s2: int| 0 <= s2 < 4 && a[s2] == b[u];
        if s < u {
            assert(a[s] == b[s]);
        }
        if s2 < u {
            assert(a[s2] == b[s2]);
        }
    }
}

proof fn lemma_first_is_least(a: Seq<usize>, b: Seq<usize>)
    requires
        a.len() == 4,
        b.len() == 4,
        increasing(a),
        increasing(b),
        same_members(a, b),
    ensures
        a[0] == b[0],
{
    lemma_increasing_same_members(a, b, 1);
}

/// Two emitted grids with the same set of rows and the same set of columns,
/// or whose rows are the other's columns and columns the other's rows, are
/// the same grid: the search finds each grid once, never its transpose, and
/// the least column index always exceeds the anchor.
pub proof fn lemma_canonical_unique(
    ctx: SearchContext,
    rows1: Seq<usize>,
    cols1: Seq<usize>,
    rows2: Seq<usize>,
    cols2: Seq<usize>,
)
    requires
        valid_grid(ctx, rows1, cols1),
        valid_grid(ctx, rows2, cols2),
        (same_members(rows1, rows2) && same_members(cols1, cols2)) || (same_members(rows1, cols2)
            && same_members(cols1, rows2)),
    ensures
        rows1 == rows2,
        cols1 == cols2,
        cols1[0] > rows1[0],
{
    if same_members(rows1, rows2) && same_members(cols1, cols2) {
        lemma_increasing_same_members(rows1, rows2, 4);
        lemma_increasing_same_members(cols1, cols2, 4);
        assert(rows1 =~= rows2);
        assert(cols1 =~= cols2);
    } else {
        lemma_first_is_least(rows1, cols2);
        lemma_first_is_least(cols1, rows2);
    }
}

/// Two grids reported by one work unit never share their unordered rows
/// and columns, whether as they stand or transposed.
pub proof fn lemma_unit_reports_once(
    ctx: SearchContext,
    start: int,
    end: int,
    evs: Seq<Event>,
    e1: int,
    e2: int,
)
    requires
        events_ok(ctx, start, end, evs),
        found_sorted(evs),
        0 <= e1 < e2 < evs.len(),
        evs[e1] is Found,
        evs[e2] is Found,
    ensures
        !(same_members(evs[e1]->rows@, evs[e2]->rows@) && same_members(evs[e1]->cols@, evs[e2]->cols@)),
        !(same_members(evs[e1]->rows@, evs[e2]->cols@) && same_members(evs[e1]->cols@, evs[e2]->rows@)),
{
    let r1 = evs[e1]->rows@;
    let c1 = evs[e1]->cols@;
    let r2 = evs[e2]->rows@;
    let c2 = evs[e2]->cols@;
    assert(valid_grid(ctx, r1, c1));
    assert(valid_grid(ctx, r2, c2));
    assert(lt_prefix(event_key(evs[e1]), event_key(evs[e2])));
    lemma_lt_distinct(event_key(evs[e1]), event_key(evs[e2]));
    if (same_members(r1, r2) && same_members(c1, c2)) || (same_members(r1, c2) && same_members(c1, r2)) {
        lemma_canonical_unique(ctx, r1, c1, r2, c2);
    }
}

} // verus!
