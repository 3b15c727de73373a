use cdx_grid::graph::build_graph;
use cdx_grid::checks::{cells_have_unique_words, check_meta_constraint, check_rows_meta, excl};
use cdx_grid::context::{InitError, SearchContext};
use cdx_grid::search::{column_candidates, j_window, run_work, tick_due, Event, UnitRun};

fn masks_of(words: &[Vec<usize>]) -> Vec<Vec<u32>> {
    words
        .iter()
        .map(|ws| {
            let mut m = vec![0u32; 2];
            for &w in ws.iter() {
                m[w / 32] |= 1 << (w % 32);
            }
            m
        })
        .collect()
}

fn grid_words() -> Vec<Vec<usize>> {
    let mut words = Vec::new();
    for r in 0..4 {
        words.push((0..4).map(|c| 4 * r + c).collect());
    }
    for c in 0..4 {
        words.push((0..4).map(|r| 4 * r + c).collect());
    }
    words
}

fn context(words: &[Vec<usize>], meta: Vec<Option<usize>>, caps: Vec<usize>) -> SearchContext {
    let masks = masks_of(words);
    let g = build_graph(&masks);
    SearchContext::new(masks, g.n1, g.n2, meta, caps).unwrap()
}

fn found(evs: &[Event]) -> Vec<([usize; 4], [usize; 4])> {
    evs.iter()
        .filter_map(|e| match e {
            Event::Found { rows, cols } => Some((*rows, *cols)),
            _ => None,
        })
        .collect()
}

#[test]
fn no_grid_when_only_two_categories_overlap() {
    // categories 0 and 1 share one word, nothing else overlaps
    let words = vec![vec![0, 1], vec![0, 2], vec![3], vec![4], vec![5], vec![6]];
    let ctx = context(&words, vec![None; 6], vec![]);
    let evs = run_work(&ctx, 0, 6, None, None);
    assert!(found(&evs).is_empty());
    assert_eq!(evs.len(), 6);
    assert!(evs.iter().enumerate().all(|(a, e)| *e == Event::Tick { anchor: a, progress: 0, total: 0 }));
}

#[test]
fn constructed_grid_is_found_once() {
    let ctx = context(&grid_words(), vec![None; 8], vec![]);
    let evs = run_work(&ctx, 0, 8, None, None);
    assert_eq!(found(&evs), vec![([0, 1, 2, 3], [4, 5, 6, 7])]);
}

#[test]
fn progress_events_of_constructed_grid() {
    let ctx = context(&grid_words(), vec![None; 8], vec![]);
    let evs = run_work(&ctx, 0, 1, None, None);
    assert_eq!(
        evs,
        vec![
            Event::Found { rows: [0, 1, 2, 3], cols: [4, 5, 6, 7] },
            Event::Tick { anchor: 0, progress: 2, total: 3 },
            Event::Tick { anchor: 0, progress: 3, total: 3 },
        ]
    );
    let evs = run_work(&ctx, 3, 4, None, None);
    assert_eq!(evs, vec![Event::Tick { anchor: 3, progress: 0, total: 0 }]);
}

#[test]
fn split_window_finds_the_same_grids() {
    let ctx = context(&grid_words(), vec![None; 8], vec![]);
    let whole = found(&run_work(&ctx, 0, 1, Some(0), Some(3)));
    let mut parts = found(&run_work(&ctx, 0, 1, Some(0), Some(1)));
    parts.extend(found(&run_work(&ctx, 0, 1, Some(1), Some(3))));
    assert_eq!(whole, parts);
    assert_eq!(whole.len(), 1);
    // the grid's second row is the first secondary index: the later part has none
    assert!(found(&run_work(&ctx, 0, 1, Some(1), Some(3))).is_empty());
}

#[test]
fn anchor_range_is_clamped() {
    let ctx = context(&grid_words(), vec![None; 8], vec![]);
    let evs = run_work(&ctx, 0, 100, None, None);
    assert_eq!(found(&evs).len(), 1);
    assert!(run_work(&ctx, 9, 12, None, None).is_empty());
}

#[test]
fn meta_cap_rejects_grid() {
    let mut meta = vec![None; 8];
    meta[0] = Some(0);
    meta[1] = Some(0);
    meta[5] = Some(0);
    let ctx = context(&grid_words(), meta.clone(), vec![2]);
    assert!(found(&run_work(&ctx, 0, 8, None, None)).is_empty());
    let ctx = context(&grid_words(), meta, vec![3]);
    assert_eq!(found(&run_work(&ctx, 0, 8, None, None)).len(), 1);
}

#[test]
fn row_meta_check_counts_rows_only() {
    let mut meta = vec![None; 8];
    meta[0] = Some(1);
    meta[1] = Some(1);
    meta[4] = Some(1);
    let ctx = context(&grid_words(), meta, vec![2, 2]);
    assert!(check_rows_meta(&[0, 1, 2, 3], &ctx));
    assert!(!check_meta_constraint(&[0, 1, 2, 3], &[4, 5, 6, 7], &ctx));
}

#[test]
fn exclusivity_and_cells() {
    let ctx = context(&grid_words(), vec![None; 8], vec![]);
    assert!(excl(&[0, 1, 2, 3], &ctx));
    assert!(cells_have_unique_words(&[0, 1, 2, 3], &[4, 5, 6, 7], &ctx));
    // a column used as a row explains a word of every row's cell
    assert!(!cells_have_unique_words(&[0, 1, 2, 4], &[5, 6, 7, 3], &ctx));
    // a category covered by the three others keeps nothing of its own
    let words = vec![vec![0, 1], vec![0], vec![1], vec![2]];
    let ctx = context(&words, vec![None; 4], vec![]);
    assert!(!excl(&[0, 1, 2, 3], &ctx));
}

#[test]
fn candidates_are_shared_one_hop_neighbours() {
    let ctx = context(&grid_words(), vec![None; 8], vec![]);
    assert_eq!(column_candidates(&[0, 1, 2, 3], &ctx), vec![4, 5, 6, 7]);
    assert_eq!(column_candidates(&[4, 5, 6, 7], &ctx), vec![0, 1, 2, 3]);
}

#[test]
fn window_clamps_and_orders_bounds() {
    assert_eq!(j_window(10, None, None), (0, 10));
    assert_eq!(j_window(10, Some(3), None), (0, 10));
    assert_eq!(j_window(10, Some(3), Some(7)), (3, 7));
    assert_eq!(j_window(10, Some(8), Some(20)), (8, 10));
    assert_eq!(j_window(10, Some(12), Some(20)), (10, 10));
    assert_eq!(j_window(10, Some(6), Some(2)), (6, 6));
}

#[test]
fn ticks_every_second_index_and_at_end() {
    assert!(tick_due(2, 5));
    assert!(!tick_due(3, 5));
    assert!(tick_due(5, 5));
    assert!(tick_due(0, 0));
}

#[test]
fn inconsistent_inputs_are_rejected() {
    let masks = vec![vec![1u32], vec![2u32, 0]];
    let e = SearchContext::new(masks, vec![vec![], vec![]], vec![vec![], vec![]], vec![None, None], vec![]);
    assert_eq!(e.err(), Some(InitError::MaskWidth));
    let masks = vec![vec![1u32], vec![2u32]];
    let e = SearchContext::new(masks.clone(), vec![vec![]], vec![vec![], vec![]], vec![None, None], vec![]);
    assert_eq!(e.err(), Some(InitError::LengthMismatch));
    let e = SearchContext::new(masks.clone(), vec![vec![2], vec![]], vec![vec![], vec![]], vec![None, None], vec![]);
    assert_eq!(e.err(), Some(InitError::IndexOutOfRange));
    let e = SearchContext::new(masks.clone(), vec![vec![], vec![]], vec![vec![], vec![]], vec![Some(1), None], vec![2]);
    assert_eq!(e.err(), Some(InitError::UnknownLabel));
    let ok = SearchContext::new(masks, vec![vec![1, 1], vec![0]], vec![vec![], vec![]], vec![Some(0), None], vec![2]);
    let ctx = ok.unwrap();
    assert_eq!(ctx.n1, vec![vec![1], vec![0]]);
    assert_eq!(ctx.subset, vec![vec![false, false], vec![false, false]]);
}

#[test]
fn unsorted_lists_are_sorted() {
    let masks = vec![vec![1u32], vec![3u32], vec![5u32]];
    let ctx = SearchContext::new(masks, vec![vec![2, 1], vec![0], vec![0]], vec![vec![], vec![], vec![]], vec![None; 3], vec![]).unwrap();
    assert_eq!(ctx.n1[0], vec![1, 2]);
    assert_eq!(ctx.subset[0][1], true);
    assert_eq!(ctx.subset[1][0], true);
    assert_eq!(ctx.subset[1][2], false);
}

fn two_grids_words() -> Vec<Vec<usize>> {
    // two disjoint copies of the constructed grid, plus a category that
    // overlaps a row and a column of the first copy
    let mut words = grid_words();
    for ws in grid_words() {
        words.push(ws.into_iter().map(|w| w + 16).collect());
    }
    words.push(vec![0, 5, 40]);
    words
}

#[test]
fn every_found_grid_passes_the_checks() {
    let words = two_grids_words();
    let n = words.len();
    let ctx = context(&words, vec![None; n], vec![]);
    let grids = found(&run_work(&ctx, 0, n, None, None));
    assert_eq!(grids, vec![([0, 1, 2, 3], [4, 5, 6, 7]), ([8, 9, 10, 11], [12, 13, 14, 15])]);
    for (rows, cols) in grids.iter() {
        assert!(excl(rows, &ctx));
        assert!(cells_have_unique_words(rows, cols, &ctx));
        assert!(check_meta_constraint(rows, cols, &ctx));
        assert!(cols[0] > rows[0]);
    }
}

#[test]
fn anchor_ranges_partition_the_grids() {
    let words = two_grids_words();
    let n = words.len();
    let ctx = context(&words, vec![None; n], vec![]);
    let mut parts = Vec::new();
    for i in 0..n {
        parts.extend(found(&run_work(&ctx, i, i + 1, None, None)));
    }
    assert_eq!(parts, found(&run_work(&ctx, 0, n, None, None)));
    let again = found(&run_work(&ctx, 0, n, None, None));
    assert_eq!(parts, again);
}

#[test]
fn progress_events_of_every_anchor() {
    let ctx = context(&grid_words(), vec![None; 8], vec![]);
    let evs = run_work(&ctx, 0, 8, None, None);
    let t = |anchor: usize, progress: usize, total: usize| Event::Tick { anchor, progress, total };
    let mut expected = vec![Event::Found { rows: [0, 1, 2, 3], cols: [4, 5, 6, 7] }, t(0, 2, 3), t(0, 3, 3), t(1, 2, 2), t(2, 1, 1), t(3, 0, 0)];
    expected.extend(vec![t(4, 2, 3), t(4, 3, 3), t(5, 2, 2), t(6, 1, 1), t(7, 0, 0)]);
    assert_eq!(evs, expected);
}

#[test]
fn steps_stream_one_secondary_index_at_a_time() {
    let ctx = context(&grid_words(), vec![None; 8], vec![]);
    let mut run = UnitRun::new(&ctx, 0, 8, None, None);
    let mut evs = Vec::new();
    let mut sizes = Vec::new();
    while run.next_step(&ctx, &mut evs) {
        sizes.push(evs.len());
    }
    assert_eq!(evs, run_work(&ctx, 0, 8, None, None));
    // anchor 0 has three secondary indices: the grid comes with the first
    assert_eq!(&sizes[..3], &[1, 2, 3]);
    assert!(!run.next_step(&ctx, &mut evs));
    assert_eq!(evs.len(), 11);
}
