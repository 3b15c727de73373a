use cdx_grid::bits::{intersects, subset};
use cdx_grid::graph::{build_graph, related_pair};

fn one_word_masks(words: &[&[usize]]) -> Vec<Vec<u32>> {
    words
        .iter()
        .map(|ws| {
            let mut m = vec![0u32; 2];
            for &w in ws.iter() {
                m[w / 32] |= 1 << (w % 32);
            }
            m
        })
        .collect()
}

#[test]
fn intersects_finds_shared_limb_bits() {
    assert!(intersects(&[0b0001, 0], &[0b0011, 0]));
    assert!(!intersects(&[0b0100, 0], &[0b0011, 0]));
    assert!(intersects(&[0, 1 << 31], &[0, 1 << 31]));
    assert!(!intersects(&[], &[]));
}

#[test]
fn subset_is_limbwise_containment() {
    assert!(subset(&[0b0001, 0], &[0b0011, 0]));
    assert!(!subset(&[0b0111, 0], &[0b0011, 0]));
    assert!(subset(&[0, 0], &[0, 0]));
    assert!(!subset(&[0, 2], &[0, 1]));
}

#[test]
fn related_pair_either_direction() {
    assert!(related_pair(&[0b0011], &[0b0001]));
    assert!(related_pair(&[0b0001], &[0b0011]));
    assert!(!related_pair(&[0b0110], &[0b0011]));
}

#[test]
fn one_hop_graph_of_three_overlapping_categories() {
    // 0 and 1 share word 5; 1 and 2 share word 40; 0 and 2 share nothing
    let masks = one_word_masks(&[&[1, 5], &[5, 40, 7], &[40, 41]]);
    let g = build_graph(&masks);
    assert_eq!(g.n1, vec![vec![1], vec![0, 2], vec![1]]);
    assert_eq!(g.n2, vec![Vec::<usize>::new(), vec![], vec![]]);
}

#[test]
fn subset_pairs_are_never_adjacent() {
    // 1 is a subset of 0; 2 overlaps both
    let masks = one_word_masks(&[&[1, 2, 3], &[1, 2], &[2, 9]]);
    let g = build_graph(&masks);
    assert_eq!(g.n1, vec![vec![2], vec![2], vec![0, 1]]);
    // identical word sets are subsets of each other
    let masks = one_word_masks(&[&[4], &[4]]);
    let g = build_graph(&masks);
    assert_eq!(g.n1, vec![Vec::<usize>::new(), vec![]]);
}

fn grid_masks() -> Vec<Vec<u32>> {
    // rows 0..4 and columns 4..8; cell (r, c) owns word 4 * r + c
    let mut masks = Vec::new();
    for r in 0..4 {
        let ws: Vec<usize> = (0..4).map(|c| 4 * r + c).collect();
        masks.push(ws);
    }
    for c in 0..4 {
        let ws: Vec<usize> = (0..4).map(|r| 4 * r + c).collect();
        masks.push(ws);
    }
    let refs: Vec<&[usize]> = masks.iter().map(|v| v.as_slice()).collect();
    one_word_masks(&refs)
}

#[test]
fn two_hop_needs_four_common_neighbours() {
    let g = build_graph(&grid_masks());
    assert_eq!(g.n1[0], vec![4, 5, 6, 7]);
    assert_eq!(g.n1[5], vec![0, 1, 2, 3]);
    assert_eq!(g.n2[0], vec![1, 2, 3]);
    assert_eq!(g.n2[6], vec![4, 5, 7]);
}

#[test]
fn graphs_are_symmetric_and_loop_free() {
    let masks = one_word_masks(&[&[1, 5, 9], &[5, 40, 7], &[40, 41, 1], &[9, 7, 41], &[1, 7], &[63]]);
    let g = build_graph(&masks);
    for i in 0..masks.len() {
        assert!(!g.n1[i].contains(&i));
        assert!(!g.n2[i].contains(&i));
        for &j in g.n1[i].iter() {
            assert!(g.n1[j].contains(&i));
            assert!(!related_pair(&masks[i], &masks[j]));
        }
        for &j in g.n2[i].iter() {
            assert!(g.n2[j].contains(&i));
        }
    }
}
