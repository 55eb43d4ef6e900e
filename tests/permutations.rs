use keygen::layout::Layout;
use keygen::permutations::{advance, LayoutPermutations};
use std::collections::HashSet;

fn lower(l: &Layout) -> Vec<char> {
    (l.0).0 .0.to_vec()
}

fn count_distinct(depth: usize) -> (usize, usize) {
    let orig = Layout::shaka_layout();
    let mut perms = LayoutPermutations::new(&orig, depth);
    let mut seen = HashSet::new();
    let mut n = 0;
    while let Some(l) = perms.next() {
        n += 1;
        seen.insert(lower(&l));
    }
    (n, seen.len())
}

#[test]
fn depth_zero_yields_the_original_once() {
    let orig = Layout::shaka_layout();
    let mut perms = LayoutPermutations::new(&orig, 0);
    let first = perms.next().unwrap();
    assert_eq!(lower(&first), lower(&orig));
    assert!(perms.next().is_none());
}

#[test]
fn depth_one_yields_every_pair_once() {
    assert_eq!(count_distinct(1), (406, 406));
}

#[test]
fn depth_two_yields_every_four_subset_once() {
    assert_eq!(count_distinct(2), (23751, 23751));
}

#[test]
fn depth_past_fourteen_yields_nothing() {
    let orig = Layout::shaka_layout();
    assert!(LayoutPermutations::new(&orig, 15).next().is_none());
    assert!(LayoutPermutations::new(&orig, usize::MAX).next().is_none());
}

#[test]
fn depth_one_neighbours_differ_in_two_slots() {
    let orig = Layout::shaka_layout();
    let mut perms = LayoutPermutations::new(&orig, 1);
    while let Some(l) = perms.next() {
        let diff: Vec<usize> = (0..30).filter(|&k| lower(&l)[k] != lower(&orig)[k]).collect();
        assert_eq!(diff.len(), 2);
        assert!(!diff.contains(&10));
        assert_eq!(lower(&l)[diff[0]], lower(&orig)[diff[1]]);
        assert_eq!((l.1).0 .0[diff[0]], (orig.1).0 .0[diff[1]]);
    }
}

#[test]
fn first_neighbour_swaps_first_two_positions() {
    let orig = Layout::shaka_layout();
    let mut perms = LayoutPermutations::new(&orig, 1);
    let l = perms.next().unwrap();
    assert_eq!(lower(&l)[0], 'g');
    assert_eq!(lower(&l)[1], 'z');
}

#[test]
fn advance_steps_in_order() {
    let mut idx = vec![1usize, 0];
    assert!(advance(&mut idx));
    assert_eq!(idx, vec![2, 0]);
    let mut idx = vec![28usize, 0];
    assert!(advance(&mut idx));
    assert_eq!(idx, vec![2, 1]);
    let mut idx = vec![28usize, 27, 3, 0];
    assert!(advance(&mut idx));
    assert_eq!(idx, vec![6, 5, 4, 0]);
}

#[test]
fn advance_stops_at_the_last() {
    let mut idx = vec![28usize, 27, 26];
    assert!(!advance(&mut idx));
    assert_eq!(idx, vec![28, 27, 26]);
    let mut empty: Vec<usize> = vec![];
    assert!(!advance(&mut empty));
}
