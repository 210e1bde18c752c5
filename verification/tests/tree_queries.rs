use bktree::BKTree;
use bktree::Metric;
use bktree::Simple;

#[test]
fn can_find_nearby() {
    let mut bk = BKTree::<Simple>::new();
    bk.insert(0x2af7);
    bk.insert(0x6af7);
    let found = bk.find(0x6bf6, 2);
    assert_eq!(found, &[0x6af7][..]);
}

#[test]
fn cant_find_far() {
    let mut bk = BKTree::<Simple>::new();
    bk.insert(0x2af7);
    bk.insert(0x6af7);
    let found = bk.find(0x1bf6, 2);
    assert_eq!(found, &[]);
}

#[test]
fn empty_tree_finds_nothing() {
    let bk = BKTree::<Simple>::new();
    assert_eq!(bk.find(0, 0), Vec::<u64>::new());
    assert_eq!(bk.find(0x2af7, 64), Vec::<u64>::new());
    assert_eq!(bk.find(u64::MAX, u32::MAX), Vec::<u64>::new());
}

#[test]
fn single_key_found_at_zero_tolerance() {
    let k = 0xdead_beef_u64;
    let mut bk = BKTree::<Simple>::new();
    bk.insert(k);
    assert_eq!(bk.find(k, 0), vec![k]);
}

#[test]
fn every_inserted_key_finds_itself() {
    let keys = [0u64, 1, 0x2af7, 0x6af7, u64::MAX, 0x8000_0000_0000_0000];
    let mut bk = BKTree::<Simple>::new();
    for &k in &keys {
        bk.insert(k);
    }
    for &k in &keys {
        assert_eq!(bk.find(k, 0), vec![k]);
    }
}

#[test]
fn duplicate_insertion_reports_key_once() {
    let k = 0x1234_5678_u64;
    let mut bk = BKTree::<Simple>::new();
    bk.insert(k);
    bk.insert(k);
    assert_eq!(bk.find(k, 0), vec![k]);
}

#[test]
fn duplicate_insertion_changes_no_result() {
    let mut once = BKTree::<Simple>::new();
    once.insert(0x2af7);
    once.insert(0x6af7);
    let mut twice = BKTree::<Simple>::new();
    twice.insert(0x2af7);
    twice.insert(0x6af7);
    twice.insert(0x2af7);
    twice.insert(0x6af7);
    for needle in [0u64, 0x2af7, 0x6af7, 0x6bf6, u64::MAX] {
        for tol in [0u32, 1, 2, 16, 64] {
            assert_eq!(once.find(needle, tol), twice.find(needle, tol));
        }
    }
}

#[test]
fn widening_tolerance_keeps_results() {
    let keys = [0x2af7u64, 0x6af7, 0x1bf6, 0x6bf6, 0xffff];
    let mut bk = BKTree::<Simple>::new();
    for &k in &keys {
        bk.insert(k);
    }
    let needle = 0x2bf7u64;
    let mut previous: Vec<u64> = Vec::new();
    for tol in 0u32..=64 {
        let current = bk.find(needle, tol);
        for k in &previous {
            assert!(current.contains(k));
        }
        previous = current;
    }
}

#[test]
fn find_matches_brute_force_scan() {
    let keys = [0u64, 3, 5, 9, 0x2af7, 0x6af7, 0xff00ff00, u64::MAX];
    let mut bk = BKTree::<Simple>::new();
    for &k in &keys {
        bk.insert(k);
    }
    for needle in [0u64, 4, 0x6bf6, 0xff00ff01, u64::MAX] {
        for tol in [0u32, 1, 2, 5, 17, 64] {
            let mut got = bk.find(needle, tol);
            let mut want: Vec<u64> = keys
                .iter()
                .copied()
                .filter(|&k| Simple::distance(k, needle) <= tol)
                .collect();
            got.sort_unstable();
            want.sort_unstable();
            assert_eq!(got, want);
        }
    }
}

#[test]
fn well_separated_keys_match_only_themselves() {
    // Pairwise Hamming distances are at least 8, far above 2 * tol for
    // tol = 1, so each query can match only its own key.
    let keys = [0x0000u64, 0x00ff, 0xff00, 0xffff];
    let mut bk = BKTree::<Simple>::new();
    for &k in &keys {
        bk.insert(k);
    }
    for &k in &keys {
        assert_eq!(bk.find(k, 1), vec![k]);
    }
}

#[test]
fn results_come_in_traversal_order() {
    // Root 8; distances from 8: 12 -> 1, 1 -> 2, 3 -> 3. Children are kept
    // in ascending distance order, so a query matching everything returns
    // the pre-order walk [8, 12, 1, 3].
    let mut bk = BKTree::<Simple>::new();
    bk.insert(8);
    bk.insert(3);
    bk.insert(12);
    bk.insert(1);
    assert_eq!(bk.find(8, 64), vec![8, 12, 1, 3]);
}

#[test]
fn hamming_distance_counts_differing_bits() {
    assert_eq!(Simple::distance(0, 0), 0);
    assert_eq!(Simple::distance(u64::MAX, u64::MAX), 0);
    assert_eq!(Simple::distance(0, u64::MAX), 64);
    assert_eq!(Simple::distance(0b1011, 0b0010), 2);
    assert_eq!(Simple::distance(0x2af7, 0x6af7), 1);
    assert_eq!(Simple::distance(0x6bf6, 0x6af7), 2);
    assert_eq!(Simple::distance(0x00ff, 0xff00), 16);
    assert_eq!(Simple::distance(0x6af7, 0x2af7), Simple::distance(0x2af7, 0x6af7));
}
