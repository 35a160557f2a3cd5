//! Concrete scenarios for the container's documented behavior: capacity
//! sequences, range bound semantics, oracle agreement, round trips, clearing,
//! lifecycle accounting, and the layout planner's arithmetic.

use bplustree::layout::{align_up, BranchLayout, LeafLayout};
use bplustree::{BPlusTreeError, BPlusTreeMap, KeyBound};
use std::collections::BTreeMap;
use std::sync::atomic::{AtomicUsize, Ordering};
use std::sync::Arc;

fn keys_of<V: Clone>(tree: &BPlusTreeMap<V>) -> Vec<i64> {
    let mut it = tree.items();
    let mut out = Vec::new();
    while let Some((k, _)) = it.next() {
        out.push(k);
    }
    out
}

fn keys_rev<V: Clone>(tree: &BPlusTreeMap<V>) -> Vec<i64> {
    let mut it = tree.items();
    let mut out = Vec::new();
    while let Some((k, _)) = it.next_back() {
        out.push(k);
    }
    out
}

fn range_keys<V: Clone>(tree: &BPlusTreeMap<V>, start: KeyBound, end: KeyBound) -> Vec<i64> {
    let mut it = tree.range(start, end);
    let mut out = Vec::new();
    while let Some((k, _)) = it.next() {
        out.push(k);
    }
    out
}

#[test]
fn scenario_capacity_4_sequential_inserts() {
    let mut tree: BPlusTreeMap<String> = BPlusTreeMap::new(4).unwrap();
    for i in 1..=8 {
        tree.insert(i, format!("value_{}", i));
        assert!(tree.check_invariants(), "invariants after insert {}", i);
    }
    assert_eq!(keys_of(&tree), vec![1, 2, 3, 4, 5, 6, 7, 8]);
    assert!(tree.leaf_count() >= 2);
    assert!(!tree.is_leaf_root());
}

#[test]
fn scenario_capacity_4_insert_then_remove() {
    let mut tree: BPlusTreeMap<String> = BPlusTreeMap::new(4).unwrap();
    for i in 1..=5 {
        tree.insert(i, format!("value_{}", i));
    }
    for i in 1..=4 {
        assert_eq!(tree.remove(&i), Some(format!("value_{}", i)));
        assert!(tree.check_invariants(), "invariants after remove {}", i);
    }
    assert_eq!(tree.len(), 1);
    assert_eq!(tree.get(&5), Some(&"value_5".to_string()));
    assert!(tree.is_leaf_root());
    assert!(tree.check_invariants());

    assert_eq!(tree.remove(&5), Some("value_5".to_string()));
    assert!(tree.is_empty());
    assert!(tree.check_invariants());
}

#[test]
fn scenario_remove_even_keys_then_iterate() {
    let mut tree: BPlusTreeMap<String> = BPlusTreeMap::new(4).unwrap();
    for i in 0..100 {
        tree.insert(i, format!("value_{}", i));
    }
    for i in (0..100).step_by(2) {
        tree.remove(&(i as i64));
    }
    let odd: Vec<i64> = (0..100).filter(|k| k % 2 == 1).collect();
    assert_eq!(keys_of(&tree), odd);
    assert_eq!(tree.len(), 50);
}

#[test]
fn scenario_capacity_5_excluded_bounds() {
    let mut tree: BPlusTreeMap<String> = BPlusTreeMap::new(5).unwrap();
    for i in 0..10 {
        tree.insert(i, format!("value_{}", i));
    }
    assert_eq!(
        range_keys(&tree, KeyBound::Excluded(3), KeyBound::Excluded(7)),
        vec![4, 5, 6]
    );
    assert_eq!(
        range_keys(&tree, KeyBound::Excluded(3), KeyBound::Included(7)),
        vec![4, 5, 6, 7]
    );
    assert_eq!(
        range_keys(&tree, KeyBound::Included(3), KeyBound::Excluded(7)),
        vec![3, 4, 5, 6]
    );
}

#[test]
fn scenario_pseudo_random_inserts_validate() {
    let mut tree: BPlusTreeMap<String> = BPlusTreeMap::new(6).unwrap();
    // Deterministic pseudo-random order of 0..1000.
    let mut keys: Vec<i64> = (0..1000).collect();
    let mut state: u64 = 12345;
    for i in (1..keys.len()).rev() {
        state = state.wrapping_mul(6364136223846793005).wrapping_add(1442695040888963407);
        let j = (state >> 33) as usize % (i + 1);
        keys.swap(i, j);
    }
    for (n, &k) in keys.iter().enumerate() {
        tree.insert(k, format!("v_{}", k));
        if n % 10 == 9 {
            assert!(tree.check_invariants(), "invariants after {} inserts", n + 1);
        }
    }
    assert!(tree.check_invariants());
    assert_eq!(tree.len(), 1000);
    for k in 0..1000 {
        assert_eq!(tree.get(&k), Some(&format!("v_{}", k)));
    }
}

#[derive(Clone)]
struct LiveCounted {
    #[allow(dead_code)]
    id: i64,
    counter: Arc<AtomicUsize>,
}

impl LiveCounted {
    fn new(id: i64, counter: Arc<AtomicUsize>) -> Self {
        counter.fetch_add(1, Ordering::SeqCst);
        Self { id, counter }
    }
}

impl Drop for LiveCounted {
    fn drop(&mut self) {
        self.counter.fetch_sub(1, Ordering::SeqCst);
    }
}

#[test]
fn scenario_lifecycle_accounting() {
    let counter = Arc::new(AtomicUsize::new(0));
    {
        let mut tree: BPlusTreeMap<LiveCounted> = BPlusTreeMap::new(4).unwrap();
        for i in 0..40 {
            tree.insert(i, LiveCounted::new(i, counter.clone()));
        }
        assert_eq!(counter.load(Ordering::SeqCst), 40);
        for i in 10..20 {
            tree.remove(&i);
        }
        assert_eq!(counter.load(Ordering::SeqCst), 30);
        tree.clear();
        assert_eq!(counter.load(Ordering::SeqCst), 0);
        for i in 0..15 {
            tree.insert(i, LiveCounted::new(i, counter.clone()));
        }
        assert_eq!(counter.load(Ordering::SeqCst), 15);
    }
    assert_eq!(counter.load(Ordering::SeqCst), 0);
}

#[test]
fn lookup_agreement_concrete() {
    let mut tree: BPlusTreeMap<String> = BPlusTreeMap::new(4).unwrap();
    for i in 0..30 {
        tree.insert(i, format!("first_{}", i));
    }
    tree.insert(7, "second_7".to_string());
    tree.remove(&9);
    assert_eq!(tree.get(&7), Some(&"second_7".to_string()));
    assert_eq!(tree.get(&9), None);
    assert_eq!(tree.get(&8), Some(&"first_8".to_string()));
    assert_eq!(tree.get(&30), None);
}

#[test]
fn ordering_forward_and_reverse() {
    let mut tree: BPlusTreeMap<String> = BPlusTreeMap::new(4).unwrap();
    for &k in &[5, 1, 9, 3, 7, 2, 8, 4, 6, 0] {
        tree.insert(k, format!("value_{}", k));
    }
    let forward = keys_of(&tree);
    assert_eq!(forward, vec![0, 1, 2, 3, 4, 5, 6, 7, 8, 9]);
    let backward = keys_rev(&tree);
    assert_eq!(backward, vec![9, 8, 7, 6, 5, 4, 3, 2, 1, 0]);
}

#[test]
fn oracle_agreement_with_reference_map() {
    let mut tree: BPlusTreeMap<i64> = BPlusTreeMap::new(4).unwrap();
    let mut oracle: BTreeMap<i64, i64> = BTreeMap::new();
    let ops: Vec<(u8, i64)> = (0..300)
        .map(|i| {
            let k = (i * 37) % 50;
            (((i * 13) % 3) as u8, k)
        })
        .collect();
    for (op, k) in ops {
        match op {
            0 => {
                assert_eq!(tree.insert(k, k * 100), oracle.insert(k, k * 100));
            }
            1 => {
                assert_eq!(tree.remove(&k), oracle.remove(&k));
            }
            _ => {
                assert_eq!(tree.get(&k), oracle.get(&k));
            }
        }
        assert_eq!(tree.len(), oracle.len());
    }
    let oracle_keys: Vec<i64> = oracle.keys().copied().collect();
    assert_eq!(keys_of(&tree), oracle_keys);
}

#[test]
fn round_trip_restores_sequence() {
    let mut tree: BPlusTreeMap<String> = BPlusTreeMap::new(4).unwrap();
    for i in 0..25 {
        tree.insert(i * 2, format!("value_{}", i * 2));
    }
    let before = keys_of(&tree);
    let len_before = tree.len();

    tree.insert(31, "transient".to_string());
    let removed = tree.remove(&31);
    assert_eq!(removed, Some("transient".to_string()));

    assert_eq!(tree.len(), len_before);
    assert_eq!(keys_of(&tree), before);
    assert!(tree.check_invariants());
}

#[test]
fn clear_is_idempotent() {
    let mut tree: BPlusTreeMap<String> = BPlusTreeMap::new(4).unwrap();
    for i in 0..20 {
        tree.insert(i, format!("value_{}", i));
    }
    tree.clear();
    let after_once = keys_of(&tree);
    tree.clear();
    let after_twice = keys_of(&tree);
    assert_eq!(after_once, after_twice);
    assert!(tree.is_empty());
    assert_eq!(tree.get(&3), None);
    tree.insert(3, "back".to_string());
    assert_eq!(tree.get(&3), Some(&"back".to_string()));
}

#[test]
fn range_yields_exactly_in_bound_keys() {
    let mut tree: BPlusTreeMap<i64> = BPlusTreeMap::new(5).unwrap();
    for &k in &[2, 4, 6, 8, 10, 12, 14] {
        tree.insert(k, k);
    }
    for start in -1..16 {
        for end in start..16 {
            let got = range_keys(&tree, KeyBound::Included(start), KeyBound::Excluded(end));
            let expected: Vec<i64> = (start..end).filter(|k| tree.contains_key(k)).collect();
            assert_eq!(got, expected, "range [{}, {})", start, end);
        }
    }
}

#[test]
fn error_constructors_report_their_variant() {
    assert_eq!(
        BPlusTreeError::invalid_capacity(2, 4),
        BPlusTreeError::InvalidCapacity("".to_string())
    );
    assert_eq!(
        BPlusTreeError::data_integrity("op", "why"),
        BPlusTreeError::DataIntegrityError("".to_string())
    );
    assert_eq!(
        BPlusTreeError::arena_error("what", "why"),
        BPlusTreeError::ArenaError("".to_string())
    );
    assert_eq!(
        BPlusTreeError::node_error("leaf", 3, "why"),
        BPlusTreeError::NodeError("".to_string())
    );
    assert_eq!(
        BPlusTreeError::corrupted_tree("root", "why"),
        BPlusTreeError::CorruptedTree("".to_string())
    );
    assert_eq!(
        BPlusTreeError::invalid_state("insert", "why"),
        BPlusTreeError::InvalidState("".to_string())
    );
    assert_eq!(
        BPlusTreeError::allocation_error("leaf", "why"),
        BPlusTreeError::AllocationError("".to_string())
    );
    assert_ne!(BPlusTreeError::KeyNotFound, BPlusTreeError::InvalidCapacity("".to_string()));

    match BPlusTreeMap::<String>::new(3) {
        Ok(_) => panic!("capacity 3 should be rejected"),
        Err(err) => assert_eq!(err, BPlusTreeError::InvalidCapacity("".to_string())),
    }
}

#[test]
fn align_up_exact_values() {
    assert_eq!(align_up(0, 8), 0);
    assert_eq!(align_up(1, 8), 8);
    assert_eq!(align_up(8, 8), 8);
    assert_eq!(align_up(9, 8), 16);
    assert_eq!(align_up(13, 4), 16);
    assert_eq!(align_up(64, 1), 64);
}

#[test]
fn leaf_layout_exact_offsets() {
    // Keys and values are both 8 bytes and 8-aligned: header padded to 8,
    // two 8-byte sibling links, then 4 keys and 4 values.
    let l = LeafLayout::compute_for_cap::<i64, u64>(4, true);
    assert_eq!(l.cap, 4);
    assert_eq!(l.max_align, 8);
    assert_eq!(l.hdr_size, 8);
    assert_eq!(l.next_off, 8);
    assert_eq!(l.prev_off, Some(16));
    assert_eq!(l.keys_off, 24);
    assert_eq!(l.vals_off, 24 + 4 * 8);
    assert_eq!(l.bytes, 24 + 8 * 8);

    // Single-byte values pack after the keys without padding; the block is
    // padded to the overall alignment at the end.
    let l2 = LeafLayout::compute_for_cap::<i64, u8>(4, true);
    assert_eq!(l2.keys_off, 24);
    assert_eq!(l2.vals_off, 24 + 4 * 8);
    assert_eq!(l2.bytes, 24 + 4 * 8 + 8);
}

#[test]
fn branch_layout_exact_offsets() {
    // Child slots are pointer-sized: 5 children and 4 keys after an 8-byte
    // header.
    let b = BranchLayout::compute_for_cap::<i64>(4);
    assert_eq!(b.cap, 4);
    assert_eq!(b.max_align, 8);
    assert_eq!(b.hdr_size, 8);
    assert_eq!(b.children_off, 8);
    assert_eq!(b.keys_off, 8 + 5 * 8);
    assert_eq!(b.bytes, 8 + 5 * 8 + 4 * 8);
}

#[test]
fn budget_layouts_pick_largest_fitting_capacity() {
    // 88 bytes fit exactly capacity 4 of 8-byte keys and values.
    let l = LeafLayout::compute::<i64, u64>(88, true);
    assert_eq!(l.cap, 4);
    assert_eq!(l.bytes, 88);
    let l2 = LeafLayout::compute::<i64, u64>(87, true);
    assert_eq!(l2.cap, 3);
    let l3 = LeafLayout::compute::<i64, u64>(10, true);
    assert_eq!(l3.cap, 0);

    let b = BranchLayout::compute::<i64>(88);
    assert_eq!(b.cap, 4);
    assert_eq!(b.bytes, 88);
    let b2 = BranchLayout::compute::<i64>(10);
    assert_eq!(b2.cap, 0);
}

#[test]
fn with_budgets_and_cache_lines_build_usable_trees() {
    // Two cache lines per leaf block comfortably hold at least 4 pairs of
    // 8-byte keys and values.
    let mut tree: BPlusTreeMap<u64> = BPlusTreeMap::with_cache_lines(2, 2);
    assert_eq!(tree.leaf_layout().bytes, 128);
    assert_eq!(tree.branch_layout().bytes, 128);
    assert!(tree.leaf_layout().cap >= 4);
    assert!(tree.branch_layout().cap >= 4);
    for i in 0..100 {
        tree.insert(i, i as u64);
    }
    assert_eq!(tree.len(), 100);
    assert!(tree.check_invariants());

    let tree2: BPlusTreeMap<u64> = BPlusTreeMap::with_budgets(88, 88);
    assert_eq!(tree2.leaf_layout().cap, 4);
    assert_eq!(tree2.branch_layout().cap, 4);
}

#[test]
fn min_occupancy_formulas() {
    let tree: BPlusTreeMap<String> = BPlusTreeMap::new(7).unwrap();
    assert_eq!(tree.min_leaf_len(), 3);
    assert_eq!(tree.min_branch_len(), 3);
    let tree2: BPlusTreeMap<String> = BPlusTreeMap::new(4).unwrap();
    assert_eq!(tree2.min_leaf_len(), 2);
    assert_eq!(tree2.min_branch_len(), 2);
}

#[test]
fn validator_reports_ok_on_valid_trees() {
    let mut tree: BPlusTreeMap<String> = BPlusTreeMap::new(4).unwrap();
    assert!(tree.check_invariants_detailed().is_ok());
    for i in 0..50 {
        tree.insert(i, format!("value_{}", i));
    }
    assert!(tree.check_invariants_detailed().is_ok());
    assert!(tree.validate().is_ok());
    for i in 0..40 {
        tree.remove(&i);
    }
    assert!(tree.check_invariants_detailed().is_ok());
}

#[test]
fn first_last_and_values_track_key_order() {
    let mut tree: BPlusTreeMap<String> = BPlusTreeMap::new(4).unwrap();
    for &k in &[4, 2, 9] {
        tree.insert(k, format!("value_{}", k));
    }
    assert_eq!(tree.first(), Some((2, &"value_2".to_string())));
    assert_eq!(tree.last(), Some((9, &"value_9".to_string())));

    let mut vit = tree.values();
    assert_eq!(vit.next(), Some(&"value_2".to_string()));
    assert_eq!(vit.next_back(), Some(&"value_9".to_string()));
    assert_eq!(vit.next(), Some(&"value_4".to_string()));
    assert_eq!(vit.next(), None);

    let mut kit = tree.keys();
    assert_eq!(kit.next(), Some(2));
    assert_eq!(kit.next_back(), Some(9));
    assert_eq!(kit.next(), Some(4));
    assert_eq!(kit.next(), None);
}

#[test]
fn underflow_borrows_before_merging() {
    // With capacity 4, the leaves after five inserts are [1,2] and [3,4,5].
    // Removing 1 underfills the left leaf; its right sibling can spare a key,
    // so one pair moves over instead of merging: the tree keeps two leaves
    // under a branch root.
    let mut tree: BPlusTreeMap<String> = BPlusTreeMap::new(4).unwrap();
    for i in 1..=5 {
        tree.insert(i, format!("value_{}", i));
    }
    assert_eq!(tree.leaf_count(), 2);
    assert!(!tree.is_leaf_root());

    assert_eq!(tree.remove(&1), Some("value_1".to_string()));
    assert_eq!(tree.leaf_count(), 2);
    assert!(!tree.is_leaf_root());
    assert_eq!(tree.len(), 4);
    assert!(tree.check_invariants());
    for i in 2..=5 {
        assert_eq!(tree.get(&i), Some(&format!("value_{}", i)));
    }

    // Removing 2 underfills again; now neither sibling can donate, so the
    // pair merges and the root collapses onto the single remaining leaf.
    assert_eq!(tree.remove(&2), Some("value_2".to_string()));
    assert_eq!(tree.leaf_count(), 1);
    assert!(tree.is_leaf_root());
    assert!(tree.check_invariants());
}

#[test]
fn insert_grows_leaf_count_only_on_split() {
    let mut tree: BPlusTreeMap<i64> = BPlusTreeMap::new(4).unwrap();
    assert_eq!(tree.leaf_count(), 1);
    for i in 1..=4 {
        tree.insert(i, i);
        assert_eq!(tree.leaf_count(), 1);
    }
    // The target leaf is full: this insert splits it.
    tree.insert(5, 5);
    assert_eq!(tree.leaf_count(), 2);
    // Overwrites never split.
    tree.insert(5, 50);
    assert_eq!(tree.leaf_count(), 2);
}
