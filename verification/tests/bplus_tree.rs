use bplustree::{BPlusTreeError, BPlusTreeMap, KeyBound, NodeRef};

fn create_tree_4() -> BPlusTreeMap<String> {
    BPlusTreeMap::new(4).unwrap()
}

fn create_tree_5() -> BPlusTreeMap<String> {
    BPlusTreeMap::new(5).unwrap()
}

fn create_tree_capacity(cap: usize) -> BPlusTreeMap<String> {
    BPlusTreeMap::new(cap).unwrap()
}

fn assert_invariants(tree: &BPlusTreeMap<String>, context: &str) {
    assert!(tree.check_invariants(), "Tree invariants violated: {}", context);
}

fn insert_range(tree: &mut BPlusTreeMap<String>, start: i64, end: i64) {
    for i in start..end {
        tree.insert(i, format!("value_{}", i));
    }
}

fn items_vec<V: Clone>(tree: &BPlusTreeMap<V>) -> Vec<(i64, V)> {
    let mut it = tree.items();
    let mut out = Vec::new();
    while let Some((k, v)) = it.next() {
        out.push((k, v.clone()));
    }
    out
}

fn range_vec<V: Clone>(tree: &BPlusTreeMap<V>, start: KeyBound, end: KeyBound) -> Vec<(i64, V)> {
    let mut it = tree.range(start, end);
    let mut out = Vec::new();
    while let Some((k, v)) = it.next() {
        out.push((k, v.clone()));
    }
    out
}

fn items_range_vec<V: Clone>(
    tree: &BPlusTreeMap<V>,
    start: Option<&i64>,
    end: Option<&i64>,
) -> Vec<(i64, V)> {
    let mut it = tree.items_range(start, end);
    let mut out = Vec::new();
    while let Some((k, v)) = it.next() {
        out.push((k, v.clone()));
    }
    out
}

#[test]
fn test_node_ref_id_and_is_leaf() {
    let leaf: NodeRef = NodeRef::Leaf(7);
    assert_eq!(leaf.id(), 7);
    assert!(leaf.is_leaf());

    let branch: NodeRef = NodeRef::Branch(13);
    assert_eq!(branch.id(), 13);
    assert!(!branch.is_leaf());
}

#[test]
fn test_insert_overwrite_value() {
    let mut tree = create_tree_4();

    tree.insert(1, "one".to_string());
    assert_eq!(tree.get(&1), Some(&"one".to_string()));

    tree.insert(1, "two".to_string());

    assert_eq!(tree.get(&1), Some(&"two".to_string()));
    assert_eq!(tree.len(), 1);
}

#[test]
fn test_create_empty_tree() {
    let tree = create_tree_4();
    assert_eq!(tree.len(), 0);
    assert!(tree.is_empty());
    assert_invariants(&tree, "empty tree");
}

#[test]
fn test_insert_and_get_single_item() {
    let mut tree = create_tree_4();
    tree.insert(1, "one".to_string());

    assert_eq!(tree.len(), 1);
    assert!(!tree.is_empty());
    assert_eq!(tree.get(&1), Some(&"one".to_string()));
    assert_invariants(&tree, "single item");
}

#[test]
fn test_insert_multiple_items() {
    let mut tree = create_tree_4();
    tree.insert(1, "one".to_string());
    tree.insert(2, "two".to_string());
    tree.insert(3, "three".to_string());

    assert_eq!(tree.len(), 3);
    assert_eq!(tree.get(&1), Some(&"one".to_string()));
    assert_eq!(tree.get(&2), Some(&"two".to_string()));
    assert_eq!(tree.get(&3), Some(&"three".to_string()));
    assert_invariants(&tree, "multiple items");
}

#[test]
fn test_update_existing_key() {
    let mut tree = create_tree_4();
    tree.insert(1, "one".to_string());
    let old_value = tree.insert(1, "ONE".to_string());

    assert_eq!(tree.len(), 1);
    assert_eq!(tree.get(&1), Some(&"ONE".to_string()));
    assert_eq!(old_value, Some("one".to_string()));
    assert_invariants(&tree, "key update");
}

#[test]
fn test_contains_key() {
    let mut tree = create_tree_4();
    tree.insert(1, "one".to_string());
    tree.insert(2, "two".to_string());

    assert!(tree.contains_key(&1));
    assert!(tree.contains_key(&2));
    assert!(!tree.contains_key(&3));
    assert_invariants(&tree, "contains key");
}

#[test]
fn test_get_with_default() {
    let mut tree = create_tree_4();
    tree.insert(1, "one".to_string());

    assert_eq!(tree.get(&1), Some(&"one".to_string()));
    assert_eq!(tree.get(&2), None);
    assert_eq!(
        tree.get_or_default(&2, &"default".to_string()),
        &"default".to_string()
    );
    assert_invariants(&tree, "get with default");
}

#[test]
fn test_overflow() {
    let mut tree = create_tree_4();
    tree.insert(1, "one".to_string());
    tree.insert(2, "two".to_string());
    tree.insert(3, "three".to_string());
    tree.insert(4, "four".to_string());
    tree.insert(5, "five".to_string());

    assert_invariants(&tree, "overflow test");
    assert_eq!(tree.len(), 5);
    assert_eq!(tree.get(&1), Some(&"one".to_string()));
    assert_eq!(tree.get(&2), Some(&"two".to_string()));
    assert_eq!(tree.get(&3), Some(&"three".to_string()));
    assert_eq!(tree.get(&4), Some(&"four".to_string()));
    assert_eq!(tree.get(&5), Some(&"five".to_string()));

    assert!(!tree.is_leaf_root());
}

#[test]
fn test_split_then_add() {
    let mut tree = create_tree_4();
    tree.insert(1, "one".to_string());
    tree.insert(2, "two".to_string());
    tree.insert(3, "three".to_string());
    tree.insert(4, "four".to_string());
    tree.insert(5, "five".to_string());
    tree.insert(6, "six".to_string());
    tree.insert(7, "seven".to_string());
    tree.insert(8, "eight".to_string());

    assert_invariants(&tree, "split then add");
    assert_eq!(tree.len(), 8);
    assert_eq!(tree.get(&1), Some(&"one".to_string()));
    assert_eq!(tree.get(&2), Some(&"two".to_string()));
    assert_eq!(tree.get(&3), Some(&"three".to_string()));
    assert_eq!(tree.get(&4), Some(&"four".to_string()));
    assert_eq!(tree.get(&5), Some(&"five".to_string()));
    assert_eq!(tree.get(&6), Some(&"six".to_string()));
    assert_eq!(tree.get(&7), Some(&"seven".to_string()));
    assert_eq!(tree.get(&8), Some(&"eight".to_string()));

    assert!(tree.leaf_count() >= 2);
}

#[test]
fn test_many_insertions_maintain_invariants() {
    let mut tree = create_tree_capacity(6);

    for i in 0..20 {
        tree.insert(i, format!("value_{}", i));
        assert_invariants(&tree, &format!("insertion {}", i));
    }

    for i in 0..20 {
        assert_eq!(tree.get(&i), Some(&format!("value_{}", i)));
    }
}

#[test]
fn test_parent_splitting() {
    let mut tree = create_tree_5();

    for i in 0..50 {
        tree.insert(i, format!("value_{}", i));
        assert_invariants(&tree, &format!("parent split {}", i));
    }

    for i in 0..50 {
        assert_eq!(tree.get(&i), Some(&format!("value_{}", i)));
    }

    assert!(!tree.is_leaf_root());
}

#[test]
fn test_remove_single_item_from_leaf_root() {
    let mut tree = create_tree_4();
    tree.insert(1, "one".to_string());

    let removed = tree.remove(&1);

    assert_eq!(removed, Some("one".to_string()));
    assert_eq!(tree.len(), 0);
    assert!(!tree.contains_key(&1));
    assert_invariants(&tree, "remove single item");

    assert_eq!(tree.get(&1), None);
}

#[test]
fn test_remove_multiple_items_from_leaf_root() {
    let mut tree = create_tree_4();
    tree.insert(1, "one".to_string());
    tree.insert(2, "two".to_string());
    tree.insert(3, "three".to_string());

    let removed = tree.remove(&2);

    assert_eq!(removed, Some("two".to_string()));
    assert_eq!(tree.len(), 2);
    assert!(tree.contains_key(&1));
    assert!(!tree.contains_key(&2));
    assert!(tree.contains_key(&3));
    assert_eq!(tree.get(&1), Some(&"one".to_string()));
    assert_eq!(tree.get(&3), Some(&"three".to_string()));
    assert_invariants(&tree, "remove multiple first");

    let removed = tree.remove(&1);

    assert_eq!(removed, Some("one".to_string()));
    assert_eq!(tree.len(), 1);
    assert!(!tree.contains_key(&1));
    assert!(tree.contains_key(&3));
    assert_eq!(tree.get(&3), Some(&"three".to_string()));
    assert_invariants(&tree, "remove multiple second");

    let removed = tree.remove(&3);

    assert_eq!(removed, Some("three".to_string()));
    assert_eq!(tree.len(), 0);
    assert_invariants(&tree, "remove multiple last");
}

#[test]
fn test_remove_nonexistent_key_returns_none() {
    let mut tree = create_tree_4();
    tree.insert(1, "one".to_string());
    tree.insert(2, "two".to_string());

    let removed = tree.remove(&3);

    assert_eq!(removed, None);

    assert_eq!(tree.len(), 2);
    assert_eq!(tree.get(&1), Some(&"one".to_string()));
    assert_eq!(tree.get(&2), Some(&"two".to_string()));
    assert_invariants(&tree, "remove nonexistent");
}

#[test]
fn test_remove_from_tree_with_branch_root() {
    let mut tree = create_tree_4();

    insert_range(&mut tree, 1, 6);

    assert!(!tree.is_leaf_root());
    assert_eq!(tree.len(), 5);

    let removed = tree.remove(&2);

    assert_eq!(removed, Some("value_2".to_string()));
    assert_eq!(tree.len(), 4);
    assert!(!tree.contains_key(&2));
    assert_eq!(tree.get(&1), Some(&"value_1".to_string()));
    assert_eq!(tree.get(&3), Some(&"value_3".to_string()));
    assert_eq!(tree.get(&4), Some(&"value_4".to_string()));
    assert_eq!(tree.get(&5), Some(&"value_5".to_string()));
    assert!(tree.check_invariants());
}

#[test]
fn test_remove_multiple_from_tree_with_branches() {
    let mut tree = BPlusTreeMap::new(4).unwrap();

    for i in 1..=9 {
        tree.insert(i, format!("value_{}", i));
    }

    let removed1 = tree.remove(&3);
    let removed2 = tree.remove(&6);
    let removed3 = tree.remove(&1);

    assert_eq!(removed1, Some("value_3".to_string()));
    assert_eq!(removed2, Some("value_6".to_string()));
    assert_eq!(removed3, Some("value_1".to_string()));
    assert_eq!(tree.len(), 6);
    assert_eq!(tree.get(&2), Some(&"value_2".to_string()));
    assert_eq!(tree.get(&4), Some(&"value_4".to_string()));
    assert_eq!(tree.get(&5), Some(&"value_5".to_string()));
    assert_eq!(tree.get(&7), Some(&"value_7".to_string()));
    assert_eq!(tree.get(&8), Some(&"value_8".to_string()));
    assert_eq!(tree.get(&9), Some(&"value_9".to_string()));

    assert!(!tree.contains_key(&1));
    assert!(!tree.contains_key(&3));
    assert!(!tree.contains_key(&6));

    assert!(tree.check_invariants());
}

#[test]
fn test_insert_through_branch_node() {
    let mut tree = BPlusTreeMap::new(4).unwrap();

    for i in 1..=5 {
        tree.insert(i, format!("value_{}", i));
    }

    assert!(
        !tree.is_leaf_root(),
        "Tree should have a branch root after inserting 5 items"
    );

    let old_value = tree.insert(3, "updated_value_3".to_string());

    assert_eq!(
        old_value,
        Some("value_3".to_string()),
        "Should return old value when updating existing key"
    );
    assert_eq!(
        tree.get(&3),
        Some(&"updated_value_3".to_string()),
        "Updated value should be retrievable"
    );

    let old_value = tree.insert(6, "value_6".to_string());
    assert_eq!(old_value, None, "Should return None when inserting new key");
    assert_eq!(
        tree.get(&6),
        Some(&"value_6".to_string()),
        "New value should be retrievable"
    );

    assert!(
        tree.check_invariants(),
        "Tree should maintain invariants after insertions through branch"
    );
    assert_eq!(tree.len(), 6, "Tree should have 6 items");
}

#[test]
fn test_leaf_split_updates_parent_branch() {
    let mut tree = BPlusTreeMap::new(4).unwrap();

    for i in 1..=5 {
        tree.insert(i, format!("value_{}", i));
    }

    assert!(!tree.is_leaf_root(), "Tree should have a branch root");
    let initial_leaf_count = tree.leaf_count();

    for i in 6..=9 {
        tree.insert(i, format!("value_{}", i));
    }

    let final_leaf_count = tree.leaf_count();
    assert!(
        final_leaf_count > initial_leaf_count,
        "Should have more leaf nodes after causing another split. Initial: {}, Final: {}",
        initial_leaf_count,
        final_leaf_count
    );

    for i in 1..=9 {
        assert_eq!(
            tree.get(&i),
            Some(&format!("value_{}", i)),
            "Item {} should be accessible after leaf split",
            i
        );
    }

    assert!(
        tree.check_invariants(),
        "Tree should maintain invariants after leaf split with parent update"
    );
    assert_eq!(tree.len(), 9, "Tree should have 9 items");

    let range = items_range_vec(&tree, Some(&1), Some(&10));
    assert_eq!(range.len(), 9, "Range query should return all 9 items");

    for i in 0..range.len() - 1 {
        assert!(
            range[i].0 < range[i + 1].0,
            "Items should be in sorted order: {:?} should be < {:?}",
            range[i].0,
            range[i + 1].0
        );
    }
}

#[test]
fn test_root_promotion_leaf_to_branch() {
    let mut tree = BPlusTreeMap::new(4).unwrap();

    assert!(tree.is_leaf_root(), "New tree should start with a leaf root");
    assert_eq!(tree.leaf_count(), 1, "New tree should have exactly 1 leaf");

    tree.insert(1, "value_1".to_string());
    assert!(
        tree.is_leaf_root(),
        "Tree should still have leaf root after 1 item"
    );

    tree.insert(2, "value_2".to_string());
    assert!(
        tree.is_leaf_root(),
        "Tree should still have leaf root after 2 items"
    );

    tree.insert(3, "value_3".to_string());
    assert!(
        tree.is_leaf_root(),
        "Tree should still have leaf root after 3 items"
    );

    tree.insert(4, "value_4".to_string());
    assert!(
        tree.is_leaf_root(),
        "Tree should still have leaf root after 4 items (at capacity)"
    );

    tree.insert(5, "value_5".to_string());
    assert!(
        !tree.is_leaf_root(),
        "Tree should have branch root after exceeding leaf capacity"
    );
    assert!(
        tree.leaf_count() >= 2,
        "Tree should have at least 2 leaves after root split"
    );

    for i in 1..=5 {
        assert_eq!(
            tree.get(&i),
            Some(&format!("value_{}", i)),
            "Item {} should be accessible after root promotion",
            i
        );
    }

    assert!(
        tree.check_invariants(),
        "Tree should maintain invariants after root promotion"
    );
    assert_eq!(tree.len(), 5, "Tree should have 5 items");

    let old_value = tree.insert(3, "updated_value_3".to_string());
    assert_eq!(
        old_value,
        Some("value_3".to_string()),
        "Should be able to update existing key"
    );

    let new_value = tree.insert(6, "value_6".to_string());
    assert_eq!(new_value, None, "Should be able to insert new key");

    let range = items_range_vec(&tree, Some(&1), Some(&7));
    assert_eq!(range.len(), 6, "Range query should return all 6 items");

    for i in 0..range.len() - 1 {
        assert!(
            range[i].0 < range[i + 1].0,
            "Items should be in sorted order after root promotion"
        );
    }
}

#[test]
fn test_branch_node_split_creates_new_level() {
    let mut tree = BPlusTreeMap::new(4).unwrap();

    let mut items_inserted = 0;
    let initial_leaf_count = tree.leaf_count();

    for i in 1..=25 {
        tree.insert(i, format!("value_{}", i));
        items_inserted += 1;

        assert!(
            tree.check_invariants(),
            "Tree invariants should be maintained after inserting item {}",
            i
        );
    }

    let final_leaf_count = tree.leaf_count();
    assert!(
        final_leaf_count > initial_leaf_count,
        "Should have more leaf nodes after inserting {} items. Initial: {}, Final: {}",
        items_inserted,
        initial_leaf_count,
        final_leaf_count
    );

    assert!(
        !tree.is_leaf_root(),
        "Tree should have a branch root after inserting {} items",
        items_inserted
    );

    for i in 1..=25 {
        assert_eq!(
            tree.get(&i),
            Some(&format!("value_{}", i)),
            "Item {} should be accessible in multi-level tree",
            i
        );
    }

    assert_eq!(tree.len(), 25, "Tree should have 25 items");

    let range = items_range_vec(&tree, Some(&1), Some(&26));
    assert_eq!(range.len(), 25, "Range query should return all 25 items");

    for i in 0..range.len() - 1 {
        assert!(
            range[i].0 < range[i + 1].0,
            "Items should be in sorted order in multi-level tree"
        );
    }

    let old_value = tree.insert(13, "updated_value_13".to_string());
    assert_eq!(
        old_value,
        Some("value_13".to_string()),
        "Should be able to update existing key in multi-level tree"
    );

    let new_value = tree.insert(26, "value_26".to_string());
    assert_eq!(
        new_value, None,
        "Should be able to insert new key in multi-level tree"
    );

    assert!(
        tree.check_invariants(),
        "Tree should maintain invariants after all operations in multi-level structure"
    );
}

#[test]
fn test_comprehensive_insert_scenarios() {
    for capacity in [4, 8, 16] {
        println!(
            "Testing comprehensive insert scenarios with capacity {}",
            capacity
        );

        let mut tree = BPlusTreeMap::new(capacity).unwrap();

        for i in 1..=50 {
            tree.insert(i, format!("seq_value_{}", i));
            assert!(
                tree.check_invariants(),
                "Sequential insert {} failed invariants with capacity {}",
                i,
                capacity
            );
        }

        for i in 1..=50 {
            assert_eq!(
                tree.get(&i),
                Some(&format!("seq_value_{}", i)),
                "Sequential item {} not found with capacity {}",
                i,
                capacity
            );
        }

        let mut tree2 = BPlusTreeMap::new(capacity).unwrap();
        for i in (1..=50).rev() {
            tree2.insert(i, format!("rev_value_{}", i));
            assert!(
                tree2.check_invariants(),
                "Reverse insert {} failed invariants with capacity {}",
                i,
                capacity
            );
        }

        for i in 1..=50 {
            assert_eq!(
                tree2.get(&i),
                Some(&format!("rev_value_{}", i)),
                "Reverse item {} not found with capacity {}",
                i,
                capacity
            );
        }

        let mut tree3 = BPlusTreeMap::new(capacity).unwrap();
        let mut keys: Vec<i64> = (1..=50).collect();
        for i in 0..keys.len() {
            let j = (i * 17) % keys.len();
            keys.swap(i, j);
        }

        for key in &keys {
            tree3.insert(*key, format!("rand_value_{}", key));
            assert!(
                tree3.check_invariants(),
                "Random insert {} failed invariants with capacity {}",
                key,
                capacity
            );
        }

        for i in 1..=50 {
            assert_eq!(
                tree3.get(&i),
                Some(&format!("rand_value_{}", i)),
                "Random item {} not found with capacity {}",
                i,
                capacity
            );
        }

        for i in 1..=25 {
            let old_value = tree3.insert(i, format!("updated_value_{}", i));
            assert_eq!(
                old_value,
                Some(format!("rand_value_{}", i)),
                "Update {} should return old value with capacity {}",
                i,
                capacity
            );
            assert!(
                tree3.check_invariants(),
                "Update {} failed invariants with capacity {}",
                i,
                capacity
            );
        }

        assert_eq!(tree.len(), 50, "Sequential tree should have 50 items");
        assert_eq!(tree2.len(), 50, "Reverse tree should have 50 items");
        assert_eq!(tree3.len(), 50, "Random tree should have 50 items");

        let range1 = items_range_vec(&tree, Some(&10), Some(&20));
        let range2 = items_range_vec(&tree2, Some(&10), Some(&20));
        let range3 = items_range_vec(&tree3, Some(&10), Some(&20));

        assert_eq!(range1.len(), 10, "Sequential tree range should have 10 items");
        assert_eq!(range2.len(), 10, "Reverse tree range should have 10 items");
        assert_eq!(range3.len(), 10, "Random tree range should have 10 items");

        println!("\u{2713} Capacity {} passed all comprehensive insert tests", capacity);
    }
}

#[test]
fn test_invalid_capacity_error() {
    let result = BPlusTreeMap::<String>::new(3);
    assert!(result.is_err());

    let _tree = BPlusTreeMap::<String>::new(4).unwrap();
}

#[test]
fn test_key_error_on_missing_key() {
    let mut tree = BPlusTreeMap::new(4).unwrap();
    tree.insert(1, "one".to_string());

    let result = tree.get_item(&2);
    assert_eq!(result, Err(BPlusTreeError::KeyNotFound));

    let result = tree.get_item(&1);
    assert_eq!(result, Ok(&"one".to_string()));
}

#[test]
fn test_remove_nonexistent_key_raises_error() {
    let mut tree = BPlusTreeMap::new(4).unwrap();
    tree.insert(1, "one".to_string());
    tree.insert(2, "two".to_string());

    let result = tree.remove_item(&3);
    assert_eq!(result, Err(BPlusTreeError::KeyNotFound));

    assert_eq!(tree.len(), 2);
    assert_eq!(tree.get(&1), Some(&"one".to_string()));
    assert_eq!(tree.get(&2), Some(&"two".to_string()));
}

#[test]
fn test_iterate_empty_tree() {
    let tree = BPlusTreeMap::<String>::new(4).unwrap();
    let items = items_vec(&tree);
    assert_eq!(items, vec![]);
}

#[test]
fn test_iterate_single_item() {
    let mut tree = BPlusTreeMap::new(4).unwrap();
    tree.insert(5, "value5".to_string());

    let items = items_vec(&tree);
    assert_eq!(items, vec![(5, "value5".to_string())]);
}

#[test]
fn test_iterate_multiple_items_single_leaf() {
    let mut tree = BPlusTreeMap::new(4).unwrap();
    tree.insert(1, "value1".to_string());
    tree.insert(3, "value3".to_string());
    tree.insert(2, "value2".to_string());
    tree.insert(4, "value4".to_string());

    let items = items_vec(&tree);
    assert_eq!(
        items,
        vec![
            (1, "value1".to_string()),
            (2, "value2".to_string()),
            (3, "value3".to_string()),
            (4, "value4".to_string())
        ]
    );
}

#[test]
fn test_iterate_multiple_leaves() {
    let mut tree = BPlusTreeMap::new(4).unwrap();
    for i in 1..=9 {
        tree.insert(i, format!("value{}", i));
    }

    let items = items_vec(&tree);
    assert_eq!(items.len(), 9);
    for (i, (key, value)) in items.iter().enumerate() {
        let expected_key = (i + 1) as i64;
        let expected_value = format!("value{}", expected_key);
        assert_eq!(*key, expected_key);
        assert_eq!(*value, expected_value);
    }
}

#[test]
fn test_keys_iterator() {
    let mut tree = BPlusTreeMap::new(4).unwrap();
    tree.insert(1, "one".to_string());
    tree.insert(2, "two".to_string());
    tree.insert(3, "three".to_string());

    let mut it = tree.keys();
    let mut keys = Vec::new();
    while let Some(k) = it.next() {
        keys.push(k);
    }
    assert_eq!(keys, vec![1, 2, 3]);
}

#[test]
fn test_values_iterator() {
    let mut tree = BPlusTreeMap::new(4).unwrap();
    tree.insert(1, "one".to_string());
    tree.insert(2, "two".to_string());
    tree.insert(3, "three".to_string());

    let mut it = tree.values();
    let mut values = Vec::new();
    while let Some(v) = it.next() {
        values.push(v.clone());
    }
    assert_eq!(
        values,
        vec!["one".to_string(), "two".to_string(), "three".to_string()]
    );
}

#[test]
fn test_iterate_from_key() {
    let mut tree = BPlusTreeMap::new(4).unwrap();
    for i in 0..10 {
        tree.insert(i, format!("value{}", i));
    }

    let items = items_range_vec(&tree, Some(&5), None);
    assert_eq!(items.len(), 5);
    for (i, (key, value)) in items.iter().enumerate() {
        let expected_key = (i + 5) as i64;
        let expected_value = format!("value{}", expected_key);
        assert_eq!(*key, expected_key);
        assert_eq!(*value, expected_value);
    }
}

#[test]
fn test_iterate_until_key() {
    let mut tree = BPlusTreeMap::new(4).unwrap();
    for i in 0..10 {
        tree.insert(i, format!("value{}", i));
    }

    let items = items_range_vec(&tree, None, Some(&5));
    assert_eq!(items.len(), 5);
    for (i, (key, value)) in items.iter().enumerate() {
        let expected_key = i as i64;
        let expected_value = format!("value{}", expected_key);
        assert_eq!(*key, expected_key);
        assert_eq!(*value, expected_value);
    }
}

#[test]
fn test_iterate_range() {
    let mut tree = BPlusTreeMap::new(4).unwrap();
    for i in 0..20 {
        tree.insert(i, format!("value{}", i));
    }

    let items = items_range_vec(&tree, Some(&5), Some(&15));
    assert_eq!(items.len(), 10);
    for (i, (key, value)) in items.iter().enumerate() {
        let expected_key = (i + 5) as i64;
        let expected_value = format!("value{}", expected_key);
        assert_eq!(*key, expected_key);
        assert_eq!(*value, expected_value);
    }
}

#[test]
fn test_iterate_from_nonexistent_key() {
    let mut tree = BPlusTreeMap::new(4).unwrap();
    for i in [1, 3, 5, 7, 9] {
        tree.insert(i, format!("value{}", i));
    }

    let items = items_range_vec(&tree, Some(&4), None);
    assert_eq!(items.len(), 3);
    assert_eq!(items[0].0, 5);
    assert_eq!(items[1].0, 7);
    assert_eq!(items[2].0, 9);
}

#[test]
fn test_iterate_empty_range() {
    let mut tree = BPlusTreeMap::new(4).unwrap();
    for i in 0..10 {
        tree.insert(i, format!("value{}", i));
    }

    let items = items_range_vec(&tree, Some(&7), Some(&3));
    assert_eq!(items, vec![]);
}

#[test]
fn test_invariants_empty_tree() {
    let tree = BPlusTreeMap::<String>::new(4).unwrap();
    assert!(tree.check_invariants());
}

#[test]
fn test_invariants_single_item() {
    let mut tree = BPlusTreeMap::new(4).unwrap();
    tree.insert(1, "one".to_string());
    assert!(tree.check_invariants());
}

#[test]
fn test_invariants_after_split() {
    let mut tree = BPlusTreeMap::new(4).unwrap();
    for i in 1..=5 {
        tree.insert(i, format!("value{}", i));
        assert!(
            tree.check_invariants(),
            "Invariants violated after inserting {}",
            i
        );
    }
}

#[test]
fn test_invariants_after_many_operations() {
    let mut tree = BPlusTreeMap::new(4).unwrap();

    for i in 0..20 {
        tree.insert(i, format!("value{}", i));
        assert!(
            tree.check_invariants(),
            "Invariants violated after inserting {}",
            i
        );
    }

    for i in [1, 5, 10, 15] {
        tree.remove(&i);
        assert!(
            tree.check_invariants(),
            "Invariants violated after removing {}",
            i
        );
    }

    for i in 20..30 {
        tree.insert(i, format!("value{}", i));
        assert!(
            tree.check_invariants(),
            "Invariants violated after inserting {}",
            i
        );
    }
}

#[test]
fn test_large_capacity_edge_cases() {
    let mut tree = BPlusTreeMap::new(64).unwrap();

    for i in 0..60 {
        tree.insert(i, format!("value_{}", i));
        assert!(
            tree.check_invariants(),
            "Invariants violated after inserting {}",
            i
        );
    }

    assert!(tree.is_leaf_root(), "Should still be single-level tree");

    for i in (0..60).step_by(2) {
        tree.remove(&(i as i64));
        assert!(tree.check_invariants(), "Delete {} broke invariants", i);
    }

    for i in 60..70 {
        tree.insert(i, format!("new_value_{}", i));
        assert!(tree.check_invariants(), "Insert {} broke invariants", i);
    }
}

#[test]
fn test_capacity_boundary_conditions() {
    for capacity in [4usize, 8, 16, 32] {
        let mut tree = BPlusTreeMap::new(capacity).unwrap();

        for i in 0..capacity as i64 {
            tree.insert(i, format!("value_{}", i));
            assert!(
                tree.check_invariants(),
                "Tree at capacity {} should be valid",
                capacity
            );
        }

        tree.insert(capacity as i64, format!("value_{}", capacity));
        assert!(
            tree.check_invariants(),
            "Tree after split at capacity {} should be valid",
            capacity
        );

        tree.remove(&(capacity as i64));
        assert!(
            tree.check_invariants(),
            "Tree after delete at capacity {} should be valid",
            capacity
        );
    }
}

#[test]
fn test_sequential_vs_random_patterns() {
    let mut tree = BPlusTreeMap::new(8).unwrap();
    for i in 0..50 {
        tree.insert(i, format!("value_{}", i));
        assert!(
            tree.check_invariants(),
            "Sequential insert {} broke invariants",
            i
        );
    }

    let mut tree = BPlusTreeMap::new(8).unwrap();
    for i in (0..50).rev() {
        tree.insert(i, format!("value_{}", i));
        assert!(
            tree.check_invariants(),
            "Reverse insert {} broke invariants",
            i
        );
    }

    let mut tree = BPlusTreeMap::new(8).unwrap();
    let mut keys: Vec<i64> = (0..50).collect();
    for i in 0..keys.len() {
        let j = (i * 17) % keys.len();
        keys.swap(i, j);
    }

    for key in keys {
        tree.insert(key, format!("value_{}", key));
        assert!(
            tree.check_invariants(),
            "Random insert {} broke invariants",
            key
        );
    }
}

#[test]
fn test_deep_tree_insertion() {
    let mut tree = BPlusTreeMap::new(4).unwrap();

    for i in 0..100 {
        tree.insert(i, format!("value_{}", i));
        assert!(
            tree.check_invariants(),
            "Invariants violated after inserting {}",
            i
        );
    }

    for i in 0..100 {
        assert_eq!(tree.get(&i), Some(&format!("value_{}", i)));
    }

    assert!(!tree.is_leaf_root());
    assert!(tree.leaf_count() > 10);
}

#[test]
fn test_branch_node_splitting() {
    let mut tree = BPlusTreeMap::new(4).unwrap();

    for i in 0..50 {
        tree.insert(i, format!("value_{}", i));
        assert!(
            tree.check_invariants(),
            "Invariants violated after inserting {}",
            i
        );
    }

    assert!(!tree.is_leaf_root());
    assert_eq!(tree.len(), 50);

    for i in 0..50 {
        assert_eq!(tree.get(&i), Some(&format!("value_{}", i)));
    }
}

#[test]
fn test_multi_level_splits() {
    let mut tree = BPlusTreeMap::new(5).unwrap();

    for i in 0..200 {
        tree.insert(i, format!("value_{}", i));
        if i % 10 == 0 {
            assert!(
                tree.check_invariants(),
                "Invariants violated after inserting {}",
                i
            );
        }
    }

    assert!(tree.check_invariants());
    assert_eq!(tree.len(), 200);

    for i in 0..200 {
        assert_eq!(tree.get(&i), Some(&format!("value_{}", i)));
    }
}

#[test]
fn test_large_sequential_insertion() {
    let mut tree = BPlusTreeMap::new(8).unwrap();

    for i in 0..1000 {
        tree.insert(i, i * 2);
        if i % 100 == 0 {
            assert!(
                tree.check_invariants(),
                "Invariants violated after inserting {}",
                i
            );
        }
    }

    assert!(tree.check_invariants());
    assert_eq!(tree.len(), 1000);

    assert_eq!(tree.get(&0), Some(&0));
    assert_eq!(tree.get(&500), Some(&1000));
    assert_eq!(tree.get(&999), Some(&1998));
}

#[test]
fn test_reverse_order_insertion() {
    let mut tree = BPlusTreeMap::new(6).unwrap();

    for i in (0..100).rev() {
        tree.insert(i, format!("value_{}", i));
        if i % 20 == 0 {
            assert!(
                tree.check_invariants(),
                "Invariants violated after inserting {}",
                i
            );
        }
    }

    assert!(tree.check_invariants());
    assert_eq!(tree.len(), 100);

    for i in 0..100 {
        assert_eq!(tree.get(&i), Some(&format!("value_{}", i)));
    }
}

#[test]
fn test_delete_until_empty() {
    let mut tree = BPlusTreeMap::new(4).unwrap();

    for i in 0..20 {
        tree.insert(i, format!("value_{}", i));
    }
    assert!(tree.check_invariants());
    assert_eq!(tree.len(), 20);

    for i in 0..20 {
        let removed = tree.remove(&i);
        assert_eq!(removed, Some(format!("value_{}", i)));
        if !tree.check_invariants() {
            println!(
                "Tree state after removing {}: len={}, is_leaf_root={}",
                i,
                tree.len(),
                tree.is_leaf_root()
            );
            panic!("Invariants violated after removing {}", i);
        }
    }

    assert_eq!(tree.len(), 0);
    assert!(tree.is_empty());
    assert!(tree.check_invariants());
}

#[test]
fn test_root_collapse() {
    let mut tree = BPlusTreeMap::new(4).unwrap();

    for i in 0..10 {
        tree.insert(i, format!("value_{}", i));
    }
    assert!(!tree.is_leaf_root());

    for i in 0..9 {
        tree.remove(&i);
        assert!(
            tree.check_invariants(),
            "Invariants violated after removing {}",
            i
        );
    }

    assert_eq!(tree.len(), 1);
    assert_eq!(tree.get(&9), Some(&"value_9".to_string()));
    assert!(tree.check_invariants());
}

#[test]
fn test_alternating_insert_delete() {
    let mut tree = BPlusTreeMap::new(6).unwrap();

    for i in 0..50 {
        tree.insert(i, format!("value_{}", i));
        if i > 0 && i % 3 == 0 {
            tree.remove(&(i - 2));
        }
        assert!(
            tree.check_invariants(),
            "Invariants violated at iteration {}",
            i
        );
    }

    assert!(tree.check_invariants());
}

#[test]
fn test_delete_from_deep_tree() {
    let mut tree = BPlusTreeMap::new(4).unwrap();

    for i in 0..100 {
        tree.insert(i, i * 2);
    }
    assert!(tree.check_invariants());
    assert!(!tree.is_leaf_root());

    let to_delete = [5i64, 25, 50, 75, 95, 10, 30, 60, 80];
    for &key in &to_delete {
        let removed = tree.remove(&key);
        assert_eq!(removed, Some(key * 2));
        assert!(
            tree.check_invariants(),
            "Invariants violated after removing {}",
            key
        );
    }

    for i in 0..100 {
        if to_delete.contains(&i) {
            assert_eq!(tree.get(&i), None);
        } else {
            assert_eq!(tree.get(&i), Some(&(i * 2)));
        }
    }
}

#[test]
fn test_delete_all_but_one() {
    let mut tree = BPlusTreeMap::new(5).unwrap();

    for i in 0..50 {
        tree.insert(i, format!("value_{}", i));
    }
    if !tree.check_invariants() {
        panic!("Final invariants check failed");
    }

    for i in 0..49 {
        tree.remove(&i);
        if !tree.check_invariants() {
            println!("Invariants failed after removing {}", i);
            panic!("Invariants violated after removing {}", i);
        }
    }

    assert_eq!(tree.len(), 1);
    assert_eq!(tree.get(&49), Some(&"value_49".to_string()));
    assert!(tree.check_invariants());
}

#[test]
fn test_massive_insertion_deletion_cycle() {
    let mut tree = BPlusTreeMap::new(8).unwrap();

    for i in 0..500 {
        tree.insert(i, format!("value_{}", i));
        if i % 50 == 0 {
            assert!(
                tree.check_invariants(),
                "Invariants violated after inserting {}",
                i
            );
        }
    }

    for i in (0..500).step_by(2) {
        tree.remove(&(i as i64));
        if i % 50 == 0 {
            assert!(
                tree.check_invariants(),
                "Invariants violated after removing {}",
                i
            );
        }
    }

    for i in 0..500 {
        if i % 2 == 0 {
            assert_eq!(tree.get(&i), None);
        } else {
            assert_eq!(tree.get(&i), Some(&format!("value_{}", i)));
        }
    }

    assert!(tree.check_invariants());
    assert_eq!(tree.len(), 250);
}

#[test]
fn test_random_deletion_pattern() {
    let mut tree = BPlusTreeMap::new(6).unwrap();

    for i in 0..100 {
        tree.insert(i, i * 3);
    }
    assert!(tree.check_invariants());

    let delete_pattern = [13i64, 7, 42, 89, 3, 67, 21, 95, 8, 56, 34, 78, 12, 45, 90];
    for &key in &delete_pattern {
        if key < 100 {
            tree.remove(&key);
            assert!(
                tree.check_invariants(),
                "Invariants violated after removing {}",
                key
            );
        }
    }

    for i in 0..100 {
        if delete_pattern.contains(&i) {
            assert_eq!(tree.get(&i), None);
        } else {
            assert_eq!(tree.get(&i), Some(&(i * 3)));
        }
    }
}

#[test]
fn test_delete_from_minimal_tree() {
    let mut tree = BPlusTreeMap::new(4).unwrap();

    for i in 1..=5 {
        tree.insert(i, format!("value_{}", i));
    }
    assert!(!tree.is_leaf_root());
    assert!(tree.check_invariants());

    for i in 1..=5 {
        tree.remove(&i);
        assert!(
            tree.check_invariants(),
            "Invariants violated after removing {}",
            i
        );
    }

    assert!(tree.is_empty());
    assert!(tree.is_leaf_root());
}

#[test]
fn test_stress_deletion_with_invariants() {
    let mut tree = BPlusTreeMap::new(5).unwrap();

    for i in 0..200 {
        tree.insert(i, i.to_string());
    }
    assert!(tree.check_invariants());

    for chunk in (0..200i64).collect::<Vec<_>>().chunks(10) {
        for &item in chunk {
            tree.remove(&item);
        }
        assert!(
            tree.check_invariants(),
            "Invariants violated after deleting chunk {:?}",
            chunk
        );
    }

    assert!(tree.is_empty());
}

#[test]
fn test_single_key_operations() {
    let mut tree = BPlusTreeMap::new(4).unwrap();

    tree.insert(42, "answer".to_string());
    assert_eq!(tree.len(), 1);
    assert_eq!(tree.get(&42), Some(&"answer".to_string()));
    assert!(tree.check_invariants());

    let old = tree.insert(42, "new_answer".to_string());
    assert_eq!(old, Some("answer".to_string()));
    assert_eq!(tree.len(), 1);
    assert!(tree.check_invariants());

    let removed = tree.remove(&42);
    assert_eq!(removed, Some("new_answer".to_string()));
    assert_eq!(tree.len(), 0);
    assert!(tree.is_empty());
    assert!(tree.check_invariants());
}

#[test]
fn test_duplicate_key_handling() {
    let mut tree = BPlusTreeMap::new(6).unwrap();

    assert_eq!(tree.insert(1, "first".to_string()), None);
    assert_eq!(
        tree.insert(1, "second".to_string()),
        Some("first".to_string())
    );
    assert_eq!(
        tree.insert(1, "third".to_string()),
        Some("second".to_string())
    );

    assert_eq!(tree.len(), 1);
    assert_eq!(tree.get(&1), Some(&"third".to_string()));
    assert!(tree.check_invariants());
}

#[test]
fn test_extreme_capacity_values() {
    let mut tree = BPlusTreeMap::new(4).unwrap();
    for i in 0..20 {
        tree.insert(i, i * 2);
        assert!(
            tree.check_invariants(),
            "Invariants violated at capacity 4, item {}",
            i
        );
    }

    let mut tree = BPlusTreeMap::new(100).unwrap();
    for i in 0..200 {
        tree.insert(i, i * 3);
        if i % 25 == 0 {
            assert!(
                tree.check_invariants(),
                "Invariants violated at capacity 100, item {}",
                i
            );
        }
    }
}

#[test]
fn test_pathological_deletion_patterns() {
    let mut tree = BPlusTreeMap::new(5).unwrap();

    for i in 0..50 {
        tree.insert(i, format!("value_{}", i));
    }
    assert!(tree.check_invariants());

    for i in (0..50).step_by(3) {
        tree.remove(&(i as i64));
        assert!(
            tree.check_invariants(),
            "Invariants violated after removing every 3rd: {}",
            i
        );
    }

    for i in (0..50).step_by(7) {
        tree.remove(&(i as i64));
        assert!(
            tree.check_invariants(),
            "Invariants violated after removing every 7th: {}",
            i
        );
    }
}

#[test]
fn test_clustered_key_patterns() {
    let mut tree = BPlusTreeMap::new(6).unwrap();

    for cluster in 0..10 {
        for i in 0..10 {
            let key = cluster * 100 + i;
            tree.insert(key, format!("cluster_{}_{}", cluster, i));
            if key % 50 == 0 {
                assert!(
                    tree.check_invariants(),
                    "Invariants violated at clustered key {}",
                    key
                );
            }
        }
    }

    for cluster in [2i64, 5, 8] {
        for i in 0..10 {
            let key = cluster * 100 + i;
            tree.remove(&key);
        }
        assert!(
            tree.check_invariants(),
            "Invariants violated after removing cluster {}",
            cluster
        );
    }
}

#[test]
fn test_interleaved_operations() {
    let mut tree = BPlusTreeMap::new(7).unwrap();

    for i in 0..100 {
        tree.insert(i, format!("value_{}", i));

        if i > 10 {
            tree.insert(i - 10, format!("updated_{}", i - 10));
        }

        if i > 20 {
            tree.remove(&(i - 20));
        }

        assert!(
            tree.check_invariants(),
            "Invariants violated at iteration {}",
            i
        );
    }
}

#[test]
fn test_clear_and_reuse() {
    let mut tree = BPlusTreeMap::new(5).unwrap();

    for i in 0..50 {
        tree.insert(i, format!("value_{}", i));
    }
    assert_eq!(tree.len(), 50);
    assert!(tree.check_invariants());

    tree.clear();
    assert_eq!(tree.len(), 0);
    assert!(tree.is_empty());
    assert!(tree.check_invariants());

    for i in 100..150 {
        tree.insert(i, format!("new_value_{}", i));
    }
    assert_eq!(tree.len(), 50);
    assert!(tree.check_invariants());
}

#[test]
fn test_range_query_edge_cases() {
    let mut tree = BPlusTreeMap::new(4).unwrap();
    for i in 0..20 {
        tree.insert(i, format!("value{}", i));
    }

    let all_items = items_range_vec(&tree, None, None);
    assert_eq!(all_items.len(), 20);

    let from_neg = items_range_vec(&tree, Some(&-5), Some(&5));
    assert_eq!(from_neg.len(), 5);

    let to_far = items_range_vec(&tree, Some(&15), Some(&100));
    assert_eq!(to_far.len(), 5);

    let no_items = items_range_vec(&tree, Some(&25), Some(&30));
    assert_eq!(no_items.len(), 0);
}

#[test]
fn test_range_syntax_support() {
    let mut tree = BPlusTreeMap::new(16).unwrap();
    for i in 0..10 {
        tree.insert(i, format!("value{}", i));
    }

    let range1 = range_vec(&tree, KeyBound::Included(3), KeyBound::Excluded(7));
    assert_eq!(
        range1,
        vec![
            (3, "value3".to_string()),
            (4, "value4".to_string()),
            (5, "value5".to_string()),
            (6, "value6".to_string())
        ]
    );

    let range2 = range_vec(&tree, KeyBound::Included(3), KeyBound::Included(7));
    assert_eq!(
        range2,
        vec![
            (3, "value3".to_string()),
            (4, "value4".to_string()),
            (5, "value5".to_string()),
            (6, "value6".to_string()),
            (7, "value7".to_string())
        ]
    );

    let range3: Vec<i64> = range_vec(&tree, KeyBound::Included(5), KeyBound::Unbounded)
        .into_iter()
        .map(|(k, _v)| k)
        .collect();
    assert_eq!(range3, vec![5, 6, 7, 8, 9]);

    let range4: Vec<i64> = range_vec(&tree, KeyBound::Unbounded, KeyBound::Excluded(5))
        .into_iter()
        .map(|(k, _v)| k)
        .collect();
    assert_eq!(range4, vec![0, 1, 2, 3, 4]);

    let range5: Vec<i64> = range_vec(&tree, KeyBound::Unbounded, KeyBound::Unbounded)
        .into_iter()
        .map(|(k, _v)| k)
        .collect();
    assert_eq!(range5, vec![0, 1, 2, 3, 4, 5, 6, 7, 8, 9]);
}

#[test]
fn test_range_syntax_with_excluded_bounds() {
    let mut tree = BPlusTreeMap::new(16).unwrap();
    for i in 0..10 {
        tree.insert(i, format!("value{}", i));
    }

    let range_excluded_start: Vec<i64> =
        range_vec(&tree, KeyBound::Excluded(3), KeyBound::Included(7))
            .into_iter()
            .map(|(k, _)| k)
            .collect();
    assert_eq!(range_excluded_start, vec![4, 5, 6, 7]);

    let range_excluded_end: Vec<i64> =
        range_vec(&tree, KeyBound::Included(3), KeyBound::Excluded(7))
            .into_iter()
            .map(|(k, _)| k)
            .collect();
    assert_eq!(range_excluded_end, vec![3, 4, 5, 6]);

    let range_both_excluded: Vec<i64> =
        range_vec(&tree, KeyBound::Excluded(3), KeyBound::Excluded(7))
            .into_iter()
            .map(|(k, _)| k)
            .collect();
    assert_eq!(range_both_excluded, vec![4, 5, 6]);
}

#[test]
fn test_first_and_last() {
    let mut tree = BPlusTreeMap::new(4).unwrap();
    assert!(tree.first().is_none());
    assert!(tree.last().is_none());

    tree.insert(10, "ten".to_string());
    assert_eq!(tree.first(), Some((10, &"ten".to_string())));
    assert_eq!(tree.last(), Some((10, &"ten".to_string())));

    tree.insert(5, "five".to_string());
    tree.insert(15, "fifteen".to_string());
    assert_eq!(tree.first(), Some((5, &"five".to_string())));
    assert_eq!(tree.last(), Some((15, &"fifteen".to_string())));
}

#[test]
fn test_leaf_linked_list_completeness() {
    let mut tree = BPlusTreeMap::new(5).unwrap();

    for i in 0..100 {
        tree.insert(i, i.to_string());
    }
    assert!(tree.check_invariants_detailed().is_ok());

    for i in (0..100).step_by(4) {
        tree.remove(&(i as i64));
    }
    assert!(tree.check_invariants_detailed().is_ok());
}

#[test]
fn test_try_insert_and_remove() {
    let mut tree = BPlusTreeMap::new(4).unwrap();

    assert!(tree.try_insert(1, "one".to_string()).is_ok());
    assert_eq!(tree.get(&1), Some(&"one".to_string()));

    assert!(tree.try_remove(&1).is_ok());
    assert_eq!(tree.get(&1), None);

    assert!(tree.try_remove(&1).is_err());
}

#[test]
fn test_batch_insert() {
    let mut tree = BPlusTreeMap::new(4).unwrap();

    let items = vec![(1, "one"), (2, "two"), (3, "three")];
    let result = tree.batch_insert(items.iter().map(|(k, v)| (*k, v.to_string())).collect());
    assert!(result.is_ok());
    assert_eq!(tree.len(), 3);

    let items2 = vec![(4, "four"), (2, "TWO"), (5, "five")];
    let result2 = tree.batch_insert(items2.iter().map(|(k, v)| (*k, v.to_string())).collect());
    assert!(result2.is_ok());
    assert_eq!(tree.len(), 5);
    assert_eq!(tree.get(&2), Some(&"TWO".to_string()));
}

#[test]
fn test_get_many() {
    let mut tree = BPlusTreeMap::new(4).unwrap();
    tree.insert(1, "one".to_string());
    tree.insert(2, "two".to_string());
    tree.insert(3, "three".to_string());

    let keys = vec![1, 3];
    let result = tree.get_many(&keys);
    assert!(result.is_ok());
    assert_eq!(
        result.unwrap(),
        vec![&"one".to_string(), &"three".to_string()]
    );

    let keys2 = vec![1, 4, 2];
    let result2 = tree.get_many(&keys2);
    assert!(result2.is_err());
}

#[test]
fn test_validate_for_operation() {
    let mut tree = BPlusTreeMap::new(4).unwrap();
    assert!(tree.validate_for_operation("initial").is_ok());

    tree.insert(1, "one".to_string());
    assert!(tree.validate_for_operation("after insert").is_ok());
}
