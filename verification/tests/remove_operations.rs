use bplustree::BPlusTreeMap;

fn create_tree_capacity_int(cap: usize) -> BPlusTreeMap<i64> {
    BPlusTreeMap::new(cap).unwrap()
}

#[test]
fn test_basic_deletion() {
    let mut tree = create_tree_capacity_int(4);
    tree.insert(42, 420);
    assert_eq!(tree.get(&42), Some(&420));
    assert_eq!(tree.remove(&42), Some(420));
    assert_eq!(tree.get(&42), None);
}

#[test]
fn test_delete_nonexistent_key() {
    let mut tree = create_tree_capacity_int(4);
    tree.insert(42, 420);
    assert_eq!(tree.remove(&42), Some(420));
    assert_eq!(tree.remove(&42), None);
}

#[test]
fn test_delete_from_branch_tree() {
    let mut tree = create_tree_capacity_int(4);
    for i in 0..8 {
        tree.insert(i, i * 10);
    }
    assert!(!tree.is_leaf_root());
    assert_eq!(tree.remove(&3), Some(30));
    assert_eq!(tree.get(&3), None);
    for i in 0..8 {
        if i != 3 {
            assert_eq!(tree.get(&i), Some(&(i * 10)));
        }
    }
}

#[test]
fn test_delete_requires_branch_borrow() {
    let mut tree = create_tree_capacity_int(4);
    for i in 0..60 {
        tree.insert(i, i * 10);
    }

    assert!(tree.check_invariants(), "tree should start in a valid state");
    assert!(
        !tree.is_leaf_root(),
        "inserting many items should create an internal root"
    );
    let max_leaves_without_third_level = tree.branch_layout().cap as usize + 1;
    assert!(
        tree.leaf_count() > max_leaves_without_third_level,
        "expected at least three levels so we can exercise internal borrowing"
    );

    for key in 0..40 {
        assert_eq!(tree.remove(&key), Some(key * 10));
        assert!(
            tree.check_invariants(),
            "deletion should not violate invariants"
        );
    }

    assert!(
        tree.check_invariants(),
        "deletion should rebalance internal branches instead of leaving them underfull"
    );
}
