use bplustree::{BPlusTreeMap, KeyBound};
use std::collections::BTreeMap;

fn populate_maps(capacity: usize, data: &[i64]) -> (BPlusTreeMap<i64>, BTreeMap<i64, i64>) {
    let mut tree = BPlusTreeMap::new(capacity).unwrap();
    let mut map = BTreeMap::new();
    for &k in data {
        tree.insert(k, k * 10);
        map.insert(k, k * 10);
    }
    (tree, map)
}

fn tree_range(tree: &BPlusTreeMap<i64>, start: KeyBound, end: KeyBound) -> Vec<(i64, i64)> {
    let mut it = tree.range(start, end);
    let mut out = Vec::new();
    while let Some((k, v)) = it.next() {
        out.push((k, *v));
    }
    out
}

#[test]
fn test_range_differential_basic_boundaries() {
    for &cap in &[4_usize, 5, 8] {
        let data: Vec<i64> = (0..20).collect();
        let (tree, map) = populate_maps(cap, &data);

        let assert_same = |lhs: Vec<(i64, i64)>, rhs: Vec<(i64, i64)>, label: &str| {
            assert_eq!(lhs, rhs, "mismatch for range: {} (cap={})", label, cap);
        };

        let got = tree_range(&tree, KeyBound::Included(3), KeyBound::Excluded(7));
        let exp: Vec<_> = map.range(3..7).map(|(k, v)| (*k, *v)).collect();
        assert_same(got, exp, "3..7");

        let got = tree_range(&tree, KeyBound::Included(3), KeyBound::Included(7));
        let exp: Vec<_> = map.range(3..=7).map(|(k, v)| (*k, *v)).collect();
        assert_same(got, exp, "3..=7");

        let got = tree_range(&tree, KeyBound::Unbounded, KeyBound::Excluded(5));
        let exp: Vec<_> = map.range(..5).map(|(k, v)| (*k, *v)).collect();
        assert_same(got, exp, "..5");

        let got = tree_range(&tree, KeyBound::Included(5), KeyBound::Unbounded);
        let exp: Vec<_> = map.range(5..).map(|(k, v)| (*k, *v)).collect();
        assert_same(got, exp, "5..");

        let got = tree_range(&tree, KeyBound::Unbounded, KeyBound::Unbounded);
        let exp: Vec<_> = map.range(..).map(|(k, v)| (*k, *v)).collect();
        assert_same(got, exp, "..");

        let got = tree_range(&tree, KeyBound::Included(4), KeyBound::Included(4));
        let exp: Vec<_> = map.range(4..=4).map(|(k, v)| (*k, *v)).collect();
        assert_same(got, exp, "4..=4");

        let got = tree_range(&tree, KeyBound::Included(4), KeyBound::Excluded(4));
        let exp: Vec<_> = map.range(4..4).map(|(k, v)| (*k, *v)).collect();
        assert_same(got, exp, "4..4 (empty)");
    }
}

#[test]
fn test_range_differential_gaps_and_nonexistent_bounds() {
    for &cap in &[4_usize, 5, 8] {
        let data = vec![0, 1, 2, 4, 7, 8, 10, 13, 14, 18];
        let (tree, map) = populate_maps(cap, &data);

        let assert_same = |lhs: Vec<(i64, i64)>, rhs: Vec<(i64, i64)>, label: &str| {
            assert_eq!(lhs, rhs, "mismatch for range: {} (cap={})", label, cap);
        };

        let got = tree_range(&tree, KeyBound::Included(3), KeyBound::Excluded(9));
        let exp: Vec<_> = map.range(3..9).map(|(k, v)| (*k, *v)).collect();
        assert_same(got, exp, "3..9");

        let got = tree_range(&tree, KeyBound::Included(3), KeyBound::Included(9));
        let exp: Vec<_> = map.range(3..=9).map(|(k, v)| (*k, *v)).collect();
        assert_same(got, exp, "3..=9");

        let got = tree_range(&tree, KeyBound::Included(3), KeyBound::Included(4));
        let exp: Vec<_> = map.range(3..=4).map(|(k, v)| (*k, *v)).collect();
        assert_same(got, exp, "3..=4");

        let got = tree_range(&tree, KeyBound::Included(100), KeyBound::Excluded(200));
        let exp: Vec<_> = map.range(100..200).map(|(k, v)| (*k, *v)).collect();
        assert_same(got, exp, "100..200 (empty)");

        let got = tree_range(&tree, KeyBound::Included(-5), KeyBound::Excluded(3));
        let exp: Vec<_> = map.range(-5..3).map(|(k, v)| (*k, *v)).collect();
        assert_same(got, exp, "-5..3");
    }
}
