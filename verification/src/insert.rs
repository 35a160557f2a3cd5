//! Insertion engine: insert-or-update at the target leaf, split full nodes,
//! propagate splits upward through branches, and grow the root when the old
//! root splits.

use vstd::prelude::*;

use crate::common::binary_search_keys;
use crate::model::{
    insert_entries, insert_entry, lemma_insert_at_index, lemma_insert_concat_left, lemma_insert_concat_right,
    lemma_insert_len, lemma_lookup_concat_left, lemma_lookup_concat_right, lemma_lookup_none,
    lemma_overwrite_at_index, lookup,
};
use crate::node::{above_lo, below_hi, zip_entries, KeyBd, Node};
use crate::{BPlusTreeMap, BTreeResult};

verus! {

/// Outcome of inserting into a subtree: either the subtree absorbed the new
/// entry, or it split into itself plus a new right sibling, separated by
/// `sep_key`, to be installed in the parent.
pub(crate) enum InsertResult<V> {
    NoSplit(Option<V>),
    Split { sep_key: i64, right: Node<V>, old_value: Option<V> },
}

/// Contract of inserting `(key, value)` into a subtree: `pre` is the subtree
/// before, `post` after, and `r` the reported outcome.
pub(crate) open spec fn insert_post<V>(
    pre: Node<V>,
    post: Node<V>,
    r: InsertResult<V>,
    key: i64,
    value: V,
    lcap: nat,
    bcap: nat,
    lo: KeyBd,
    hi: KeyBd,
    root: bool,
) -> bool {
    let e0 = pre.entries();
    let ei = insert_entry(e0, key, value);
    match r {
        InsertResult::NoSplit(oldv) => {
            &&& post.wf(lcap, bcap, lo, hi, root)
            &&& post.entries() == ei
            &&& oldv == lookup(e0, key)
            &&& post.height() == pre.height()
            &&& (post is Leaf <==> pre is Leaf)
            &&& post.leaf_total() == pre.leaf_total() + (if pre.splits_leaf(key, lcap) {
                1nat
            } else {
                0nat
            })
        },
        InsertResult::Split { sep_key, right, old_value } => {
            &&& post.wf(lcap, bcap, lo, Some(sep_key as int), false)
            &&& right.wf(lcap, bcap, Some(sep_key as int), hi, false)
            &&& post.entries() + right.entries() == ei
            &&& old_value == lookup(e0, key)
            &&& post.height() == pre.height()
            &&& right.height() == pre.height()
            &&& (match lo {
                None => true,
                Some(l) => sep_key as int > l,
            })
            &&& below_hi(sep_key as int, hi)
            &&& (post is Leaf <==> pre is Leaf)
            &&& (right is Leaf <==> pre is Leaf)
            &&& post.leaf_total() + right.leaf_total() == pre.leaf_total() + 1
            &&& pre.splits_leaf(key, lcap)
        },
    }
}

/// Insert into a leaf node, splitting it when it is full.
#[verifier::rlimit(60)]
fn leaf_insert_or_split<V>(
    node: &mut Node<V>,
    key: i64,
    value: V,
    lcap: usize,
    Ghost(bcap): Ghost<nat>,
    Ghost(lo): Ghost<KeyBd>,
    Ghost(hi): Ghost<KeyBd>,
    Ghost(root): Ghost<bool>,
) -> (r: InsertResult<V>)
    requires
        *old(node) is Leaf,
        old(node).wf(lcap as nat, bcap, lo, hi, root),
        above_lo(key as int, lo),
        below_hi(key as int, hi),
        4 <= lcap <= 65535,
    ensures
        insert_post(*old(node), *final(node), r, key, value, lcap as nat, bcap, lo, hi, root),
{
    let ghost e0 = old(node).entries();
    match node {
        Node::Leaf { keys, vals } => {
            let klen = keys.len();
            match binary_search_keys(keys.as_slice(), &key) {
                Ok(idx) => {
                    proof {
                        lemma_overwrite_at_index(e0, key, value, idx as int);
                    }
                    let oldv = vals.remove(idx);
                    vals.insert(idx, value);
                    proof {
                        assert(zip_entries(keys@, vals@) =~= e0.update(idx as int, (key, value)));
                        // The key is already present, so no leaf splits.
                        assert(!old(node).splits_leaf(key, lcap as nat));
                    }
                    InsertResult::NoSplit(Some(oldv))
                },
                Err(idx) => {
                    keys.insert(idx, key);
                    vals.insert(idx, value);
                    proof {
                        assert(forall|i: int|
                            0 <= i < e0.len() ==> (#[trigger] e0[i]).0 != key);
                        lemma_lookup_none(e0, key);
                        lemma_insert_at_index(e0, key, value, idx as int);
                        assert(zip_entries(keys@, vals@) =~= e0.insert(idx as int, (key, value)));
                        assert(forall|i: int, j: int|
                            0 <= i < j < keys@.len() ==> #[trigger] keys@[i] < #[trigger] keys@[j]);
                    }
                    if keys.len() <= lcap {
                        proof {
                            // The leaf had room, so it was not full.
                            assert(!old(node).splits_leaf(key, lcap as nat));
                        }
                        InsertResult::NoSplit(None)
                    } else {
                        let ghost zi = zip_entries(keys@, vals@);
                        let left_count = (lcap + 1) / 2;
                        let right_keys = keys.split_off(left_count);
                        let right_vals = vals.split_off(left_count);
                        let sep = right_keys[0];
                        let right = Node::Leaf { keys: right_keys, vals: right_vals };
                        proof {
                            assert(zip_entries(keys@, vals@) =~= zi.subrange(0, left_count as int));
                            assert(right.entries() =~= zi.subrange(left_count as int, zi.len() as int));
                            assert(zip_entries(keys@, vals@) + right.entries() =~= zi);
                            // The leaf was full and the key fresh.
                            assert(old(node).splits_leaf(key, lcap as nat));
                        }
                        InsertResult::Split { sep_key: sep, right, old_value: None }
                    }
                },
            }
        },
        Node::Branch { .. } => {
            proof {
                assert(false);
            }
            InsertResult::NoSplit(None)
        },
    }
}

/// Install a separator and right sibling produced by a child split at `ci`,
/// splitting this branch itself when it is already full.
///
/// When called, the child at `ci` has already been replaced by the left half
/// of the split; `sep` and `right` are the separator and right half to
/// install.
#[verifier::rlimit(100)]
fn branch_apply_split<V>(
    node: &mut Node<V>,
    ci: usize,
    sep: i64,
    right: Node<V>,
    old_value: Option<V>,
    bcap: usize,
    Ghost(lcap): Ghost<nat>,
    Ghost(lo): Ghost<KeyBd>,
    Ghost(hi): Ghost<KeyBd>,
    Ghost(root): Ghost<bool>,
) -> (r: InsertResult<V>)
    requires
        *old(node) is Branch,
        Node::<V>::branch_wf(
            old(node).node_keys(),
            old(node).node_children(),
            lcap,
            bcap as nat,
            lo,
            hi,
        ),
        old(node).node_keys().len() <= bcap,
        (if root {
            old(node).node_keys().len() >= 1
        } else {
            old(node).node_keys().len() >= (bcap as nat) / 2
        }),
        ci < old(node).node_children().len(),
        old(node).node_children()[ci as int].wf(
            lcap,
            bcap as nat,
            Node::<V>::child_lo(old(node).node_keys(), lo, ci as int),
            Some(sep as int),
            false,
        ),
        right.wf(
            lcap,
            bcap as nat,
            Some(sep as int),
            Node::<V>::child_hi(old(node).node_keys(), hi, ci as int),
            false,
        ),
        (match Node::<V>::child_lo(old(node).node_keys(), lo, ci as int) {
            None => true,
            Some(l) => sep as int > l,
        }),
        below_hi(sep as int, Node::<V>::child_hi(old(node).node_keys(), hi, ci as int)),
        right.height() == old(node).node_children()[ci as int].height(),
        4 <= bcap <= 65535,
    ensures
        ({
            let keys0 = old(node).node_keys();
            let cs0 = old(node).node_children();
            let total = Node::<V>::ents(cs0, 0, ci + 1) + right.entries() + Node::<V>::ents(
                cs0,
                ci + 1,
                cs0.len() as int,
            );
            match r {
                InsertResult::NoSplit(v) => {
                    &&& v == old_value
                    &&& final(node).wf(lcap, bcap as nat, lo, hi, root)
                    &&& final(node).entries() == total
                    &&& final(node).height() == old(node).height()
                    &&& !(*final(node) is Leaf)
                    &&& final(node).leaf_total() == old(node).leaf_total() + right.leaf_total()
                },
                InsertResult::Split { sep_key, right: r2, old_value: v } => {
                    &&& v == old_value
                    &&& final(node).wf(lcap, bcap as nat, lo, Some(sep_key as int), false)
                    &&& r2.wf(lcap, bcap as nat, Some(sep_key as int), hi, false)
                    &&& final(node).entries() + r2.entries() == total
                    &&& final(node).height() == old(node).height()
                    &&& r2.height() == old(node).height()
                    &&& (match lo {
                        None => true,
                        Some(l) => sep_key as int > l,
                    })
                    &&& below_hi(sep_key as int, hi)
                    &&& !(*final(node) is Leaf)
                    &&& !(r2 is Leaf)
                    &&& final(node).leaf_total() + r2.leaf_total() == old(node).leaf_total()
                        + right.leaf_total()
                },
            }
        }),
{
    let ghost keys0 = old(node).node_keys();
    let ghost cs0 = old(node).node_children();
    let ghost n0 = cs0.len() as int;
    match node {
        Node::Branch { keys, children } => {
            proof {
                Node::<V>::lemma_branch_install(
                    keys0,
                    cs0,
                    lcap,
                    bcap as nat,
                    lo,
                    hi,
                    ci as int,
                    sep,
                    right,
                );
            }
            keys.insert(ci, sep);
            children.insert(ci + 1, right);
            let ghost keys1 = keys@;
            let ghost cs1 = children@;
            if keys.len() <= bcap {
                InsertResult::NoSplit(old_value)
            } else {
                let pm = (bcap + 1) / 2;
                proof {
                    Node::<V>::lemma_branch_halves(
                        keys1,
                        cs1,
                        lcap,
                        bcap as nat,
                        lo,
                        hi,
                        pm as int,
                    );
                }
                let right_keys = keys.split_off(pm + 1);
                let promoted = match keys.pop() {
                    Some(k) => k,
                    None => {
                        proof {
                            assert(false);
                        }
                        sep
                    },
                };
                let right_children = children.split_off(pm + 1);
                let right_node = Node::Branch { keys: right_keys, children: right_children };
                proof {
                    assert(promoted == keys1[pm as int]);
                    assert(keys@ =~= keys1.subrange(0, pm as int));
                    assert(right_node.node_keys() =~= keys1.subrange(pm + 1, keys1.len() as int));
                    assert(children@ =~= cs1.subrange(0, pm + 1));
                    assert(right_node.node_children() =~= cs1.subrange(pm + 1, cs1.len() as int));
                }
                InsertResult::Split { sep_key: promoted, right: right_node, old_value }
            }
        },
        Node::Leaf { .. } => {
            proof {
                assert(false);
            }
            InsertResult::NoSplit(old_value)
        },
    }
}

/// Insert `(key, value)` into the subtree `node`, splitting on the way up as
/// needed.
#[verifier::rlimit(100)]
pub(crate) fn insert_node<V>(
    node: &mut Node<V>,
    key: i64,
    value: V,
    lcap: usize,
    bcap: usize,
    Ghost(lo): Ghost<KeyBd>,
    Ghost(hi): Ghost<KeyBd>,
    Ghost(root): Ghost<bool>,
) -> (r: InsertResult<V>)
    requires
        old(node).wf(lcap as nat, bcap as nat, lo, hi, root),
        above_lo(key as int, lo),
        below_hi(key as int, hi),
        4 <= lcap <= 65535,
        4 <= bcap <= 65535,
    ensures
        insert_post(
            *old(node),
            *final(node),
            r,
            key,
            value,
            lcap as nat,
            bcap as nat,
            lo,
            hi,
            root,
        ),
    decreases *old(node),
{
    if node.check_leaf() {
        return leaf_insert_or_split(
            node,
            key,
            value,
            lcap,
            Ghost(bcap as nat),
            Ghost(lo),
            Ghost(hi),
            Ghost(root),
        );
    }
    let ghost keys0 = old(node).node_keys();
    let ghost cs0 = old(node).node_children();
    let ghost n0 = cs0.len() as int;
    let ghost e0 = old(node).entries();
    let ghost value_snap = value;
    let res: InsertResult<V>;
    let ci: usize;
    match node {
        Node::Branch { keys, children } => {
            let klen = keys.len();
            ci = match binary_search_keys(keys.as_slice(), &key) {
                Ok(i) => i + 1,
                Err(i) => i,
            };
            let ghost a = Node::<V>::ents(cs0, 0, ci as int);
            let ghost c = cs0[ci as int].entries();
            let ghost b = Node::<V>::ents(cs0, ci + 1, n0);
            proof {
                Node::<V>::lemma_branch_parts(
                    keys0,
                    cs0,
                    lcap as nat,
                    bcap as nat,
                    lo,
                    hi,
                    ci as int,
                );
                assert(e0 == (a + c) + b);
                assert((a + c) + b =~= a + (c + b));
                lemma_insert_concat_left(a, c + b, key, value_snap);
                lemma_insert_concat_right(c, b, key, value_snap);
                lemma_lookup_concat_left(a, c + b, key);
                lemma_lookup_concat_right(c, b, key);
                // The exec search lands on the child named by the descent
                // index, so split tracking follows the same path.
                Node::<V>::lemma_descent_index(keys0, key, ci as int);
                assert(old(node).splits_leaf(key, lcap as nat) == cs0[ci as int].splits_leaf(
                    key,
                    lcap as nat,
                ));
            }
            let mut child = children.remove(ci);
            let r0 = insert_node(
                &mut child,
                key,
                value,
                lcap,
                bcap,
                Ghost(Node::<V>::child_lo(keys0, lo, ci as int)),
                Ghost(Node::<V>::child_hi(keys0, hi, ci as int)),
                Ghost(false),
            );
            children.insert(ci, child);
            proof {
                assert(children@ =~= cs0.update(ci as int, children@[ci as int]));
            }
            res = r0;
        },
        Node::Leaf { .. } => {
            proof {
                assert(false);
            }
            ci = 0;
            res = InsertResult::NoSplit(None);
        },
    }
    let ghost a = Node::<V>::ents(cs0, 0, ci as int);
    let ghost c = cs0[ci as int].entries();
    let ghost b = Node::<V>::ents(cs0, ci + 1, n0);
    let ghost ei = insert_entry(e0, key, value_snap);
    match res {
        InsertResult::NoSplit(oldv) => {
            proof {
                assert(!node.is_leaf());
                assert(node.node_keys() == keys0);
                let child = node.node_children()[ci as int];
                let cs1 = node.node_children();
                assert(cs1 == cs0.update(ci as int, child));
                Node::<V>::lemma_branch_update_child(
                    keys0,
                    cs0,
                    lcap as nat,
                    bcap as nat,
                    lo,
                    hi,
                    ci as int,
                    child,
                );
                assert(node.entries() == Node::<V>::ents(cs1, 0, n0));
                assert(node.entries() == (a + child.entries()) + b);
                assert((a + child.entries()) + b =~= a + (child.entries() + b));
                assert(child.entries() + b =~= (insert_entry(c, key, value_snap) + b));
                assert(node.entries() =~= ei);
                assert(cs1[0].height() == cs0[0].height());
                assert(node.height() == old(node).height());
                assert(node.wf(lcap as nat, bcap as nat, lo, hi, root));
                assert(oldv == lookup(e0, key));
                assert(node.leaf_total() == Node::<V>::leaves_of(cs1, 0, n0));
                assert(old(node).leaf_total() == Node::<V>::leaves_of(cs0, 0, n0));
            }
            InsertResult::NoSplit(oldv)
        },
        InsertResult::Split { sep_key, right, old_value } => {
            let ghost child1 = node.node_children()[ci as int];
            let ghost cs1 = node.node_children();
            let ghost rent = right.entries();
            proof {
                assert(node.node_keys() == keys0);
                assert(cs1 == cs0.update(ci as int, child1));
                // Widen the updated child back to its previous window so the
                // branch shape is well-formed before installing the split.
                child1.lemma_wf_widen(
                    lcap as nat,
                    bcap as nat,
                    Node::<V>::child_lo(keys0, lo, ci as int),
                    Some(sep_key as int),
                    Node::<V>::child_lo(keys0, lo, ci as int),
                    Node::<V>::child_hi(keys0, hi, ci as int),
                    false,
                );
                Node::<V>::lemma_branch_update_child(
                    keys0,
                    cs0,
                    lcap as nat,
                    bcap as nat,
                    lo,
                    hi,
                    ci as int,
                    child1,
                );
                Node::<V>::lemma_ents_split(cs1, 0, ci as int, ci + 1);
                Node::<V>::lemma_ents_shift(cs0, cs1, 0, ci as int, 0);
                Node::<V>::lemma_ents_shift(cs0, cs1, ci + 1, n0, 0);
                assert(ci < cs1.len());
                assert(Node::<V>::ents(cs1, ci + 1, ci + 1) =~= Seq::<(i64, V)>::empty());
                assert(Node::<V>::ents(cs1, ci as int, ci + 1) == cs1[ci as int].entries()
                    + Node::<V>::ents(cs1, ci + 1, ci + 1));
                assert(Node::<V>::ents(cs1, ci as int, ci + 1) =~= child1.entries());
                assert(Node::<V>::ents(cs1, 0, ci + 1) == a + child1.entries());
                assert(Node::<V>::ents(cs1, ci + 1, n0) == b);
                assert(node.leaf_total() == Node::<V>::leaves_of(cs1, 0, n0));
                assert(old(node).leaf_total() == Node::<V>::leaves_of(cs0, 0, n0));
            }
            let r2 = branch_apply_split(
                node,
                ci,
                sep_key,
                right,
                old_value,
                bcap,
                Ghost(lcap as nat),
                Ghost(lo),
                Ghost(hi),
                Ghost(root),
            );
            proof {
                let total = (a + child1.entries()) + rent + b;
                assert(total =~= a + ((child1.entries() + rent) + b));
                assert(child1.entries() + rent == insert_entry(c, key, value_snap));
                assert(insert_entry(c, key, value_snap) + b == insert_entry(c + b, key, value_snap));
                assert(a + (insert_entry(c, key, value_snap) + b) == ei);
                assert(total == ei);
                assert(child1.leaf_total() + right.leaf_total() == cs0[ci as int].leaf_total()
                    + 1);
            }
            r2
        },
    }
}

impl<V> BPlusTreeMap<V> {
    /// Insert `key -> value`; returns the value previously stored under
    /// `key`, if any.
    pub fn insert(&mut self, key: i64, value: V) -> (r: Option<V>)
        requires
            old(self).wf(),
            old(self)@.len() < usize::MAX,
        ensures
            final(self).wf(),
            final(self)@ == insert_entry(old(self)@, key, value),
            r == lookup(old(self)@, key),
            final(self).lcap() == old(self).lcap(),
            final(self).bcap() == old(self).bcap(),
            final(self)@.len() == if r is Some {
                old(self)@.len() as int
            } else {
                old(self)@.len() + 1 as int
            },
            final(self).spec_leaf_count() == if old(self).spec_leaf_count() == 0 {
                1nat
            } else if old(self).spec_splits_leaf(key) {
                old(self).spec_leaf_count() + 1
            } else {
                old(self).spec_leaf_count()
            },
    {
        let ghost e0 = self@;
        let ghost value_snap = value;
        let lcap = self.leaf_layout.cap as usize;
        let bcap = self.branch_layout.cap as usize;
        let mut root = match self.root.take() {
            Some(n) => n,
            None => Node::Leaf { keys: Vec::new(), vals: Vec::new() },
        };
        proof {
            if old(self).root is Some {
                root.lemma_wf_entries(lcap as nat, bcap as nat, None, None, true);
                root.lemma_leaf_total_pos(lcap as nat, bcap as nat, None, None, true);
            } else {
                assert(root.entries() =~= Seq::<(i64, V)>::empty());
                assert(zip_entries(root.node_keys(), root.node_vals()) =~= Seq::<(i64, V)>::empty());
            }
            assert(root.entries() == e0);
            lemma_insert_len(e0, key, value_snap);
        }
        let res = insert_node(
            &mut root,
            key,
            value,
            lcap,
            bcap,
            Ghost(None),
            Ghost(None),
            Ghost(true),
        );
        let r: Option<V>;
        match res {
            InsertResult::NoSplit(oldv) => {
                r = oldv;
                self.root = Some(root);
            },
            InsertResult::Split { sep_key, right, old_value } => {
                r = old_value;
                let mut ks: Vec<i64> = Vec::new();
                ks.push(sep_key);
                let mut cs: Vec<Node<V>> = Vec::new();
                let ghost le = root.entries();
                let ghost re = right.entries();
                cs.push(root);
                cs.push(right);
                let new_root = Node::Branch { keys: ks, children: cs };
                proof {
                    let keys1 = new_root.node_keys();
                    let cs1 = new_root.node_children();
                    assert(cs1.len() == 2);
                    assert(keys1.len() == 1);
                    assert(keys1[0] == sep_key);
                    assert forall|i: int| 0 <= i < cs1.len() implies (#[trigger] cs1[i]).wf(
                        lcap as nat,
                        bcap as nat,
                        Node::<V>::child_lo(keys1, None, i),
                        Node::<V>::child_hi(keys1, None, i),
                        false,
                    ) by {}
                    assert(Node::<V>::branch_wf(keys1, cs1, lcap as nat, bcap as nat, None, None));
                    assert(Node::<V>::ents(cs1, 2, 2) =~= Seq::<(i64, V)>::empty());
                    assert(Node::<V>::ents(cs1, 1, 2) == cs1[1].entries() + Node::<V>::ents(
                        cs1,
                        2,
                        2,
                    ));
                    assert(Node::<V>::ents(cs1, 1, 2) =~= re);
                    assert(Node::<V>::ents(cs1, 0, 2) == cs1[0].entries() + Node::<V>::ents(
                        cs1,
                        1,
                        2,
                    ));
                    assert(new_root.entries() =~= le + re);
                    assert(Node::<V>::leaves_of(cs1, 2, 2) == 0);
                    assert(Node::<V>::leaves_of(cs1, 1, 2) == cs1[1].leaf_total()
                        + Node::<V>::leaves_of(cs1, 2, 2));
                    assert(Node::<V>::leaves_of(cs1, 0, 2) == cs1[0].leaf_total()
                        + Node::<V>::leaves_of(cs1, 1, 2));
                }
                self.root = Some(new_root);
            },
        }
        if r.is_none() {
            self.length = self.length + 1;
        }
        r
    }

    /// Insert every pair of `items` in order; returns the previous values,
    /// one per pair.
    pub fn batch_insert(&mut self, items: Vec<(i64, V)>) -> (r: BTreeResult<Vec<Option<V>>>)
        requires
            old(self).wf(),
            old(self)@.len() + items@.len() <= usize::MAX,
        ensures
            final(self).wf(),
            final(self)@ == insert_entries(old(self)@, items@),
            final(self).lcap() == old(self).lcap(),
            final(self).bcap() == old(self).bcap(),
            match r {
                Ok(vs) => {
                    &&& vs@.len() == items@.len()
                    &&& forall|j: int|
                        0 <= j < items@.len() ==> #[trigger] vs@[j] == lookup(
                            insert_entries(old(self)@, items@.subrange(0, j)),
                            items@[j].0,
                        )
                },
                Err(_) => false,
            },
    {
        let ghost items0 = items@;
        let mut items = items;
        let mut old_vals: Vec<Option<V>> = Vec::new();
        proof {
            assert(items0.subrange(0, 0) =~= Seq::<(i64, V)>::empty());
        }
        while items.len() > 0
            invariant
                self.wf(),
                items@.len() <= items0.len(),
                items@ == items0.subrange(
                    items0.len() - items@.len(),
                    items0.len() as int,
                ),
                old_vals@.len() == items0.len() - items@.len(),
                self@ == insert_entries(
                    old(self)@,
                    items0.subrange(0, items0.len() - items@.len()),
                ),
                self@.len() <= old(self)@.len() + items0.len() - items@.len(),
                old(self)@.len() + items0.len() <= usize::MAX,
                self.lcap() == old(self).lcap(),
                self.bcap() == old(self).bcap(),
                forall|j: int|
                    0 <= j < old_vals@.len() ==> #[trigger] old_vals@[j] == lookup(
                        insert_entries(old(self)@, items0.subrange(0, j)),
                        items0[j].0,
                    ),
            decreases items@.len(),
        {
            let ghost idx = items0.len() - items@.len();
            let pair = items.remove(0);
            proof {
                assert(pair == items0[idx as int]);
                assert(items@ =~= items0.subrange(idx + 1, items0.len() as int));
                assert(items0.subrange(0, idx + 1).drop_last() =~= items0.subrange(0, idx as int));
                assert(items0.subrange(0, idx + 1).last() == items0[idx as int]);
            }
            let oldv = self.insert(pair.0, pair.1);
            old_vals.push(oldv);
        }
        proof {
            assert(items0.subrange(0, items0.len() as int) =~= items0);
        }
        Ok(old_vals)
    }

    /// `insert`, reported through the fallible result alias.
    pub fn try_insert(&mut self, key: i64, value: V) -> (r: BTreeResult<Option<V>>)
        requires
            old(self).wf(),
            old(self)@.len() < usize::MAX,
        ensures
            final(self).wf(),
            final(self)@ == insert_entry(old(self)@, key, value),
            r == Ok::<Option<V>, crate::BPlusTreeError>(lookup(old(self)@, key)),
            final(self).lcap() == old(self).lcap(),
            final(self).bcap() == old(self).bcap(),
    {
        Ok(self.insert(key, value))
    }
}

} // verus!
