//! Deletion engine: remove at the target leaf, rebalance underfull nodes with
//! a sibling on the way back up, and collapse the root when it loses its last
//! separator.
//!
//! An underfull child borrows one key from the left sibling when that
//! sibling is above its minimum occupancy, else one from the right sibling
//! when that one is, and otherwise merges with a sibling, preferring the
//! left. A leaf borrow moves one key/value pair across and re-clones the
//! parent separator from the new boundary; a branch borrow rotates the
//! parent separator down and promotes the donor's edge separator.

use vstd::prelude::*;

use crate::common::binary_search_keys;
use crate::model::{
    lemma_lookup_concat_left, lemma_lookup_concat_right, lemma_lookup_none, lemma_remove_at_index,
    lemma_remove_concat_left, lemma_remove_concat_right, lemma_remove_len, lemma_remove_none,
    lookup, remove_entry,
};
use crate::node::{above_lo, below_hi, zip_entries, KeyBd, Node};
use crate::{BPlusTreeError, BPlusTreeMap, ModifyResult};

verus! {


/// The parent-branch context in which a child is rebalanced: shape, order
/// and bound facts, every child except `ci` fully well-formed, and the child
/// at `ci` structurally sound but exactly one key under its minimum
/// occupancy.
pub(crate) open spec fn rebalance_ctx<V>(
    keys: Seq<i64>,
    cs: Seq<Node<V>>,
    lcap: nat,
    bcap: nat,
    lo: KeyBd,
    hi: KeyBd,
    ci: int,
) -> bool {
    &&& cs.len() == keys.len() + 1
    &&& 1 <= keys.len() <= bcap
    &&& 0 <= ci < cs.len()
    &&& (forall|i: int, k: int|
        0 <= i < k < keys.len() ==> #[trigger] keys[i] < #[trigger] keys[k])
    &&& (forall|i: int|
        0 <= i < keys.len() ==> above_lo(#[trigger] keys[i] as int, lo) && below_hi(
            keys[i] as int,
            hi,
        ))
    &&& (forall|i: int|
        0 <= i < cs.len() && i != ci ==> (#[trigger] cs[i]).wf(
            lcap,
            bcap,
            Node::<V>::child_lo(keys, lo, i),
            Node::<V>::child_hi(keys, hi, i),
            false,
        ))
    &&& (forall|i: int| 0 <= i < cs.len() ==> (#[trigger] cs[i]).height() == cs[ci].height())
    &&& cs[ci].wf_except_min(
        lcap,
        bcap,
        Node::<V>::child_lo(keys, lo, ci),
        Node::<V>::child_hi(keys, hi, ci),
    )
    &&& cs[ci].key_count() + 1 >= rebalance_min(cs[ci], lcap, bcap)
    &&& cs[ci].key_count() < rebalance_min(cs[ci], lcap, bcap)
}

/// The minimum occupancy that applies to a node of this kind.
pub(crate) open spec fn rebalance_min<V>(n: Node<V>, lcap: nat, bcap: nat) -> nat {
    if n is Leaf {
        lcap / 2
    } else {
        bcap / 2
    }
}

/// What every rebalancing step owes: the parent is a branch again, lost at
/// most its separator for the merged pair, satisfies the branch shape, and
/// carries exactly the entries it had, at the same height.
pub(crate) open spec fn rebalanced<V>(
    pre: Node<V>,
    post: Node<V>,
    lcap: nat,
    bcap: nat,
    lo: KeyBd,
    hi: KeyBd,
) -> bool {
    &&& post is Branch
    &&& post.node_keys().len() + 1 >= pre.node_keys().len()
    &&& post.node_keys().len() <= pre.node_keys().len()
    &&& Node::<V>::branch_wf(post.node_keys(), post.node_children(), lcap, bcap, lo, hi)
    &&& post.entries() == pre.entries()
    &&& post.height() == pre.height()
}

/// Move the last key/value pair of the left sibling to the front of the
/// underfull leaf at `ci`; the parent separator between them becomes a clone
/// of the child's new first key.
#[verifier::rlimit(100)]
fn borrow_from_left_leaf<V>(
    node: &mut Node<V>,
    ci: usize,
    lcap: usize,
    bcap: usize,
    Ghost(lo): Ghost<KeyBd>,
    Ghost(hi): Ghost<KeyBd>,
)
    requires
        *old(node) is Branch,
        rebalance_ctx(
            old(node).node_keys(),
            old(node).node_children(),
            lcap as nat,
            bcap as nat,
            lo,
            hi,
            ci as int,
        ),
        4 <= lcap <= 65535,
        4 <= bcap <= 65535,
        old(node).node_children()[ci as int] is Leaf,
        ci >= 1,
        old(node).node_children()[ci - 1].key_count() > (lcap as nat) / 2,
    ensures
        rebalanced(*old(node), *final(node), lcap as nat, bcap as nat, lo, hi),
        ({
            let keys0 = old(node).node_keys();
            let cs0 = old(node).node_children();
            let moved = cs0[ci - 1].entries().last();
            &&& final(node).node_keys() == keys0.update(ci - 1, moved.0)
            &&& final(node).node_children().len() == cs0.len()
            &&& final(node).node_children()[ci - 1].entries() == cs0[ci - 1].entries().drop_last()
            &&& final(node).node_children()[ci as int].entries() == seq![moved] + cs0[
                ci as int
            ].entries()
            &&& (forall|i: int|
                0 <= i < cs0.len() && i != ci - 1 && i != ci ==> final(node).node_children()[i]
                    == #[trigger] cs0[i])
            &&& final(node).node_children()[ci as int].key_count() == cs0[
                ci as int
            ].key_count() + 1
            &&& final(node).node_children()[ci - 1].key_count() == cs0[ci - 1].key_count() - 1
            &&& final(node).node_keys()[ci - 1] == final(node).node_children()[
                ci as int
            ].node_keys()[0]
        }),
{
    let ghost keys0 = old(node).node_keys();
    let ghost cs0 = old(node).node_children();
    let ghost n0 = cs0.len() as int;
    let j = ci - 1;
    match node {
        Node::Branch { keys, children } => {
            let sep_mid = keys[j];
            let ghost jj = j as int;
            let ghost ln0 = cs0[jj];
            let ghost rn0 = cs0[jj + 1];
            proof {
                assert(Node::<V>::child_hi(keys0, hi, jj) == Some(sep_mid as int));
                assert(Node::<V>::child_lo(keys0, lo, jj + 1) == Some(sep_mid as int));
                assert(ln0.wf(
                    lcap as nat,
                    bcap as nat,
                    Node::<V>::child_lo(keys0, lo, jj),
                    Some(sep_mid as int),
                    false,
                ));
                assert(ln0.height() == rn0.height());
                assert(rn0.height() == 0);
                if ln0 is Branch {
                    assert(ln0.height() >= 1);
                }
            }
            let rn = children.remove(j + 1);
            let ln = children.remove(j);
            let (mut lk, mut lv) = match ln {
                Node::Leaf { keys: k, vals: v } => (k, v),
                Node::Branch { .. } => {
                    proof {
                        assert(false);
                    }
                    (Vec::new(), Vec::new())
                },
            };
            let (mut ck, mut cv) = match rn {
                Node::Leaf { keys: k, vals: v } => (k, v),
                Node::Branch { .. } => {
                    proof {
                        assert(false);
                    }
                    (Vec::new(), Vec::new())
                },
            };
            let ghost lk0 = lk@;
            let ghost lv0 = lv@;
            let ghost ck0 = ck@;
            let k = lk.remove(lk.len() - 1);
            let v = lv.remove(lv.len() - 1);
            ck.insert(0, k);
            cv.insert(0, v);
            let l2 = Node::Leaf { keys: lk, vals: lv };
            let c2 = Node::Leaf { keys: ck, vals: cv };
            proof {
                assert(lk0[lk0.len() - 1] == k);
                assert(ln0.entries().last() == (k, v));
                assert(l2.entries() =~= ln0.entries().drop_last());
                assert(c2.entries() =~= seq![(k, v)] + rn0.entries());
                // The donated key lies strictly between the two halves.
                assert(forall|i: int| 0 <= i < lk0.len() ==> #[trigger] lk0[i] < sep_mid);
                assert(forall|i: int| 0 <= i < ck0.len() ==> #[trigger] ck0[i] >= sep_mid);
                assert(l2.wf(
                    lcap as nat,
                    bcap as nat,
                    Node::<V>::child_lo(keys0, lo, jj),
                    Some(k as int),
                    false,
                ));
                assert(c2.wf(
                    lcap as nat,
                    bcap as nat,
                    Some(k as int),
                    Node::<V>::child_hi(keys0, hi, jj + 1),
                    false,
                ));
            }
            children.insert(j, l2);
            children.insert(j + 1, c2);
            let _ = keys.remove(j);
            keys.insert(j, k);
            proof {
                // The new separator sits strictly inside the pair's window.
                assert(lk0[0] < k);
                assert(above_lo(lk0[0] as int, Node::<V>::child_lo(keys0, lo, jj)));
                assert(keys@ =~= keys0.update(jj, k));
                assert(children@ =~= cs0.update(jj, l2).update(jj + 1, c2));
                assert(l2.entries() + c2.entries() =~= ln0.entries() + rn0.entries());
                Node::<V>::lemma_branch_pair_split(
                    keys0,
                    cs0,
                    lcap as nat,
                    bcap as nat,
                    lo,
                    hi,
                    jj,
                    k,
                    l2,
                    c2,
                    keys@,
                    children@,
                );
                assert(node.entries() == Node::<V>::ents(cs0, 0, n0));
                assert(node.node_children()[0].height() == cs0[0].height());
                assert(node.height() == old(node).height());
                assert(c2.node_keys()[0] == k);
            }
        },
        Node::Leaf { .. } => {
            proof {
                assert(false);
            }
        },
    }
}

/// Move the first key/value pair of the right sibling to the back of the
/// underfull leaf at `ci`; the parent separator between them becomes a clone
/// of the right sibling's new first key.
#[verifier::rlimit(100)]
fn borrow_from_right_leaf<V>(
    node: &mut Node<V>,
    ci: usize,
    lcap: usize,
    bcap: usize,
    Ghost(lo): Ghost<KeyBd>,
    Ghost(hi): Ghost<KeyBd>,
)
    requires
        *old(node) is Branch,
        rebalance_ctx(
            old(node).node_keys(),
            old(node).node_children(),
            lcap as nat,
            bcap as nat,
            lo,
            hi,
            ci as int,
        ),
        4 <= lcap <= 65535,
        4 <= bcap <= 65535,
        old(node).node_children()[ci as int] is Leaf,
        ci + 1 < old(node).node_children().len(),
        old(node).node_children()[ci + 1].key_count() > (lcap as nat) / 2,
    ensures
        rebalanced(*old(node), *final(node), lcap as nat, bcap as nat, lo, hi),
        ({
            let keys0 = old(node).node_keys();
            let cs0 = old(node).node_children();
            let moved = cs0[ci + 1].entries().first();
            &&& final(node).node_keys() == keys0.update(
                ci as int,
                final(node).node_children()[ci + 1].node_keys()[0],
            )
            &&& final(node).node_children().len() == cs0.len()
            &&& final(node).node_children()[ci as int].entries() == cs0[ci as int].entries()
                + seq![moved]
            &&& final(node).node_children()[ci + 1].entries() == cs0[ci + 1].entries().drop_first()
            &&& final(node).node_children()[ci as int].key_count() == cs0[
                ci as int
            ].key_count() + 1
            &&& final(node).node_children()[ci + 1].key_count() == cs0[ci + 1].key_count() - 1
            &&& (forall|i: int|
                0 <= i < cs0.len() && i != ci && i != ci + 1 ==> final(node).node_children()[i]
                    == #[trigger] cs0[i])
        }),
{
    let ghost keys0 = old(node).node_keys();
    let ghost cs0 = old(node).node_children();
    let ghost n0 = cs0.len() as int;
    let j = ci;
    match node {
        Node::Branch { keys, children } => {
            let sep_mid = keys[j];
            let ghost jj = j as int;
            let ghost ln0 = cs0[jj];
            let ghost rn0 = cs0[jj + 1];
            proof {
                assert(Node::<V>::child_hi(keys0, hi, jj) == Some(sep_mid as int));
                assert(Node::<V>::child_lo(keys0, lo, jj + 1) == Some(sep_mid as int));
                assert(rn0.wf(
                    lcap as nat,
                    bcap as nat,
                    Some(sep_mid as int),
                    Node::<V>::child_hi(keys0, hi, jj + 1),
                    false,
                ));
                assert(ln0.height() == rn0.height());
                assert(ln0.height() == 0);
                if rn0 is Branch {
                    assert(rn0.height() >= 1);
                }
            }
            let rn = children.remove(j + 1);
            let ln = children.remove(j);
            let (mut ck, mut cv) = match ln {
                Node::Leaf { keys: k, vals: v } => (k, v),
                Node::Branch { .. } => {
                    proof {
                        assert(false);
                    }
                    (Vec::new(), Vec::new())
                },
            };
            let (mut rk, mut rv) = match rn {
                Node::Leaf { keys: k, vals: v } => (k, v),
                Node::Branch { .. } => {
                    proof {
                        assert(false);
                    }
                    (Vec::new(), Vec::new())
                },
            };
            let ghost ck0 = ck@;
            let ghost rk0 = rk@;
            let ghost rv0 = rv@;
            let k = rk.remove(0);
            let v = rv.remove(0);
            ck.push(k);
            cv.push(v);
            let newsep = rk[0];
            let c2 = Node::Leaf { keys: ck, vals: cv };
            let r2 = Node::Leaf { keys: rk, vals: rv };
            proof {
                assert(rk0[0] == k);
                assert(rn0.entries().first() == (k, v));
                assert(newsep == rk0[1]);
                assert(c2.entries() =~= ln0.entries() + seq![(k, v)]);
                assert(r2.entries() =~= rn0.entries().drop_first());
                // The moved key sits below the donor's remaining keys.
                assert(forall|i: int| 0 <= i < ck0.len() ==> #[trigger] ck0[i] < sep_mid);
                assert(forall|i: int| 0 <= i < rk0.len() ==> #[trigger] rk0[i] >= sep_mid);
                assert(c2.wf(
                    lcap as nat,
                    bcap as nat,
                    Node::<V>::child_lo(keys0, lo, jj),
                    Some(newsep as int),
                    false,
                ));
                assert(r2.wf(
                    lcap as nat,
                    bcap as nat,
                    Some(newsep as int),
                    Node::<V>::child_hi(keys0, hi, jj + 1),
                    false,
                ));
            }
            children.insert(j, c2);
            children.insert(j + 1, r2);
            let _ = keys.remove(j);
            keys.insert(j, newsep);
            proof {
                assert(keys@ =~= keys0.update(jj, newsep));
                assert(children@ =~= cs0.update(jj, c2).update(jj + 1, r2));
                assert(c2.entries() + r2.entries() =~= ln0.entries() + rn0.entries());
                Node::<V>::lemma_branch_pair_split(
                    keys0,
                    cs0,
                    lcap as nat,
                    bcap as nat,
                    lo,
                    hi,
                    jj,
                    newsep,
                    c2,
                    r2,
                    keys@,
                    children@,
                );
                assert(node.entries() == Node::<V>::ents(cs0, 0, n0));
                assert(node.node_children()[0].height() == cs0[0].height());
                assert(node.height() == old(node).height());
                assert(r2.node_keys()[0] == newsep);
            }
        },
        Node::Leaf { .. } => {
            proof {
                assert(false);
            }
        },
    }
}

/// Rotate one key through the parent from the left sibling branch: the
/// donor's last child moves to the front of the underfull branch at `ci`,
/// the parent separator comes down as the child's new first separator, and
/// the donor's last separator is promoted into the parent.
#[verifier::rlimit(100)]
fn borrow_from_left_branch<V>(
    node: &mut Node<V>,
    ci: usize,
    lcap: usize,
    bcap: usize,
    Ghost(lo): Ghost<KeyBd>,
    Ghost(hi): Ghost<KeyBd>,
)
    requires
        *old(node) is Branch,
        rebalance_ctx(
            old(node).node_keys(),
            old(node).node_children(),
            lcap as nat,
            bcap as nat,
            lo,
            hi,
            ci as int,
        ),
        4 <= lcap <= 65535,
        4 <= bcap <= 65535,
        old(node).node_children()[ci as int] is Branch,
        ci >= 1,
        old(node).node_children()[ci - 1].key_count() > (bcap as nat) / 2,
    ensures
        rebalanced(*old(node), *final(node), lcap as nat, bcap as nat, lo, hi),
        ({
            let keys0 = old(node).node_keys();
            let cs0 = old(node).node_children();
            let donor_keys = cs0[ci - 1].node_keys();
            let donor_children = cs0[ci - 1].node_children();
            &&& final(node).node_keys() == keys0.update(ci - 1, donor_keys.last())
            &&& final(node).node_children().len() == cs0.len()
            &&& final(node).node_children()[ci - 1].node_keys() == donor_keys.drop_last()
            &&& final(node).node_children()[ci - 1].node_children() == donor_children.drop_last()
            &&& final(node).node_children()[ci as int].node_keys() == seq![keys0[ci - 1]] + cs0[
                ci as int
            ].node_keys()
            &&& final(node).node_children()[ci as int].node_children() == seq![
                donor_children.last(),
            ] + cs0[ci as int].node_children()
            &&& final(node).node_children()[ci as int].key_count() == cs0[
                ci as int
            ].key_count() + 1
            &&& final(node).node_children()[ci - 1].key_count() == cs0[ci - 1].key_count() - 1
            &&& (forall|i: int|
                0 <= i < cs0.len() && i != ci - 1 && i != ci ==> final(node).node_children()[i]
                    == #[trigger] cs0[i])
        }),
{
    let ghost keys0 = old(node).node_keys();
    let ghost cs0 = old(node).node_children();
    let ghost n0 = cs0.len() as int;
    let j = ci - 1;
    match node {
        Node::Branch { keys, children } => {
            let sep_mid = keys[j];
            let ghost jj = j as int;
            let ghost ln0 = cs0[jj];
            let ghost rn0 = cs0[jj + 1];
            proof {
                assert(Node::<V>::child_hi(keys0, hi, jj) == Some(sep_mid as int));
                assert(Node::<V>::child_lo(keys0, lo, jj + 1) == Some(sep_mid as int));
                assert(ln0.wf(
                    lcap as nat,
                    bcap as nat,
                    Node::<V>::child_lo(keys0, lo, jj),
                    Some(sep_mid as int),
                    false,
                ));
                assert(ln0.height() == rn0.height());
                assert(rn0.height() >= 1);
                if ln0 is Leaf {
                    assert(ln0.height() == 0);
                }
            }
            let rn = children.remove(j + 1);
            let ln = children.remove(j);
            let (mut lk, mut lcs) = match ln {
                Node::Branch { keys: k, children: c } => (k, c),
                Node::Leaf { .. } => {
                    proof {
                        assert(false);
                    }
                    (Vec::new(), Vec::new())
                },
            };
            let (mut ck, mut ccs) = match rn {
                Node::Branch { keys: k, children: c } => (k, c),
                Node::Leaf { .. } => {
                    proof {
                        assert(false);
                    }
                    (Vec::new(), Vec::new())
                },
            };
            let ghost lk0 = lk@;
            let ghost lcs0 = lcs@;
            let ghost ck0 = ck@;
            let ghost ccs0 = ccs@;
            let ghost pm = lk0.len() - 1;
            proof {
                // The donor splits into everything below its last separator
                // and its last child.
                Node::<V>::lemma_branch_halves(
                    lk0,
                    lcs0,
                    lcap as nat,
                    bcap as nat,
                    Node::<V>::child_lo(keys0, lo, jj),
                    Some(sep_mid as int),
                    pm,
                );
                // The parent separator strictly precedes the child's first
                // separator, because the child's first subtree is nonempty.
                if ck0.len() > 0 {
                    let c0 = ccs0[0];
                    c0.lemma_wf_nonempty(
                        lcap as nat,
                        bcap as nat,
                        Some(sep_mid as int),
                        Some(ck0[0] as int),
                    );
                    c0.lemma_wf_entries(
                        lcap as nat,
                        bcap as nat,
                        Some(sep_mid as int),
                        Some(ck0[0] as int),
                        false,
                    );
                    assert(above_lo(c0.entries()[0].0 as int, Some(sep_mid as int)));
                    assert(below_hi(c0.entries()[0].0 as int, Some(ck0[0] as int)));
                }
            }
            let bk = lk.remove(lk.len() - 1);
            let bc = lcs.remove(lcs.len() - 1);
            ck.insert(0, sep_mid);
            ccs.insert(0, bc);
            let l2 = Node::Branch { keys: lk, children: lcs };
            let c2 = Node::Branch { keys: ck, children: ccs };
            proof {
                assert(bk == lk0[pm]);
                assert(l2.node_keys() =~= lk0.subrange(0, pm));
                assert(l2.node_children() =~= lcs0.subrange(0, pm + 1));
                assert(c2.node_keys() =~= Seq::<i64>::empty() + seq![sep_mid] + ck0);
                assert(c2.node_children() =~= seq![lcs0.last()] + ccs0);
                // The borrowed child carries the donor's tail entries; its
                // window is the gap between the promoted key and the old
                // separator.
                let bcn = lcs0.last();
                assert(lcs0.subrange(pm + 1, lcs0.len() as int) =~= seq![bcn]);
                assert(Node::<V>::branch_wf(
                    lk0.subrange(pm + 1, lk0.len() as int),
                    lcs0.subrange(pm + 1, lcs0.len() as int),
                    lcap as nat,
                    bcap as nat,
                    Some(bk as int),
                    Some(sep_mid as int),
                ));
                assert(bcn.wf(
                    lcap as nat,
                    bcap as nat,
                    Some(bk as int),
                    Some(sep_mid as int),
                    false,
                )) by {
                    assert(lk0.subrange(pm + 1, lk0.len() as int).len() == 0);
                    assert(lcs0.subrange(pm + 1, lcs0.len() as int)[0] == bcn);
                    assert(Node::<V>::child_lo(
                        lk0.subrange(pm + 1, lk0.len() as int),
                        Some(bk as int),
                        0,
                    ) == Some(bk as int));
                    assert(Node::<V>::child_hi(
                        lk0.subrange(pm + 1, lk0.len() as int),
                        Some(sep_mid as int),
                        0,
                    ) == Some(sep_mid as int));
                }
                // Heights: the borrowed child sits one level below the pair.
                assert(bcn.height() == lcs0[0].height());
                assert(ccs0[0].height() == bcn.height()) by {
                    assert(ln0.height() == 1 + lcs0[0].height());
                    assert(rn0.height() == 1 + ccs0[0].height());
                }
                Node::<V>::lemma_branch_concat(
                    Seq::<i64>::empty(),
                    seq![bcn],
                    ck0,
                    ccs0,
                    lcap as nat,
                    bcap as nat,
                    Some(bk as int),
                    Node::<V>::child_hi(keys0, hi, jj + 1),
                    sep_mid,
                    c2.node_keys(),
                    c2.node_children(),
                );
                assert(l2.wf(
                    lcap as nat,
                    bcap as nat,
                    Node::<V>::child_lo(keys0, lo, jj),
                    Some(bk as int),
                    false,
                ));
                assert(c2.wf(
                    lcap as nat,
                    bcap as nat,
                    Some(bk as int),
                    Node::<V>::child_hi(keys0, hi, jj + 1),
                    false,
                ));
            }
            children.insert(j, l2);
            children.insert(j + 1, c2);
            let _ = keys.remove(j);
            keys.insert(j, bk);
            proof {
                assert(keys@ =~= keys0.update(jj, bk));
                assert(children@ =~= cs0.update(jj, l2).update(jj + 1, c2));
                // Entries are conserved: the borrowed child's entries move
                // from the donor to the child.
                let bcn = lcs0.last();
                assert(seq![bcn][0] == bcn);
                assert(Node::<V>::ents(seq![bcn], 1, 1) =~= Seq::<(i64, V)>::empty());
                assert(Node::<V>::ents(seq![bcn], 0, 1) == seq![bcn][0].entries()
                    + Node::<V>::ents(seq![bcn], 1, 1));
                assert(Node::<V>::ents(seq![bcn], 0, 1) =~= bcn.entries());
                assert(c2.entries() == Node::<V>::ents(seq![bcn], 0, 1) + Node::<V>::ents(
                    ccs0,
                    0,
                    ccs0.len() as int,
                ));
                assert(l2.entries() + c2.entries() =~= ln0.entries() + rn0.entries());
                // The promoted key lies strictly inside the pair's window.
                assert(lk0[0] < bk || pm == 0);
                assert(above_lo(lk0[0] as int, Node::<V>::child_lo(keys0, lo, jj)));
                assert(pm >= 1) by {
                    assert(lk0.len() > (bcap as nat) / 2);
                    assert((bcap as nat) / 2 >= 2);
                }
                Node::<V>::lemma_branch_pair_split(
                    keys0,
                    cs0,
                    lcap as nat,
                    bcap as nat,
                    lo,
                    hi,
                    jj,
                    bk,
                    l2,
                    c2,
                    keys@,
                    children@,
                );
                assert(node.entries() == Node::<V>::ents(cs0, 0, n0));
                assert(node.node_children()[0].height() == cs0[0].height());
                assert(node.height() == old(node).height());
            }
        },
        Node::Leaf { .. } => {
            proof {
                assert(false);
            }
        },
    }
}

/// Rotate one key through the parent from the right sibling branch: the
/// donor's first child moves to the back of the underfull branch at `ci`,
/// the parent separator comes down as the child's new last separator, and
/// the donor's first separator is promoted into the parent.
#[verifier::rlimit(100)]
fn borrow_from_right_branch<V>(
    node: &mut Node<V>,
    ci: usize,
    lcap: usize,
    bcap: usize,
    Ghost(lo): Ghost<KeyBd>,
    Ghost(hi): Ghost<KeyBd>,
)
    requires
        *old(node) is Branch,
        rebalance_ctx(
            old(node).node_keys(),
            old(node).node_children(),
            lcap as nat,
            bcap as nat,
            lo,
            hi,
            ci as int,
        ),
        4 <= lcap <= 65535,
        4 <= bcap <= 65535,
        old(node).node_children()[ci as int] is Branch,
        ci + 1 < old(node).node_children().len(),
        old(node).node_children()[ci + 1].key_count() > (bcap as nat) / 2,
    ensures
        rebalanced(*old(node), *final(node), lcap as nat, bcap as nat, lo, hi),
        ({
            let keys0 = old(node).node_keys();
            let cs0 = old(node).node_children();
            let donor_keys = cs0[ci + 1].node_keys();
            let donor_children = cs0[ci + 1].node_children();
            &&& final(node).node_keys() == keys0.update(ci as int, donor_keys.first())
            &&& final(node).node_children().len() == cs0.len()
            &&& final(node).node_children()[ci as int].node_keys() == cs0[
                ci as int
            ].node_keys() + seq![keys0[ci as int]]
            &&& final(node).node_children()[ci as int].node_children() == cs0[
                ci as int
            ].node_children() + seq![donor_children.first()]
            &&& final(node).node_children()[ci + 1].node_keys() == donor_keys.drop_first()
            &&& final(node).node_children()[ci + 1].node_children() == donor_children.drop_first()
            &&& final(node).node_children()[ci as int].key_count() == cs0[
                ci as int
            ].key_count() + 1
            &&& final(node).node_children()[ci + 1].key_count() == cs0[ci + 1].key_count() - 1
            &&& (forall|i: int|
                0 <= i < cs0.len() && i != ci && i != ci + 1 ==> final(node).node_children()[i]
                    == #[trigger] cs0[i])
        }),
{
    let ghost keys0 = old(node).node_keys();
    let ghost cs0 = old(node).node_children();
    let ghost n0 = cs0.len() as int;
    let j = ci;
    match node {
        Node::Branch { keys, children } => {
            let sep_mid = keys[j];
            let ghost jj = j as int;
            let ghost ln0 = cs0[jj];
            let ghost rn0 = cs0[jj + 1];
            proof {
                assert(Node::<V>::child_hi(keys0, hi, jj) == Some(sep_mid as int));
                assert(Node::<V>::child_lo(keys0, lo, jj + 1) == Some(sep_mid as int));
                assert(rn0.wf(
                    lcap as nat,
                    bcap as nat,
                    Some(sep_mid as int),
                    Node::<V>::child_hi(keys0, hi, jj + 1),
                    false,
                ));
                assert(ln0.height() == rn0.height());
                assert(ln0.height() >= 1);
                if rn0 is Leaf {
                    assert(rn0.height() == 0);
                }
            }
            let rn = children.remove(j + 1);
            let ln = children.remove(j);
            let (mut ck, mut ccs) = match ln {
                Node::Branch { keys: k, children: c } => (k, c),
                Node::Leaf { .. } => {
                    proof {
                        assert(false);
                    }
                    (Vec::new(), Vec::new())
                },
            };
            let (mut rk, mut rcs) = match rn {
                Node::Branch { keys: k, children: c } => (k, c),
                Node::Leaf { .. } => {
                    proof {
                        assert(false);
                    }
                    (Vec::new(), Vec::new())
                },
            };
            let ghost ck0 = ck@;
            let ghost ccs0 = ccs@;
            let ghost rk0 = rk@;
            let ghost rcs0 = rcs@;
            proof {
                // The donor splits into its first child and everything above
                // its first separator.
                Node::<V>::lemma_branch_halves(
                    rk0,
                    rcs0,
                    lcap as nat,
                    bcap as nat,
                    Some(sep_mid as int),
                    Node::<V>::child_hi(keys0, hi, jj + 1),
                    0,
                );
            }
            let tk = rk.remove(0);
            let tc = rcs.remove(0);
            ck.push(sep_mid);
            ccs.push(tc);
            let c2 = Node::Branch { keys: ck, children: ccs };
            let r2 = Node::Branch { keys: rk, children: rcs };
            proof {
                assert(tk == rk0[0]);
                assert(r2.node_keys() =~= rk0.subrange(1, rk0.len() as int));
                assert(r2.node_children() =~= rcs0.subrange(1, rcs0.len() as int));
                assert(c2.node_keys() =~= ck0 + seq![sep_mid] + Seq::<i64>::empty());
                assert(c2.node_children() =~= ccs0 + seq![rcs0[0]]);
                // The transferred child's window is the gap between the old
                // separator and the promoted key.
                let tcn = rcs0[0];
                assert(rk0.subrange(0, 0) =~= Seq::<i64>::empty());
                assert(rcs0.subrange(0, 1) =~= seq![tcn]);
                assert(Node::<V>::branch_wf(
                    rk0.subrange(0, 0),
                    rcs0.subrange(0, 1),
                    lcap as nat,
                    bcap as nat,
                    Some(sep_mid as int),
                    Some(tk as int),
                ));
                assert(tcn.wf(
                    lcap as nat,
                    bcap as nat,
                    Some(sep_mid as int),
                    Some(tk as int),
                    false,
                )) by {
                    assert(rcs0.subrange(0, 1)[0] == tcn);
                    assert(Node::<V>::child_lo(rk0.subrange(0, 0), Some(sep_mid as int), 0)
                        == Some(sep_mid as int));
                    assert(Node::<V>::child_hi(rk0.subrange(0, 0), Some(tk as int), 0) == Some(
                        tk as int,
                    ));
                }
                // The old separator strictly precedes the promoted key,
                // because the transferred child is nonempty.
                tcn.lemma_wf_nonempty(
                    lcap as nat,
                    bcap as nat,
                    Some(sep_mid as int),
                    Some(tk as int),
                );
                tcn.lemma_wf_entries(
                    lcap as nat,
                    bcap as nat,
                    Some(sep_mid as int),
                    Some(tk as int),
                    false,
                );
                assert(above_lo(tcn.entries()[0].0 as int, Some(sep_mid as int)));
                assert(below_hi(tcn.entries()[0].0 as int, Some(tk as int)));
                assert(sep_mid < tk);
                // Heights: the transferred child sits one level below the
                // pair.
                assert(ccs0[0].height() == tcn.height()) by {
                    assert(ln0.height() == 1 + ccs0[0].height());
                    assert(rn0.height() == 1 + rcs0[0].height());
                }
                Node::<V>::lemma_branch_concat(
                    ck0,
                    ccs0,
                    Seq::<i64>::empty(),
                    seq![tcn],
                    lcap as nat,
                    bcap as nat,
                    Node::<V>::child_lo(keys0, lo, jj),
                    Some(tk as int),
                    sep_mid,
                    c2.node_keys(),
                    c2.node_children(),
                );
                assert(c2.wf(
                    lcap as nat,
                    bcap as nat,
                    Node::<V>::child_lo(keys0, lo, jj),
                    Some(tk as int),
                    false,
                ));
                assert(r2.wf(
                    lcap as nat,
                    bcap as nat,
                    Some(tk as int),
                    Node::<V>::child_hi(keys0, hi, jj + 1),
                    false,
                ));
            }
            children.insert(j, c2);
            children.insert(j + 1, r2);
            let _ = keys.remove(j);
            keys.insert(j, tk);
            proof {
                assert(keys@ =~= keys0.update(jj, tk));
                assert(children@ =~= cs0.update(jj, c2).update(jj + 1, r2));
                // Entries are conserved: the transferred child's entries move
                // from the donor to the child.
                let tcn = rcs0[0];
                assert(seq![tcn][0] == tcn);
                assert(Node::<V>::ents(seq![tcn], 1, 1) =~= Seq::<(i64, V)>::empty());
                assert(Node::<V>::ents(seq![tcn], 0, 1) == seq![tcn][0].entries()
                    + Node::<V>::ents(seq![tcn], 1, 1));
                assert(Node::<V>::ents(seq![tcn], 0, 1) =~= tcn.entries());
                assert(c2.entries() == Node::<V>::ents(ccs0, 0, ccs0.len() as int)
                    + Node::<V>::ents(seq![tcn], 0, 1));
                assert(c2.entries() + r2.entries() =~= ln0.entries() + rn0.entries());
                // The promoted key lies strictly inside the pair's window.
                assert(tk > sep_mid);
                Node::<V>::lemma_branch_pair_split(
                    keys0,
                    cs0,
                    lcap as nat,
                    bcap as nat,
                    lo,
                    hi,
                    jj,
                    tk,
                    c2,
                    r2,
                    keys@,
                    children@,
                );
                assert(node.entries() == Node::<V>::ents(cs0, 0, n0));
                assert(node.node_children()[0].height() == cs0[0].height());
                assert(node.height() == old(node).height());
            }
        },
        Node::Leaf { .. } => {
            proof {
                assert(false);
            }
        },
    }
}

/// Merge the underfull leaf at `ci` with a sibling (left preferred): the
/// pair's entries are combined into one leaf and the parent loses the
/// separator between them.
#[verifier::rlimit(100)]
fn merge_leaf_pair<V>(
    node: &mut Node<V>,
    ci: usize,
    lcap: usize,
    bcap: usize,
    Ghost(lo): Ghost<KeyBd>,
    Ghost(hi): Ghost<KeyBd>,
)
    requires
        *old(node) is Branch,
        rebalance_ctx(
            old(node).node_keys(),
            old(node).node_children(),
            lcap as nat,
            bcap as nat,
            lo,
            hi,
            ci as int,
        ),
        4 <= lcap <= 65535,
        4 <= bcap <= 65535,
        old(node).node_children()[ci as int] is Leaf,
        ({
            let cs = old(node).node_children();
            let j = if ci > 0 {
                ci - 1
            } else {
                ci as int
            };
            cs[j].key_count() + cs[j + 1].key_count() <= lcap as nat
        }),
    ensures
        rebalanced(*old(node), *final(node), lcap as nat, bcap as nat, lo, hi),
        ({
            let keys0 = old(node).node_keys();
            let cs0 = old(node).node_children();
            let j = if ci > 0 {
                ci - 1
            } else {
                ci as int
            };
            &&& final(node).node_keys() == keys0.remove(j)
            &&& final(node).node_children().len() == cs0.len() - 1
            &&& final(node).node_children()[j].entries() == cs0[j].entries() + cs0[
                j + 1
            ].entries()
            &&& (forall|i: int| 0 <= i < j ==> final(node).node_children()[i] == #[trigger] cs0[i])
            &&& (forall|i: int|
                j < i < cs0.len() - 1 ==> final(node).node_children()[i] == #[trigger] cs0[i + 1])
        }),
{
    let ghost keys0 = old(node).node_keys();
    let ghost cs0 = old(node).node_children();
    let ghost n0 = cs0.len() as int;
    let j = if ci > 0 {
        ci - 1
    } else {
        ci
    };
    match node {
        Node::Branch { keys, children } => {
            let sep_mid = keys[j];
            let ghost jj = j as int;
            let ghost ln0 = cs0[jj];
            let ghost rn0 = cs0[jj + 1];
            proof {
                assert(Node::<V>::child_hi(keys0, hi, jj) == Some(sep_mid as int));
                assert(Node::<V>::child_lo(keys0, lo, jj + 1) == Some(sep_mid as int));
                // The pair member that is not `ci` is fully well-formed.
                if ci == j {
                    assert(rn0.wf(
                        lcap as nat,
                        bcap as nat,
                        Some(sep_mid as int),
                        Node::<V>::child_hi(keys0, hi, jj + 1),
                        false,
                    ));
                } else {
                    assert(ln0.wf(
                        lcap as nat,
                        bcap as nat,
                        Node::<V>::child_lo(keys0, lo, jj),
                        Some(sep_mid as int),
                        false,
                    ));
                }
                assert(ln0.height() == rn0.height());
                assert(cs0[ci as int].height() == 0);
            }
            let rn = children.remove(j + 1);
            let ln = children.remove(j);
            proof {
                if ln is Branch {
                    assert(ln.height() >= 1);
                }
                if rn is Branch {
                    assert(rn.height() >= 1);
                }
            }
            let (mut lk, mut lv) = match ln {
                Node::Leaf { keys: k, vals: v } => (k, v),
                Node::Branch { .. } => {
                    proof {
                        assert(false);
                    }
                    (Vec::new(), Vec::new())
                },
            };
            let (mut rk, mut rv) = match rn {
                Node::Leaf { keys: k, vals: v } => (k, v),
                Node::Branch { .. } => {
                    proof {
                        assert(false);
                    }
                    (Vec::new(), Vec::new())
                },
            };
            let ghost lk0 = lk@;
            let ghost rk0 = rk@;
            lk.append(&mut rk);
            lv.append(&mut rv);
            let ghost zi = zip_entries(lk@, lv@);
            proof {
                assert(zi =~= ln0.entries() + rn0.entries());
                assert(forall|i: int, k: int|
                    0 <= i < k < lk@.len() ==> #[trigger] lk@[i] < #[trigger] lk@[k]) by {
                    assert(forall|i: int| 0 <= i < lk0.len() ==> #[trigger] lk0[i] < sep_mid);
                    assert(forall|i: int| 0 <= i < rk0.len() ==> #[trigger] rk0[i] >= sep_mid);
                }
            }
            let merged = Node::Leaf { keys: lk, vals: lv };
            children.insert(j, merged);
            let _ = keys.remove(j);
            proof {
                assert(merged.wf(
                    lcap as nat,
                    bcap as nat,
                    Node::<V>::child_lo(keys0, lo, jj),
                    Node::<V>::child_hi(keys0, hi, jj + 1),
                    false,
                ));
                assert(merged.entries() == ln0.entries() + rn0.entries());
                assert(keys@ =~= keys0.remove(jj));
                assert(children@ =~= cs0.update(jj, merged).remove(jj + 1));
                Node::<V>::lemma_branch_merge_pair(
                    keys0,
                    cs0,
                    lcap as nat,
                    bcap as nat,
                    lo,
                    hi,
                    jj,
                    merged,
                    keys@,
                    children@,
                );
                assert(node.entries() == Node::<V>::ents(cs0, 0, n0));
                assert(node.node_children()[0].height() == cs0[0].height());
                assert(node.height() == old(node).height());
            }
        },
        Node::Leaf { .. } => {
            proof {
                assert(false);
            }
        },
    }
}

/// Merge the underfull branch at `ci` with a sibling (left preferred): the
/// parent separator between the pair is pulled down between their separator
/// runs, their children are concatenated, and the parent loses that
/// separator.
#[verifier::rlimit(100)]
fn merge_branch_pair<V>(
    node: &mut Node<V>,
    ci: usize,
    lcap: usize,
    bcap: usize,
    Ghost(lo): Ghost<KeyBd>,
    Ghost(hi): Ghost<KeyBd>,
)
    requires
        *old(node) is Branch,
        rebalance_ctx(
            old(node).node_keys(),
            old(node).node_children(),
            lcap as nat,
            bcap as nat,
            lo,
            hi,
            ci as int,
        ),
        4 <= lcap <= 65535,
        4 <= bcap <= 65535,
        old(node).node_children()[ci as int] is Branch,
        ({
            let cs = old(node).node_children();
            let j = if ci > 0 {
                ci - 1
            } else {
                ci as int
            };
            cs[j].key_count() + cs[j + 1].key_count() + 1 <= bcap as nat
        }),
    ensures
        rebalanced(*old(node), *final(node), lcap as nat, bcap as nat, lo, hi),
        ({
            let keys0 = old(node).node_keys();
            let cs0 = old(node).node_children();
            let j = if ci > 0 {
                ci - 1
            } else {
                ci as int
            };
            &&& final(node).node_keys() == keys0.remove(j)
            &&& final(node).node_children().len() == cs0.len() - 1
            &&& final(node).node_children()[j].node_keys() == cs0[j].node_keys() + seq![
                keys0[j],
            ] + cs0[j + 1].node_keys()
            &&& final(node).node_children()[j].node_children() == cs0[j].node_children() + cs0[
                j + 1
            ].node_children()
            &&& final(node).node_children()[j].entries() == cs0[j].entries() + cs0[
                j + 1
            ].entries()
            &&& (forall|i: int| 0 <= i < j ==> final(node).node_children()[i] == #[trigger] cs0[i])
            &&& (forall|i: int|
                j < i < cs0.len() - 1 ==> final(node).node_children()[i] == #[trigger] cs0[i + 1])
        }),
{
    let ghost keys0 = old(node).node_keys();
    let ghost cs0 = old(node).node_children();
    let ghost n0 = cs0.len() as int;
    let j = if ci > 0 {
        ci - 1
    } else {
        ci
    };
    match node {
        Node::Branch { keys, children } => {
            let sep_mid = keys[j];
            let ghost jj = j as int;
            let ghost ln0 = cs0[jj];
            let ghost rn0 = cs0[jj + 1];
            proof {
                assert(Node::<V>::child_hi(keys0, hi, jj) == Some(sep_mid as int));
                assert(Node::<V>::child_lo(keys0, lo, jj + 1) == Some(sep_mid as int));
                // The pair member that is not `ci` is fully well-formed.
                if ci == j {
                    assert(rn0.wf(
                        lcap as nat,
                        bcap as nat,
                        Some(sep_mid as int),
                        Node::<V>::child_hi(keys0, hi, jj + 1),
                        false,
                    ));
                } else {
                    assert(ln0.wf(
                        lcap as nat,
                        bcap as nat,
                        Node::<V>::child_lo(keys0, lo, jj),
                        Some(sep_mid as int),
                        false,
                    ));
                }
                assert(ln0.height() == rn0.height());
                assert(cs0[ci as int].height() >= 1);
            }
            let rn = children.remove(j + 1);
            let ln = children.remove(j);
            proof {
                if ln is Leaf {
                    assert(ln.height() == 0);
                }
                if rn is Leaf {
                    assert(rn.height() == 0);
                }
            }
            let (mut lk, mut lcs) = match ln {
                Node::Branch { keys: k, children: c } => (k, c),
                Node::Leaf { .. } => {
                    proof {
                        assert(false);
                    }
                    (Vec::new(), Vec::new())
                },
            };
            let (mut rk, mut rcs) = match rn {
                Node::Branch { keys: k, children: c } => (k, c),
                Node::Leaf { .. } => {
                    proof {
                        assert(false);
                    }
                    (Vec::new(), Vec::new())
                },
            };
            let ghost lk0 = lk@;
            let ghost rk0 = rk@;
            let ghost lcs0 = lcs@;
            let ghost rcs0 = rcs@;
            proof {
                // The separator strictly precedes the right branch's first
                // key, because the right branch's first child is nonempty.
                if rk0.len() > 0 {
                    let c0 = rcs0[0];
                    c0.lemma_wf_nonempty(
                        lcap as nat,
                        bcap as nat,
                        Some(sep_mid as int),
                        Some(rk0[0] as int),
                    );
                    c0.lemma_wf_entries(
                        lcap as nat,
                        bcap as nat,
                        Some(sep_mid as int),
                        Some(rk0[0] as int),
                        false,
                    );
                    assert(above_lo(c0.entries()[0].0 as int, Some(sep_mid as int)));
                    assert(below_hi(c0.entries()[0].0 as int, Some(rk0[0] as int)));
                }
            }
            lk.push(sep_mid);
            lk.append(&mut rk);
            lcs.append(&mut rcs);
            let ghost ck = lk@;
            let ghost ccs = lcs@;
            proof {
                assert(ck =~= lk0 + seq![sep_mid] + rk0);
                assert(ccs =~= lcs0 + rcs0);
                Node::<V>::lemma_branch_concat(
                    lk0,
                    lcs0,
                    rk0,
                    rcs0,
                    lcap as nat,
                    bcap as nat,
                    Node::<V>::child_lo(keys0, lo, jj),
                    Node::<V>::child_hi(keys0, hi, jj + 1),
                    sep_mid,
                    ck,
                    ccs,
                );
            }
            let merged = Node::Branch { keys: lk, children: lcs };
            children.insert(j, merged);
            let _ = keys.remove(j);
            proof {
                assert(merged.wf(
                    lcap as nat,
                    bcap as nat,
                    Node::<V>::child_lo(keys0, lo, jj),
                    Node::<V>::child_hi(keys0, hi, jj + 1),
                    false,
                ));
                assert(merged.entries() == ln0.entries() + rn0.entries());
                assert(merged.height() == ln0.height());
                assert(keys@ =~= keys0.remove(jj));
                assert(children@ =~= cs0.update(jj, merged).remove(jj + 1));
                Node::<V>::lemma_branch_merge_pair(
                    keys0,
                    cs0,
                    lcap as nat,
                    bcap as nat,
                    lo,
                    hi,
                    jj,
                    merged,
                    keys@,
                    children@,
                );
                assert(node.entries() == Node::<V>::ents(cs0, 0, n0));
                assert(node.node_children()[0].height() == cs0[0].height());
                assert(node.height() == old(node).height());
            }
        },
        Node::Leaf { .. } => {
            proof {
                assert(false);
            }
        },
    }
}

/// Restore the minimum occupancy of the child at `ci`, which is one key
/// under it: borrow one key from the left sibling when that sibling can
/// spare one, else from the right sibling when it can, and otherwise merge
/// with a sibling, preferring the left.
fn fix_child<V>(
    node: &mut Node<V>,
    ci: usize,
    lcap: usize,
    bcap: usize,
    Ghost(lo): Ghost<KeyBd>,
    Ghost(hi): Ghost<KeyBd>,
)
    requires
        *old(node) is Branch,
        rebalance_ctx(
            old(node).node_keys(),
            old(node).node_children(),
            lcap as nat,
            bcap as nat,
            lo,
            hi,
            ci as int,
        ),
        4 <= lcap <= 65535,
        4 <= bcap <= 65535,
    ensures
        rebalanced(*old(node), *final(node), lcap as nat, bcap as nat, lo, hi),
        ({
            let keys0 = old(node).node_keys();
            let cs0 = old(node).node_children();
            let m = rebalance_min(cs0[ci as int], lcap as nat, bcap as nat);
            let can_left = ci > 0 && cs0[ci - 1].key_count() > m;
            let can_right = ci + 1 < cs0.len() && cs0[ci + 1].key_count() > m;
            &&& (can_left ==> {
                // One key moved from the left sibling to the child; only the
                // separator between them changed in the parent.
                &&& final(node).node_keys().len() == keys0.len()
                &&& final(node).node_children().len() == cs0.len()
                &&& final(node).node_children()[ci as int].key_count() == cs0[
                    ci as int
                ].key_count() + 1
                &&& final(node).node_children()[ci - 1].key_count() == cs0[
                    ci - 1
                ].key_count() - 1
                &&& (forall|i: int|
                    0 <= i < cs0.len() && i != ci - 1 && i != ci ==> final(node).node_children()[i]
                        == #[trigger] cs0[i])
                &&& (forall|i: int|
                    0 <= i < keys0.len() && i != ci - 1 ==> final(node).node_keys()[i]
                        == #[trigger] keys0[i])
            })
            &&& (!can_left && can_right ==> {
                // One key moved from the right sibling to the child.
                &&& final(node).node_keys().len() == keys0.len()
                &&& final(node).node_children().len() == cs0.len()
                &&& final(node).node_children()[ci as int].key_count() == cs0[
                    ci as int
                ].key_count() + 1
                &&& final(node).node_children()[ci + 1].key_count() == cs0[
                    ci + 1
                ].key_count() - 1
                &&& (forall|i: int|
                    0 <= i < cs0.len() && i != ci && i != ci + 1 ==> final(node).node_children()[i]
                        == #[trigger] cs0[i])
                &&& (forall|i: int|
                    0 <= i < keys0.len() && i != ci ==> final(node).node_keys()[i]
                        == #[trigger] keys0[i])
            })
            &&& (!can_left && !can_right ==> {
                // Neither sibling can donate: the child merged with the left
                // sibling when it has one, else with the right.
                let j = if ci > 0 {
                    ci - 1
                } else {
                    ci as int
                };
                &&& final(node).node_keys() == keys0.remove(j)
                &&& final(node).node_children().len() == cs0.len() - 1
                &&& final(node).node_children()[j].entries() == cs0[j].entries() + cs0[
                    j + 1
                ].entries()
            })
        }),
{
    let child_is_leaf: bool;
    let can_left: bool;
    let can_right: bool;
    match &*node {
        Node::Branch { keys, children } => {
            child_is_leaf = children[ci].check_leaf();
            let m = if child_is_leaf {
                lcap / 2
            } else {
                bcap / 2
            };
            can_left = ci > 0 && children[ci - 1].key_len() > m;
            can_right = ci + 1 < children.len() && children[ci + 1].key_len() > m;
        },
        Node::Leaf { .. } => {
            proof {
                assert(false);
            }
            child_is_leaf = false;
            can_left = false;
            can_right = false;
        },
    }
    if can_left {
        if child_is_leaf {
            borrow_from_left_leaf(node, ci, lcap, bcap, Ghost(lo), Ghost(hi));
        } else {
            borrow_from_left_branch(node, ci, lcap, bcap, Ghost(lo), Ghost(hi));
        }
    } else if can_right {
        if child_is_leaf {
            borrow_from_right_leaf(node, ci, lcap, bcap, Ghost(lo), Ghost(hi));
        } else {
            borrow_from_right_branch(node, ci, lcap, bcap, Ghost(lo), Ghost(hi));
        }
    } else {
        if child_is_leaf {
            merge_leaf_pair(node, ci, lcap, bcap, Ghost(lo), Ghost(hi));
        } else {
            merge_branch_pair(node, ci, lcap, bcap, Ghost(lo), Ghost(hi));
        }
    }
}

/// Remove `key` from the subtree `node`, rebalancing children on the way
/// back up. The node itself may be left one key under its minimum; its
/// parent (or the container, for the root) restores that.
#[verifier::rlimit(100)]
pub(crate) fn remove_node<V>(
    node: &mut Node<V>,
    key: &i64,
    lcap: usize,
    bcap: usize,
    Ghost(lo): Ghost<KeyBd>,
    Ghost(hi): Ghost<KeyBd>,
    Ghost(root): Ghost<bool>,
) -> (r: Option<V>)
    requires
        old(node).wf(lcap as nat, bcap as nat, lo, hi, root),
        4 <= lcap <= 65535,
        4 <= bcap <= 65535,
    ensures
        final(node).wf_except_min(lcap as nat, bcap as nat, lo, hi),
        !root ==> final(node).key_count() + 1 >= (if *final(node) is Leaf {
            (lcap as nat) / 2
        } else {
            (bcap as nat) / 2
        }),
        final(node).entries() == remove_entry(old(node).entries(), *key),
        r == lookup(old(node).entries(), *key),
        final(node).height() == old(node).height(),
        (*final(node) is Leaf <==> *old(node) is Leaf),
    decreases *old(node),
{
    let ghost e0 = old(node).entries();
    if node.check_leaf() {
        return match node {
            Node::Leaf { keys, vals } => {
                let klen = keys.len();
                match binary_search_keys(keys.as_slice(), key) {
                    Ok(idx) => {
                        proof {
                            lemma_remove_at_index(e0, *key, idx as int);
                        }
                        let _ = keys.remove(idx);
                        let v = vals.remove(idx);
                        proof {
                            assert(zip_entries(keys@, vals@) =~= e0.remove(idx as int));
                        }
                        Some(v)
                    },
                    Err(_) => {
                        proof {
                            assert(forall|i: int|
                                0 <= i < e0.len() ==> (#[trigger] e0[i]).0 != *key);
                            lemma_lookup_none(e0, *key);
                            lemma_remove_none(e0, *key);
                        }
                        None
                    },
                }
            },
            Node::Branch { .. } => {
                proof {
                    assert(false);
                }
                None
            },
        };
    }
    let ghost keys0 = old(node).node_keys();
    let ghost cs0 = old(node).node_children();
    let ghost n0 = cs0.len() as int;
    let r0: Option<V>;
    let ci: usize;
    let under: bool;
    match node {
        Node::Branch { keys, children } => {
            let klen = keys.len();
            ci = match binary_search_keys(keys.as_slice(), key) {
                Ok(i) => i + 1,
                Err(i) => i,
            };
            proof {
                Node::<V>::lemma_branch_parts(
                    keys0,
                    cs0,
                    lcap as nat,
                    bcap as nat,
                    lo,
                    hi,
                    ci as int,
                );
                let a = Node::<V>::ents(cs0, 0, ci as int);
                let c = cs0[ci as int].entries();
                let b = Node::<V>::ents(cs0, ci + 1, n0);
                assert(e0 == (a + c) + b);
                assert((a + c) + b =~= a + (c + b));
                lemma_remove_concat_left(a, c + b, *key);
                lemma_remove_concat_right(c, b, *key);
                lemma_lookup_concat_left(a, c + b, *key);
                lemma_lookup_concat_right(c, b, *key);
            }
            let mut child = children.remove(ci);
            r0 = remove_node(
                &mut child,
                key,
                lcap,
                bcap,
                Ghost(Node::<V>::child_lo(keys0, lo, ci as int)),
                Ghost(Node::<V>::child_hi(keys0, hi, ci as int)),
                Ghost(false),
            );
            let need = if child.check_leaf() {
                lcap / 2
            } else {
                bcap / 2
            };
            under = child.key_len() < need;
            children.insert(ci, child);
            proof {
                assert(children@ =~= cs0.update(ci as int, children@[ci as int]));
            }
        },
        Node::Leaf { .. } => {
            proof {
                assert(false);
            }
            ci = 0;
            r0 = None;
            under = false;
        },
    }
    let ghost a = Node::<V>::ents(cs0, 0, ci as int);
    let ghost c = cs0[ci as int].entries();
    let ghost b = Node::<V>::ents(cs0, ci + 1, n0);
    let ghost child1 = node.node_children()[ci as int];
    let ghost cs1 = node.node_children();
    proof {
        assert(node.node_keys() == keys0);
        assert(cs1 == cs0.update(ci as int, child1));
        assert(child1.entries() == remove_entry(c, *key));
        Node::<V>::lemma_ents_split(cs1, 0, ci as int, n0);
        Node::<V>::lemma_ents_split(cs1, ci as int, ci + 1, n0);
        assert(Node::<V>::ents(cs1, ci + 1, ci + 1) =~= Seq::<(i64, V)>::empty());
        assert(Node::<V>::ents(cs1, ci as int, ci + 1) == cs1[ci as int].entries()
            + Node::<V>::ents(cs1, ci + 1, ci + 1));
        assert(Node::<V>::ents(cs1, ci as int, ci + 1) =~= child1.entries());
        Node::<V>::lemma_ents_shift(cs0, cs1, 0, ci as int, 0);
        Node::<V>::lemma_ents_shift(cs0, cs1, ci + 1, n0, 0);
        assert(node.entries() == (a + child1.entries()) + b);
        assert((a + remove_entry(c, *key)) + b =~= a + (remove_entry(c, *key) + b));
        assert(node.entries() == remove_entry(e0, *key));
        assert(r0 == lookup(e0, *key));
    }
    if under {
        proof {
            assert forall|i: int| 0 <= i < cs1.len() && i != ci implies (#[trigger] cs1[i]).wf(
                lcap as nat,
                bcap as nat,
                Node::<V>::child_lo(keys0, lo, i),
                Node::<V>::child_hi(keys0, hi, i),
                false,
            ) by {
                assert(cs1[i] == cs0[i]);
            }
            assert forall|i: int| 0 <= i < cs1.len() implies (#[trigger] cs1[i]).height()
                == cs1[ci as int].height() by {
                if i != ci {
                    assert(cs1[i] == cs0[i]);
                }
                assert(child1.height() == cs0[ci as int].height());
            }
        }
        let ghost pre_fix_entries = node.entries();
        fix_child(node, ci, lcap, bcap, Ghost(lo), Ghost(hi));
        proof {
            assert(node.entries() == pre_fix_entries);
        }
    } else {
        proof {
            assert(child1.wf(
                lcap as nat,
                bcap as nat,
                Node::<V>::child_lo(keys0, lo, ci as int),
                Node::<V>::child_hi(keys0, hi, ci as int),
                false,
            ));
            Node::<V>::lemma_branch_update_child(
                keys0,
                cs0,
                lcap as nat,
                bcap as nat,
                lo,
                hi,
                ci as int,
                child1,
            );
        }
    }
    r0
}

impl<V> BPlusTreeMap<V> {
    /// Remove `key`; returns the value that was stored under it, if any.
    pub fn remove(&mut self, key: &i64) -> (r: Option<V>)
        requires
            old(self).wf(),
        ensures
            final(self).wf(),
            final(self)@ == remove_entry(old(self)@, *key),
            r == lookup(old(self)@, *key),
            final(self).lcap() == old(self).lcap(),
            final(self).bcap() == old(self).bcap(),
            final(self)@.len() == if r is Some {
                old(self)@.len() - 1
            } else {
                old(self)@.len() as int
            },
    {
        let ghost e0 = self@;
        let lcap = self.leaf_layout.cap as usize;
        let bcap = self.branch_layout.cap as usize;
        let mut root = match self.root.take() {
            Some(n) => n,
            None => {
                proof {
                    assert(remove_entry(e0, *key) =~= e0);
                }
                return None;
            },
        };
        proof {
            lemma_remove_len(e0, *key);
        }
        let res = remove_node(&mut root, key, lcap, bcap, Ghost(None), Ghost(None), Ghost(true));
        if !root.check_leaf() && root.key_len() == 0 {
            // A branch root left without separators has exactly one child:
            // collapse the root onto it.
            let ghost rcs = root.node_children();
            let collapsed = match root {
                Node::Branch { keys: _, children: mut cs } => {
                    match cs.pop() {
                        Some(c) => c,
                        None => {
                            proof {
                                assert(false);
                            }
                            Node::Leaf { keys: Vec::new(), vals: Vec::new() }
                        },
                    }
                },
                Node::Leaf { .. } => {
                    proof {
                        assert(false);
                    }
                    Node::Leaf { keys: Vec::new(), vals: Vec::new() }
                },
            };
            proof {
                assert(rcs.len() == 1);
                assert(collapsed == rcs[0]);
                assert(Node::<V>::ents(rcs, 1, 1) =~= Seq::<(i64, V)>::empty());
                assert(Node::<V>::ents(rcs, 0, 1) == rcs[0].entries() + Node::<V>::ents(
                    rcs,
                    1,
                    1,
                ));
                assert(collapsed.entries() =~= Node::<V>::ents(rcs, 0, 1));
                assert(collapsed.wf(lcap as nat, bcap as nat, None, None, false));
                collapsed.lemma_wf_to_root(lcap as nat, bcap as nat, None, None);
            }
            root = collapsed;
        }
        self.root = Some(root);
        if res.is_some() {
            self.length = self.length - 1;
        }
        res
    }

    /// Remove `key`, or report `KeyNotFound` when it is absent.
    pub fn remove_item(&mut self, key: &i64) -> (r: Result<V, BPlusTreeError>)
        requires
            old(self).wf(),
        ensures
            final(self).wf(),
            final(self)@ == remove_entry(old(self)@, *key),
            match r {
                Ok(v) => lookup(old(self)@, *key) == Some(v),
                Err(e) => lookup(old(self)@, *key) is None && e is KeyNotFound,
            },
            final(self).lcap() == old(self).lcap(),
            final(self).bcap() == old(self).bcap(),
    {
        match self.remove(key) {
            Some(v) => Ok(v),
            None => Err(BPlusTreeError::KeyNotFound),
        }
    }

    /// `remove_item`, under the fallible result alias.
    pub fn try_remove(&mut self, key: &i64) -> (r: ModifyResult<V>)
        requires
            old(self).wf(),
        ensures
            final(self).wf(),
            final(self)@ == remove_entry(old(self)@, *key),
            match r {
                Ok(v) => lookup(old(self)@, *key) == Some(v),
                Err(e) => lookup(old(self)@, *key) is None && e is KeyNotFound,
            },
            final(self).lcap() == old(self).lcap(),
            final(self).bcap() == old(self).bcap(),
    {
        self.remove_item(key)
    }
}

} // verus!
