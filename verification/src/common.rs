//! Search primitives and occupancy rules shared by the engines.

use vstd::prelude::*;

use crate::node::{above_lo, below_hi, KeyBd, Node};
use crate::BPlusTreeMap;

verus! {

/// Count the leaves of a subtree.
fn count_leaves<V>(
    node: &Node<V>,
    Ghost(lcap): Ghost<nat>,
    Ghost(bcap): Ghost<nat>,
    Ghost(lo): Ghost<KeyBd>,
    Ghost(hi): Ghost<KeyBd>,
    Ghost(root): Ghost<bool>,
) -> (r: usize)
    requires
        node.wf(lcap, bcap, lo, hi, root),
        lcap >= 4,
        bcap >= 4,
        node.entries().len() <= usize::MAX,
    ensures
        r == node.leaf_total(),
    decreases *node,
{
    match node {
        Node::Leaf { .. } => 1,
        Node::Branch { keys, children } => {
            let ghost cs = children@;
            let ghost n = cs.len() as int;
            proof {
                // Bound the total leaf count by the entry count so the
                // running sum cannot overflow.
                Node::<V>::lemma_leaves_bound_range(keys@, cs, lcap, bcap, lo, hi, 0);
                assert(Node::<V>::leaves_of(cs, 0, 0) == 0);
            }
            let clen = children.len();
            let mut acc: usize = 0;
            let mut idx: usize = 0;
            while idx < clen
                invariant
                    node.wf(lcap, bcap, lo, hi, root),
                    *node is Branch,
                    cs == node.node_children(),
                    children@ == cs,
                    keys@ == node.node_keys(),
                    clen == cs.len(),
                    n == cs.len() as int,
                    idx <= clen,
                    lcap >= 4,
                    bcap >= 4,
                    acc == Node::<V>::leaves_of(cs, 0, idx as int),
                    2 * Node::<V>::leaves_of(cs, 0, n) <= node.entries().len(),
                    node.entries().len() <= usize::MAX,
                decreases clen - idx,
            {
                proof {
                    assert(cs[idx as int].wf(
                        lcap,
                        bcap,
                        Node::<V>::child_lo(node.node_keys(), lo, idx as int),
                        Node::<V>::child_hi(node.node_keys(), hi, idx as int),
                        false,
                    ));
                    // The child's entries are a part of this node's entries.
                    Node::<V>::lemma_ents_split(cs, 0, idx as int, n);
                    Node::<V>::lemma_ents_split(cs, idx as int, idx + 1, n);
                    assert(Node::<V>::ents(cs, idx + 1, idx + 1) =~= Seq::<(i64, V)>::empty());
                    assert(Node::<V>::ents(cs, idx as int, idx + 1) =~= cs[idx as int].entries());
                    Node::<V>::lemma_leaves_split(cs, 0, idx as int, idx + 1);
                    Node::<V>::lemma_leaves_split(cs, 0, idx + 1, n);
                    assert(Node::<V>::leaves_of(cs, idx + 1, idx + 1) == 0);
                    assert(Node::<V>::leaves_of(cs, idx as int, idx + 1) == cs[idx
                        as int].leaf_total() + Node::<V>::leaves_of(cs, idx + 1, idx + 1));
                    cs[idx as int].lemma_leaf_total_bound(
                        lcap,
                        bcap,
                        Node::<V>::child_lo(node.node_keys(), lo, idx as int),
                        Node::<V>::child_hi(node.node_keys(), hi, idx as int),
                    );
                }
                let c = count_leaves(
                    &children[idx],
                    Ghost(lcap),
                    Ghost(bcap),
                    Ghost(Node::<V>::child_lo(node.node_keys(), lo, idx as int)),
                    Ghost(Node::<V>::child_hi(node.node_keys(), hi, idx as int)),
                    Ghost(false),
                );
                acc = acc + c;
                idx = idx + 1;
            }
            acc
        },
    }
}

/// Binary search over a strictly sorted key slice.
///
/// Returns `Ok(i)` when `keys[i] == *target`, else `Err(i)` where `i` is the
/// insertion point that preserves order.
pub fn binary_search_keys(keys: &[i64], target: &i64) -> (r: Result<usize, usize>)
    requires
        forall|i: int, j: int| 0 <= i < j < keys@.len() ==> #[trigger] keys@[i] < #[trigger] keys@[j],
    ensures
        match r {
            Ok(i) => i < keys@.len() && keys@[i as int] == *target,
            Err(i) => {
                &&& i <= keys@.len()
                &&& (forall|j: int| 0 <= j < i ==> #[trigger] keys@[j] < *target)
                &&& (forall|j: int| i <= j < keys@.len() ==> #[trigger] keys@[j] > *target)
            },
        },
{
    let mut lo: usize = 0;
    let mut hi: usize = keys.len();
    while lo < hi
        invariant
            lo <= hi <= keys@.len(),
            forall|i: int, j: int|
                0 <= i < j < keys@.len() ==> #[trigger] keys@[i] < #[trigger] keys@[j],
            forall|j: int| 0 <= j < lo ==> #[trigger] keys@[j] < *target,
            forall|j: int| hi <= j < keys@.len() ==> #[trigger] keys@[j] > *target,
        decreases hi - lo,
    {
        let mid = lo + (hi - lo) / 2;
        let k = keys[mid];
        if k < *target {
            lo = mid + 1;
        } else if k > *target {
            hi = mid;
        } else {
            return Ok(mid);
        }
    }
    Err(lo)
}

/// The validator's bound form: an optional inclusive lower / exclusive upper
/// key, as inherited from ancestor separators.
pub(crate) open spec fn bd_of(o: Option<i64>) -> KeyBd {
    match o {
        None => None,
        Some(k) => Some(k as int),
    }
}

/// Walk a subtree and check the structural invariants: array shapes,
/// capacity and occupancy bounds, strict key order, inherited subtree key
/// ranges, and uniform child kinds. Returns `Ok` exactly when the subtree
/// satisfies the checked property.
#[verifier::rlimit(100)]
fn validate_node<V>(
    node: &Node<V>,
    lower: Option<i64>,
    upper: Option<i64>,
    is_root: bool,
    lcap: usize,
    bcap: usize,
) -> (r: Result<(), String>)
    ensures
        r is Ok <==> node.checked_wf(lcap as nat, bcap as nat, bd_of(lower), bd_of(upper), is_root),
    decreases *node,
{
    match node {
        Node::Leaf { keys, vals } => {
            let klen = keys.len();
            if vals.len() != klen {
                return Err("leaf key and value counts disagree".to_owned());
            }
            if klen > lcap {
                return Err("leaf holds more keys than its capacity".to_owned());
            }
            if !is_root && klen < lcap / 2 {
                return Err("non-root leaf is under its minimum occupancy".to_owned());
            }
            let mut i: usize = 1;
            while i < klen
                invariant
                    i >= 1,
                    klen == keys@.len(),
                    *node is Leaf,
                    keys@ == node.node_keys(),
                    vals@ == node.node_vals(),
                    forall|p: int, q: int|
                        0 <= p < q < i ==> #[trigger] keys@[p] < #[trigger] keys@[q],
                decreases klen - i,
            {
                if keys[i - 1] >= keys[i] {
                    proof {
                        assert(!(forall|p: int, q: int|
                            0 <= p < q < keys@.len() ==> #[trigger] keys@[p] < #[trigger] keys@[q]))
                            by {
                            assert(0 <= i - 1 < i < keys@.len());
                            assert(!(keys@[i - 1] < keys@[i as int]));
                        }
                    }
                    return Err("leaf keys are not strictly increasing".to_owned());
                }
                i = i + 1;
            }
            if klen > 0 {
                match lower {
                    Some(l) => {
                        if keys[0] < l {
                            return Err("leaf keys fall below the inherited bound".to_owned());
                        }
                    },
                    None => {},
                }
                match upper {
                    Some(u) => {
                        if keys[klen - 1] >= u {
                            return Err("leaf keys exceed the inherited bound".to_owned());
                        }
                    },
                    None => {},
                }
            }
            proof {
                assert forall|p: int| 0 <= p < keys@.len() implies above_lo(
                    #[trigger] keys@[p] as int,
                    bd_of(lower),
                ) && below_hi(keys@[p] as int, bd_of(upper)) by {
                    if p > 0 {
                        assert(keys@[0] < keys@[p]);
                    }
                    if p < klen - 1 {
                        assert(keys@[p] < keys@[klen - 1]);
                    }
                }
            }
            Ok(())
        },
        Node::Branch { keys, children } => {
            let klen = keys.len();
            if children.len() == 0 || children.len() - 1 != klen {
                return Err("branch child count does not match its key count".to_owned());
            }
            if klen > bcap {
                return Err("branch holds more keys than its capacity".to_owned());
            }
            if is_root {
                if klen < 1 {
                    return Err("root branch has no separator".to_owned());
                }
            } else if klen < bcap / 2 {
                return Err("non-root branch is under its minimum occupancy".to_owned());
            }
            let mut i: usize = 1;
            while i < klen
                invariant
                    i >= 1,
                    klen == keys@.len(),
                    *node is Branch,
                    keys@ == node.node_keys(),
                    children@ == node.node_children(),
                    forall|p: int, q: int|
                        0 <= p < q < i ==> #[trigger] keys@[p] < #[trigger] keys@[q],
                decreases klen - i,
            {
                if keys[i - 1] >= keys[i] {
                    proof {
                        assert(!(forall|p: int, q: int|
                            0 <= p < q < keys@.len() ==> #[trigger] keys@[p] < #[trigger] keys@[q]))
                            by {
                            assert(0 <= i - 1 < i < keys@.len());
                            assert(!(keys@[i - 1] < keys@[i as int]));
                        }
                    }
                    return Err("branch keys are not strictly increasing".to_owned());
                }
                i = i + 1;
            }
            if klen > 0 {
                match lower {
                    Some(l) => {
                        if keys[0] < l {
                            return Err("branch keys fall below the inherited bound".to_owned());
                        }
                    },
                    None => {},
                }
                match upper {
                    Some(u) => {
                        if keys[klen - 1] >= u {
                            return Err("branch keys exceed the inherited bound".to_owned());
                        }
                    },
                    None => {},
                }
            }
            proof {
                assert forall|p: int| 0 <= p < keys@.len() implies above_lo(
                    #[trigger] keys@[p] as int,
                    bd_of(lower),
                ) && below_hi(keys@[p] as int, bd_of(upper)) by {
                    if p > 0 {
                        assert(keys@[0] < keys@[p]);
                    }
                    if p < klen - 1 {
                        assert(keys@[p] < keys@[klen - 1]);
                    }
                }
            }
            let first_is_leaf = children[0].check_leaf();
            let clen = children.len();
            let mut ci: usize = 0;
            while ci < clen
                invariant
                    *node is Branch,
                    children@ == node.node_children(),
                    keys@ == node.node_keys(),
                    clen == children@.len(),
                    klen == keys@.len(),
                    clen == klen + 1,
                    ci <= clen,
                    first_is_leaf == children@[0].is_leaf(),
                    forall|j: int|
                        0 <= j < ci ==> (#[trigger] children@[j]).checked_wf(
                            lcap as nat,
                            bcap as nat,
                            Node::<V>::child_lo(keys@, bd_of(lower), j),
                            Node::<V>::child_hi(keys@, bd_of(upper), j),
                            false,
                        ),
                    forall|j: int|
                        0 <= j < ci ==> (#[trigger] children@[j]).is_leaf() == children@[
                            0
                        ].is_leaf(),
                decreases clen - ci,
            {
                if children[ci].check_leaf() != first_is_leaf {
                    return Err("branch children are of mixed kinds".to_owned());
                }
                let child_lower = if ci == 0 {
                    lower
                } else {
                    Some(keys[ci - 1])
                };
                let child_upper = if ci == klen {
                    upper
                } else {
                    Some(keys[ci])
                };
                proof {
                    assert(bd_of(child_lower) == Node::<V>::child_lo(
                        keys@,
                        bd_of(lower),
                        ci as int,
                    ));
                    assert(bd_of(child_upper) == Node::<V>::child_hi(
                        keys@,
                        bd_of(upper),
                        ci as int,
                    ));
                }
                match validate_node(&children[ci], child_lower, child_upper, false, lcap, bcap) {
                    Ok(()) => {},
                    Err(e) => {
                        return Err(e);
                    },
                }
                ci = ci + 1;
            }
            Ok(())
        },
    }
}

impl<V> BPlusTreeMap<V> {
    /// Whether the root node is a leaf; an empty container counts as one.
    pub fn is_leaf_root(&self) -> (r: bool)
        ensures
            r == self.spec_is_leaf_root(),
    {
        match &self.root {
            None => true,
            Some(n) => n.check_leaf(),
        }
    }

    /// Number of leaves currently in the tree.
    pub fn leaf_count(&self) -> (r: usize)
        requires
            self.wf(),
        ensures
            r == self.spec_leaf_count(),
    {
        match &self.root {
            None => 0,
            Some(n) => count_leaves(
                n,
                Ghost(self.lcap()),
                Ghost(self.bcap()),
                Ghost(None),
                Ghost(None),
                Ghost(true),
            ),
        }
    }

    /// Walk the tree and check invariants, reporting the first violation
    /// found as a diagnostic message. Succeeds exactly when the checked
    /// structural property holds.
    pub fn check_invariants_detailed(&self) -> (r: Result<(), String>)
        ensures
            r is Ok <==> self.spec_checked_invariants(),
    {
        match &self.root {
            None => Ok(()),
            Some(n) => {
                let lcap = self.leaf_layout().cap as usize;
                let bcap = self.branch_layout().cap as usize;
                validate_node(n, None, None, true, lcap, bcap)
            },
        }
    }

    /// Walk the tree and check invariants.
    pub fn check_invariants(&self) -> (r: bool)
        ensures
            r == self.spec_checked_invariants(),
    {
        self.check_invariants_detailed().is_ok()
    }

    /// Minimum number of keys a non-root leaf must hold.
    pub fn min_leaf_len(&self) -> (r: usize)
        ensures
            r == self.lcap() / 2,
    {
        let cap = self.leaf_layout().cap as usize;
        cap / 2
    }

    /// Minimum number of keys a non-root branch must hold.
    pub fn min_branch_len(&self) -> (r: usize)
        ensures
            r == if self.bcap() <= 2 {
                1nat
            } else {
                self.bcap() / 2
            },
    {
        let cap = self.branch_layout().cap as usize;
        if cap <= 2 {
            1
        } else {
            cap / 2
        }
    }
}

} // verus!
