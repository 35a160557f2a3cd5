//! Tree nodes and their structural invariants.
//!
//! A node is either a leaf holding keys and values in parallel arrays, or a
//! branch holding separator keys and child subtrees. The model of a node is
//! `entries()`: the sorted sequence of key/value pairs stored in its leaves.

use vstd::prelude::*;

use crate::model::{entries_sorted, keys_at_least, keys_below};

verus! {

/// One tree node: a leaf with key/value arrays, or a branch with separator
/// keys and `keys.len() + 1` child subtrees.
pub(crate) enum Node<V> {
    Leaf { keys: Vec<i64>, vals: Vec<V> },
    Branch { keys: Vec<i64>, children: Vec<Node<V>> },
}

/// A bound inherited from ancestor separators: `None` stands for infinity.
pub(crate) type KeyBd = Option<int>;

/// `k` is at least the lower bound `lo` (`None` = no bound).
pub open spec fn above_lo(k: int, lo: KeyBd) -> bool {
    match lo {
        None => true,
        Some(l) => k >= l,
    }
}

/// `k` is strictly below the upper bound `hi` (`None` = no bound).
pub open spec fn below_hi(k: int, hi: KeyBd) -> bool {
    match hi {
        None => true,
        Some(h) => k < h,
    }
}

impl<V> Node<V> {
    /// Number of keys stored in this node itself.
    pub(crate) open spec fn key_count(self) -> nat {
        match self {
            Node::Leaf { keys, .. } => keys@.len(),
            Node::Branch { keys, .. } => keys@.len(),
        }
    }

    pub(crate) open spec fn is_leaf(self) -> bool {
        self is Leaf
    }

    /// Height of the subtree: 0 for a leaf.
    pub(crate) open spec fn height(self) -> nat
        decreases self,
    {
        match self {
            Node::Leaf { .. } => 0,
            Node::Branch { children, .. } => {
                if children@.len() == 0 {
                    1
                } else {
                    1 + children@[0].height()
                }
            },
        }
    }

    /// The key/value entries stored in the leaves of this subtree, in order.
    pub(crate) open spec fn entries(self) -> Seq<(i64, V)>
        decreases self,
    {
        match self {
            Node::Leaf { keys, vals } => zip_entries(keys@, vals@),
            Node::Branch { children, .. } => Self::ents(
                children@,
                0,
                children@.len() as int,
            ),
        }
    }

    /// The separator (or leaf) keys of this node.
    pub(crate) open spec fn node_keys(self) -> Seq<i64> {
        match self {
            Node::Leaf { keys, .. } => keys@,
            Node::Branch { keys, .. } => keys@,
        }
    }

    /// The children of a branch; empty for a leaf.
    pub(crate) open spec fn node_children(self) -> Seq<Node<V>> {
        match self {
            Node::Leaf { .. } => Seq::empty(),
            Node::Branch { children, .. } => children@,
        }
    }

    /// The values of a leaf; empty for a branch.
    pub(crate) open spec fn node_vals(self) -> Seq<V> {
        match self {
            Node::Leaf { vals, .. } => vals@,
            Node::Branch { .. } => Seq::empty(),
        }
    }

    /// Concatenated entries of the children with indices in `[i, n)`.
    pub(crate) open spec fn ents(cs: Seq<Node<V>>, i: int, n: int) -> Seq<(i64, V)>
        decreases cs, n - i,
    {
        if i < n && 0 <= i && n <= cs.len() {
            cs[i].entries() + Self::ents(cs, i + 1, n)
        } else {
            Seq::empty()
        }
    }

    /// Number of leaves in the subtree.
    pub(crate) open spec fn leaf_total(self) -> nat
        decreases self,
    {
        match self {
            Node::Leaf { .. } => 1,
            Node::Branch { children, .. } => Self::leaves_of(
                children@,
                0,
                children@.len() as int,
            ),
        }
    }

    /// Total leaves of the children with indices in `[i, n)`.
    pub(crate) open spec fn leaves_of(cs: Seq<Node<V>>, i: int, n: int) -> nat
        decreases cs, n - i,
    {
        if i < n && 0 <= i && n <= cs.len() {
            cs[i].leaf_total() + Self::leaves_of(cs, i + 1, n)
        } else {
            0
        }
    }

    /// Structural well-formedness under inherited key bounds.
    ///
    /// `lcap`/`bcap` are the leaf and branch capacities; `root` relaxes the
    /// minimum-occupancy rule for the root node. Every key in the subtree lies
    /// in `[lo, hi)`.
    pub(crate) open spec fn wf(self, lcap: nat, bcap: nat, lo: KeyBd, hi: KeyBd, root: bool) -> bool
        decreases self,
    {
        match self {
            Node::Leaf { keys, vals } => Self::leaf_wf(keys@, vals@, lcap, lo, hi, root),
            Node::Branch { keys, children } => {
                &&& keys@.len() <= bcap
                &&& (if root {
                    keys@.len() >= 1
                } else {
                    keys@.len() >= bcap / 2
                })
                &&& Self::branch_wf(keys@, children@, lcap, bcap, lo, hi)
            },
        }
    }

    /// Leaf well-formedness: parallel arrays, capacity and occupancy bounds,
    /// strictly sorted keys within the inherited bounds.
    pub(crate) open spec fn leaf_wf(
        keys: Seq<i64>,
        vals: Seq<V>,
        lcap: nat,
        lo: KeyBd,
        hi: KeyBd,
        root: bool,
    ) -> bool {
        &&& vals.len() == keys.len()
        &&& keys.len() <= lcap
        &&& (root || keys.len() >= lcap / 2)
        &&& (forall|i: int, j: int|
            0 <= i < j < keys.len() ==> #[trigger] keys[i] < #[trigger] keys[j])
        &&& (forall|i: int|
            0 <= i < keys.len() ==> above_lo(#[trigger] keys[i] as int, lo) && below_hi(
                keys[i] as int,
                hi,
            ))
    }

    /// The occupancy-independent part of branch well-formedness: shape, key
    /// order, key bounds, well-formed children under the separator bounds,
    /// and uniform child height.
    pub(crate) open spec fn branch_wf(
        keys: Seq<i64>,
        cs: Seq<Node<V>>,
        lcap: nat,
        bcap: nat,
        lo: KeyBd,
        hi: KeyBd,
    ) -> bool
        decreases cs,
    {
        &&& cs.len() == keys.len() + 1
        &&& (forall|i: int, j: int|
            0 <= i < j < keys.len() ==> #[trigger] keys[i] < #[trigger] keys[j])
        &&& (forall|i: int|
            0 <= i < keys.len() ==> above_lo(#[trigger] keys[i] as int, lo) && below_hi(
                keys[i] as int,
                hi,
            ))
        &&& (forall|i: int|
            0 <= i < cs.len() ==> (#[trigger] cs[i]).wf(
                lcap,
                bcap,
                Self::child_lo(keys, lo, i),
                Self::child_hi(keys, hi, i),
                false,
            ))
        &&& (forall|i: int|
            0 <= i < cs.len() ==> (#[trigger] cs[i]).height() == cs[0].height())
    }

    /// Lower bound inherited by the `i`-th child of a branch.
    pub(crate) open spec fn child_lo(keys: Seq<i64>, lo: KeyBd, i: int) -> KeyBd {
        if i == 0 {
            lo
        } else {
            Some(keys[i - 1] as int)
        }
    }

    /// Upper bound inherited by the `i`-th child of a branch.
    pub(crate) open spec fn child_hi(keys: Seq<i64>, hi: KeyBd, i: int) -> KeyBd {
        if i == keys.len() {
            hi
        } else {
            Some(keys[i] as int)
        }
    }
}

/// The key and value arrays of a leaf read as a sequence of entries.
pub(crate) open spec fn zip_entries<V>(keys: Seq<i64>, vals: Seq<V>) -> Seq<(i64, V)> {
    Seq::new(keys.len(), |i: int| (keys[i], vals[i]))
}

/// Every entry key lies within `[lo, hi)`.
pub(crate) open spec fn entries_in<V>(s: Seq<(i64, V)>, lo: KeyBd, hi: KeyBd) -> bool {
    forall|i: int|
        0 <= i < s.len() ==> above_lo((#[trigger] s[i]).0 as int, lo) && below_hi(
            s[i].0 as int,
            hi,
        )
}

/// `a` is a lower bound no stronger than `b`.
pub(crate) open spec fn lo_weaker(a: KeyBd, b: KeyBd) -> bool {
    match a {
        None => true,
        Some(x) => match b {
            None => false,
            Some(y) => x <= y,
        },
    }
}

/// `a` is an upper bound no stronger than `b`.
pub(crate) open spec fn hi_weaker(a: KeyBd, b: KeyBd) -> bool {
    match a {
        None => true,
        Some(x) => match b {
            None => false,
            Some(y) => x >= y,
        },
    }
}

impl<V> Node<V> {
    /// Number of keys stored in this node itself (runtime).
    pub(crate) fn key_len(&self) -> (r: usize)
        ensures
            r == self.key_count(),
    {
        match self {
            Node::Leaf { keys, .. } => keys.len(),
            Node::Branch { keys, .. } => keys.len(),
        }
    }

    /// Runtime check of the node kind.
    pub(crate) fn check_leaf(&self) -> (r: bool)
        ensures
            r == self.is_leaf(),
    {
        match self {
            Node::Leaf { .. } => true,
            Node::Branch { .. } => false,
        }
    }

    /// Splitting the child range splits the concatenated entries.
    pub(crate) proof fn lemma_ents_split(cs: Seq<Node<V>>, i: int, m: int, n: int)
        requires
            0 <= i <= m <= n <= cs.len(),
        ensures
            Self::ents(cs, i, n) == Self::ents(cs, i, m) + Self::ents(cs, m, n),
        decreases m - i,
    {
        if i < m {
            Self::lemma_ents_split(cs, i + 1, m, n);
            assert(Self::ents(cs, i, n) =~= Self::ents(cs, i, m) + Self::ents(cs, m, n));
        } else {
            assert(Self::ents(cs, i, n) =~= Self::ents(cs, i, m) + Self::ents(cs, m, n));
        }
    }

    /// Concatenated entries depend only on the children in range, allowing a
    /// uniform index shift between two child sequences.
    pub(crate) proof fn lemma_ents_shift(
        cs: Seq<Node<V>>,
        cs2: Seq<Node<V>>,
        i: int,
        n: int,
        d: int,
    )
        requires
            0 <= i,
            n <= cs.len(),
            0 <= i + d,
            n + d <= cs2.len(),
            forall|j: int| i <= j < n ==> #[trigger] cs2[j + d] == cs[j],
        ensures
            Self::ents(cs2, i + d, n + d) == Self::ents(cs, i, n),
        decreases n - i,
    {
        if i < n {
            assert(cs2[i + d] == cs[i]);
            Self::lemma_ents_shift(cs, cs2, i + 1, n, d);
        }
    }

    /// Under `wf`, the entries of a subtree are sorted and lie within the
    /// inherited bounds.
    pub(crate) proof fn lemma_wf_entries(
        self,
        lcap: nat,
        bcap: nat,
        lo: KeyBd,
        hi: KeyBd,
        root: bool,
    )
        requires
            self.wf(lcap, bcap, lo, hi, root),
        ensures
            entries_sorted(self.entries()),
            entries_in(self.entries(), lo, hi),
        decreases self, 0int,
    {
        match self {
            Node::Leaf { keys, vals } => {},
            Node::Branch { keys, children } => {
                Self::lemma_ents_wf(keys@, children@, lcap, bcap, lo, hi, 0);
            },
        }
    }

    /// Helper for `lemma_wf_entries`: the concatenated entries of the children
    /// with indices in `[i, len)` are sorted and bounded by the `i`-th child's
    /// lower bound and the branch's upper bound.
    pub(crate) proof fn lemma_ents_wf(
        keys: Seq<i64>,
        cs: Seq<Node<V>>,
        lcap: nat,
        bcap: nat,
        lo: KeyBd,
        hi: KeyBd,
        i: int,
    )
        requires
            Self::branch_wf(keys, cs, lcap, bcap, lo, hi),
            0 <= i <= cs.len(),
        ensures
            entries_sorted(Self::ents(cs, i, cs.len() as int)),
            entries_in(Self::ents(cs, i, cs.len() as int), Self::child_lo(keys, lo, i), hi),
        decreases cs, cs.len() - i + 1,
    {
        let n = cs.len() as int;
        if i < n {
            cs[i].lemma_wf_entries(
                lcap,
                bcap,
                Self::child_lo(keys, lo, i),
                Self::child_hi(keys, hi, i),
                false,
            );
            Self::lemma_ents_wf(keys, cs, lcap, bcap, lo, hi, i + 1);
            let a = cs[i].entries();
            let b = Self::ents(cs, i + 1, n);
            assert(Self::ents(cs, i, n) == a + b);
            assert forall|p: int, q: int|
                0 <= p < q < (a + b).len() implies (#[trigger] (a + b)[p]).0 < (#[trigger] (a
                + b)[q]).0 by {
                if q < a.len() {
                } else if p >= a.len() {
                } else {
                    // p in a, q in b: a below keys[i], b at least keys[i]
                    assert(below_hi(a[p].0 as int, Self::child_hi(keys, hi, i)));
                    assert(above_lo(b[q - a.len()].0 as int, Self::child_lo(keys, lo, i + 1)));
                }
            }
        }
    }

    /// Splits a branch's entries around the child at `ci` and bounds the two
    /// surrounding parts by the separators next to `ci`.
    pub(crate) proof fn lemma_branch_parts(
        keys: Seq<i64>,
        cs: Seq<Node<V>>,
        lcap: nat,
        bcap: nat,
        lo: KeyBd,
        hi: KeyBd,
        ci: int,
    )
        requires
            Self::branch_wf(keys, cs, lcap, bcap, lo, hi),
            0 <= ci < cs.len(),
        ensures
            Self::ents(cs, 0, cs.len() as int) == Self::ents(cs, 0, ci) + cs[ci].entries()
                + Self::ents(cs, ci + 1, cs.len() as int),
            ci > 0 ==> keys_below(Self::ents(cs, 0, ci), keys[ci - 1] as int),
            ci < keys.len() ==> keys_at_least(
                Self::ents(cs, ci + 1, cs.len() as int),
                keys[ci] as int,
            ),
            cs[ci].wf(lcap, bcap, Self::child_lo(keys, lo, ci), Self::child_hi(keys, hi, ci), false),
            entries_in(Self::ents(cs, 0, ci), lo, Self::child_lo(keys, lo, ci)),
            entries_in(Self::ents(cs, ci + 1, cs.len() as int), Self::child_hi(keys, hi, ci), hi),
    {
        let n = cs.len() as int;
        Self::lemma_ents_split(cs, 0, ci, n);
        Self::lemma_ents_split(cs, ci, ci + 1, n);
        assert(Self::ents(cs, ci, ci + 1) =~= cs[ci].entries());
        if ci > 0 {
            Self::lemma_branch_prefix(keys, cs, lcap, bcap, lo, hi, ci);
        }
        Self::lemma_ents_wf(keys, cs, lcap, bcap, lo, hi, ci + 1);
    }

    /// The entries of the first `m` children lie below the `m-1`-th separator
    /// (and above the branch's own lower bound).
    pub(crate) proof fn lemma_branch_prefix(
        keys: Seq<i64>,
        cs: Seq<Node<V>>,
        lcap: nat,
        bcap: nat,
        lo: KeyBd,
        hi: KeyBd,
        m: int,
    )
        requires
            Self::branch_wf(keys, cs, lcap, bcap, lo, hi),
            1 <= m <= keys.len(),
        ensures
            entries_in(Self::ents(cs, 0, m), lo, Some(keys[m - 1] as int)),
            entries_sorted(Self::ents(cs, 0, m)),
    {
        let keys2 = keys.subrange(0, m - 1);
        let cs2 = cs.subrange(0, m);
        let hi2: KeyBd = Some(keys[m - 1] as int);
        assert forall|i: int| 0 <= i < cs2.len() implies (#[trigger] cs2[i]).wf(
            lcap,
            bcap,
            Self::child_lo(keys2, lo, i),
            Self::child_hi(keys2, hi2, i),
            false,
        ) by {
            assert(cs2[i] == cs[i]);
            assert(Self::child_lo(keys2, lo, i) == Self::child_lo(keys, lo, i));
            assert(Self::child_hi(keys2, hi2, i) == Self::child_hi(keys, hi, i));
        }
        assert(Self::branch_wf(keys2, cs2, lcap, bcap, lo, hi2));
        Self::lemma_ents_wf(keys2, cs2, lcap, bcap, lo, hi2, 0);
        Self::lemma_ents_shift(cs2, cs, 0, m, 0);
        assert(Self::ents(cs, 0, m) == Self::ents(cs2, 0, m));
    }

    /// The property the runtime validator checks: exactly `wf`, except that
    /// where `wf` demands children of uniform depth, the runtime walk checks
    /// children of uniform kind (all leaves or all branches) at every branch.
    pub(crate) open spec fn checked_wf(
        self,
        lcap: nat,
        bcap: nat,
        lo: KeyBd,
        hi: KeyBd,
        root: bool,
    ) -> bool
        decreases self,
    {
        match self {
            Node::Leaf { keys, vals } => Self::leaf_wf(keys@, vals@, lcap, lo, hi, root),
            Node::Branch { keys, children } => {
                &&& keys@.len() <= bcap
                &&& (if root {
                    keys@.len() >= 1
                } else {
                    keys@.len() >= bcap / 2
                })
                &&& children@.len() == keys@.len() + 1
                &&& (forall|i: int, j: int|
                    0 <= i < j < keys@.len() ==> #[trigger] keys@[i] < #[trigger] keys@[j])
                &&& (forall|i: int|
                    0 <= i < keys@.len() ==> above_lo(#[trigger] keys@[i] as int, lo) && below_hi(
                        keys@[i] as int,
                        hi,
                    ))
                &&& (forall|i: int|
                    0 <= i < children@.len() ==> (#[trigger] children@[i]).checked_wf(
                        lcap,
                        bcap,
                        Self::child_lo(keys@, lo, i),
                        Self::child_hi(keys@, hi, i),
                        false,
                    ))
                &&& (forall|i: int|
                    0 <= i < children@.len() ==> (#[trigger] children@[i]).is_leaf()
                        == children@[0].is_leaf())
            },
        }
    }

    /// Full well-formedness implies the validator's checked property: uniform
    /// depths force uniform kinds.
    pub(crate) proof fn lemma_wf_implies_checked(
        self,
        lcap: nat,
        bcap: nat,
        lo: KeyBd,
        hi: KeyBd,
        root: bool,
    )
        requires
            self.wf(lcap, bcap, lo, hi, root),
        ensures
            self.checked_wf(lcap, bcap, lo, hi, root),
        decreases self,
    {
        match self {
            Node::Leaf { .. } => {},
            Node::Branch { keys, children } => {
                let cs = children@;
                assert forall|i: int| 0 <= i < cs.len() implies (#[trigger] cs[i]).checked_wf(
                    lcap,
                    bcap,
                    Self::child_lo(keys@, lo, i),
                    Self::child_hi(keys@, hi, i),
                    false,
                ) by {
                    cs[i].lemma_wf_implies_checked(
                        lcap,
                        bcap,
                        Self::child_lo(keys@, lo, i),
                        Self::child_hi(keys@, hi, i),
                        false,
                    );
                }
                assert forall|i: int| 0 <= i < cs.len() implies (#[trigger] cs[i]).is_leaf()
                    == cs[0].is_leaf() by {
                    assert(cs[i].height() == cs[0].height());
                    if cs[i] is Branch {
                        assert(cs[i].height() >= 1);
                    }
                    if cs[0] is Branch {
                        assert(cs[0].height() >= 1);
                    }
                }
            },
        }
    }

    /// A non-root node holds at least one entry.
    pub(crate) proof fn lemma_wf_nonempty(self, lcap: nat, bcap: nat, lo: KeyBd, hi: KeyBd)
        requires
            self.wf(lcap, bcap, lo, hi, false),
            lcap >= 4,
            bcap >= 4,
        ensures
            self.entries().len() >= 1,
        decreases self,
    {
        match self {
            Node::Leaf { keys, vals } => {},
            Node::Branch { keys, children } => {
                let cs = children@;
                let n = cs.len() as int;
                cs[0].lemma_wf_nonempty(
                    lcap,
                    bcap,
                    Self::child_lo(keys@, lo, 0),
                    Self::child_hi(keys@, hi, 0),
                );
                Self::lemma_ents_split(cs, 0, 1, n);
                assert(Self::ents(cs, 1, 1) =~= Seq::<(i64, V)>::empty());
                assert(Self::ents(cs, 0, 1) == cs[0].entries() + Self::ents(cs, 1, 1));
                assert(Self::ents(cs, 0, 1) =~= cs[0].entries());
            },
        }
    }

    /// Concatenating two adjacent well-formed branches, pulling the separator
    /// between them down, yields a well-formed branch whose entries are the
    /// two entry sequences in order.
    #[verifier::rlimit(60)]
    pub(crate) proof fn lemma_branch_concat(
        lk: Seq<i64>,
        lcs: Seq<Node<V>>,
        rk: Seq<i64>,
        rcs: Seq<Node<V>>,
        lcap: nat,
        bcap: nat,
        lo: KeyBd,
        hi: KeyBd,
        sep: i64,
        ck: Seq<i64>,
        ccs: Seq<Node<V>>,
    )
        requires
            Self::branch_wf(lk, lcs, lcap, bcap, lo, Some(sep as int)),
            Self::branch_wf(rk, rcs, lcap, bcap, Some(sep as int), hi),
            lcs[0].height() == rcs[0].height(),
            above_lo(sep as int, lo),
            below_hi(sep as int, hi),
            rk.len() > 0 ==> sep < rk[0],
            ck == lk + seq![sep] + rk,
            ccs == lcs + rcs,
        ensures
            Self::branch_wf(ck, ccs, lcap, bcap, lo, hi),
            Self::ents(ccs, 0, ccs.len() as int) == Self::ents(lcs, 0, lcs.len() as int)
                + Self::ents(rcs, 0, rcs.len() as int),
            ccs[0].height() == lcs[0].height(),
    {
        let nl = lcs.len() as int;
        let nr = rcs.len() as int;
        assert(ck.len() == lk.len() + 1 + rk.len());
        assert forall|i: int| 0 <= i < ck.len() implies above_lo(
            #[trigger] ck[i] as int,
            lo,
        ) && below_hi(ck[i] as int, hi) by {
            if i < lk.len() {
                assert(ck[i] == lk[i]);
                assert(below_hi(lk[i] as int, Some(sep as int)));
            } else if i == lk.len() {
                assert(ck[i] == sep);
            } else {
                assert(ck[i] == rk[i - lk.len() - 1]);
                assert(above_lo(rk[i - lk.len() - 1] as int, Some(sep as int)));
            }
        }
        assert forall|i: int, k: int| 0 <= i < k < ck.len() implies #[trigger] ck[i]
            < #[trigger] ck[k] by {
            let ll = lk.len() as int;
            if i < ll {
                assert(ck[i] == lk[i]);
                assert(lk[i] < sep);
            }
            if k > ll {
                assert(ck[k] == rk[k - ll - 1]);
                assert(rk[k - ll - 1] >= sep);
                assert(sep < rk[0]);
                if k - ll - 1 > 0 {
                    assert(rk[0] < rk[k - ll - 1]);
                }
            }
            if i == ll {
                assert(ck[i] == sep);
            }
            if k == ll {
                assert(ck[k] == sep);
            }
        }
        assert forall|i: int| 0 <= i < ccs.len() implies (#[trigger] ccs[i]).wf(
            lcap,
            bcap,
            Self::child_lo(ck, lo, i),
            Self::child_hi(ck, hi, i),
            false,
        ) by {
            let ll = lk.len() as int;
            if i < nl {
                assert(ccs[i] == lcs[i]);
                assert(Self::child_lo(ck, lo, i) == Self::child_lo(lk, lo, i));
                if i < ll {
                    assert(Self::child_hi(ck, hi, i) == Self::child_hi(lk, Some(sep as int), i));
                } else {
                    assert(i == ll);
                    assert(Self::child_hi(ck, hi, i) == Some(sep as int));
                    assert(Self::child_hi(lk, Some(sep as int), i) == Some(sep as int));
                }
            } else {
                assert(ccs[i] == rcs[i - nl]);
                if i == nl {
                    assert(Self::child_lo(ck, lo, i) == Some(sep as int));
                    assert(Self::child_lo(rk, Some(sep as int), 0) == Some(sep as int));
                } else {
                    assert(Self::child_lo(ck, lo, i) == Some(rk[i - nl - 1] as int));
                    assert(Self::child_lo(rk, Some(sep as int), i - nl) == Some(
                        rk[i - nl - 1] as int,
                    ));
                }
                if i - nl == rk.len() {
                    assert(Self::child_hi(ck, hi, i) == hi);
                    assert(Self::child_hi(rk, hi, i - nl) == hi);
                } else {
                    assert(Self::child_hi(ck, hi, i) == Some(rk[i - nl] as int));
                    assert(Self::child_hi(rk, hi, i - nl) == Some(rk[i - nl] as int));
                }
            }
        }
        assert forall|i: int| 0 <= i < ccs.len() implies (#[trigger] ccs[i]).height()
            == ccs[0].height() by {
            assert(ccs[0] == lcs[0]);
            if i < nl {
                assert(ccs[i] == lcs[i]);
            } else {
                assert(ccs[i] == rcs[i - nl]);
                assert(rcs[i - nl].height() == rcs[0].height());
            }
        }
        Self::lemma_ents_split(ccs, 0, nl, nl + nr);
        Self::lemma_ents_shift(lcs, ccs, 0, nl, 0);
        Self::lemma_ents_shift(rcs, ccs, 0, nr, nl);
    }

    /// Splitting the child range splits the leaf count.
    pub(crate) proof fn lemma_leaves_split(cs: Seq<Node<V>>, i: int, m: int, n: int)
        requires
            0 <= i <= m <= n <= cs.len(),
        ensures
            Self::leaves_of(cs, i, n) == Self::leaves_of(cs, i, m) + Self::leaves_of(cs, m, n),
        decreases m - i,
    {
        if i < m {
            Self::lemma_leaves_split(cs, i + 1, m, n);
        }
    }

    /// Leaf counts depend only on the children in range, allowing a uniform
    /// index shift between two child sequences.
    pub(crate) proof fn lemma_leaves_shift(
        cs: Seq<Node<V>>,
        cs2: Seq<Node<V>>,
        i: int,
        n: int,
        d: int,
    )
        requires
            0 <= i,
            n <= cs.len(),
            0 <= i + d,
            n + d <= cs2.len(),
            forall|j: int| i <= j < n ==> #[trigger] cs2[j + d] == cs[j],
        ensures
            Self::leaves_of(cs2, i + d, n + d) == Self::leaves_of(cs, i, n),
        decreases n - i,
    {
        if i < n {
            assert(cs2[i + d] == cs[i]);
            Self::lemma_leaves_shift(cs, cs2, i + 1, n, d);
        }
    }

    /// A well-formed subtree holds at least one leaf.
    pub(crate) proof fn lemma_leaf_total_pos(
        self,
        lcap: nat,
        bcap: nat,
        lo: KeyBd,
        hi: KeyBd,
        root: bool,
    )
        requires
            self.wf(lcap, bcap, lo, hi, root),
        ensures
            self.leaf_total() >= 1,
        decreases self,
    {
        match self {
            Node::Leaf { .. } => {},
            Node::Branch { keys, children } => {
                let cs = children@;
                let n = cs.len() as int;
                cs[0].lemma_leaf_total_pos(
                    lcap,
                    bcap,
                    Self::child_lo(keys@, lo, 0),
                    Self::child_hi(keys@, hi, 0),
                    false,
                );
                Self::lemma_leaves_split(cs, 0, 1, n);
                assert(Self::leaves_of(cs, 1, 1) == 0);
                assert(Self::leaves_of(cs, 0, 1) == cs[0].leaf_total() + Self::leaves_of(
                    cs,
                    1,
                    1,
                ));
            },
        }
    }

    /// The index of the child a search for `key` descends into: the number
    /// of separators at most `key`.
    pub(crate) open spec fn descent_index(keys: Seq<i64>, key: i64) -> int
        decreases keys.len(),
    {
        if keys.len() == 0 {
            0
        } else if key < keys[0] {
            0
        } else {
            1 + Self::descent_index(keys.drop_first(), key)
        }
    }

    /// On a strictly sorted separator run, the descent index is fixed by the
    /// usual search window.
    pub(crate) proof fn lemma_descent_index(keys: Seq<i64>, key: i64, ci: int)
        requires
            forall|i: int, j: int| 0 <= i < j < keys.len() ==> #[trigger] keys[i] < #[trigger] keys[j],
            0 <= ci <= keys.len(),
            forall|j: int| 0 <= j < ci ==> #[trigger] keys[j] <= key,
            forall|j: int| ci <= j < keys.len() ==> #[trigger] keys[j] > key,
        ensures
            Self::descent_index(keys, key) == ci,
        decreases keys.len(),
    {
        if keys.len() == 0 {
        } else if key < keys[0] {
            if ci >= 1 {
                assert(keys[0] <= key);
            }
        } else {
            assert(keys[0] > key || ci >= 1);
            let rest = keys.drop_first();
            assert(forall|j: int| 0 <= j < ci - 1 ==> #[trigger] rest[j] <= key);
            assert(forall|j: int| ci - 1 <= j < rest.len() ==> #[trigger] rest[j] > key);
            Self::lemma_descent_index(rest, key, ci - 1);
        }
    }

    /// Whether inserting `key` splits a leaf: the search path ends at a full
    /// leaf that does not already hold the key.
    pub(crate) open spec fn splits_leaf(self, key: i64, lcap: nat) -> bool
        decreases self,
    {
        match self {
            Node::Leaf { keys, .. } => {
                &&& keys@.len() == lcap
                &&& (forall|i: int| 0 <= i < keys@.len() ==> #[trigger] keys@[i] != key)
            },
            Node::Branch { keys, children } => {
                let ci = Self::descent_index(keys@, key);
                if 0 <= ci < children@.len() {
                    children@[ci].splits_leaf(key, lcap)
                } else {
                    false
                }
            },
        }
    }

    /// Every subtree holds at least twice as many entries as leaves, except
    /// that a root node may have up to one extra leaf.
    pub(crate) proof fn lemma_leaf_total_bound(
        self,
        lcap: nat,
        bcap: nat,
        lo: KeyBd,
        hi: KeyBd,
    )
        requires
            self.wf(lcap, bcap, lo, hi, false),
            lcap >= 4,
        ensures
            2 * self.leaf_total() <= self.entries().len(),
        decreases self, 0int,
    {
        match self {
            Node::Leaf { keys, vals } => {},
            Node::Branch { keys, children } => {
                Self::lemma_leaves_bound_range(keys@, children@, lcap, bcap, lo, hi, 0);
            },
        }
    }

    /// Helper for `lemma_leaf_total_bound` over a child range.
    pub(crate) proof fn lemma_leaves_bound_range(
        keys: Seq<i64>,
        cs: Seq<Node<V>>,
        lcap: nat,
        bcap: nat,
        lo: KeyBd,
        hi: KeyBd,
        i: int,
    )
        requires
            Self::branch_wf(keys, cs, lcap, bcap, lo, hi),
            lcap >= 4,
            0 <= i <= cs.len(),
        ensures
            2 * Self::leaves_of(cs, i, cs.len() as int) <= Self::ents(
                cs,
                i,
                cs.len() as int,
            ).len(),
        decreases cs, cs.len() - i + 1,
    {
        let n = cs.len() as int;
        if i < n {
            cs[i].lemma_leaf_total_bound(
                lcap,
                bcap,
                Self::child_lo(keys, lo, i),
                Self::child_hi(keys, hi, i),
            );
            Self::lemma_leaves_bound_range(keys, cs, lcap, bcap, lo, hi, i + 1);
        }
    }

    /// Structural well-formedness with the node's own minimum-occupancy rule
    /// waived: what a node looks like right after a removal, before its
    /// parent rebalances it.
    pub(crate) open spec fn wf_except_min(self, lcap: nat, bcap: nat, lo: KeyBd, hi: KeyBd) -> bool {
        match self {
            Node::Leaf { keys, vals } => Self::leaf_wf(keys@, vals@, lcap, lo, hi, true),
            Node::Branch { keys, children } => {
                &&& keys@.len() <= bcap
                &&& Self::branch_wf(keys@, children@, lcap, bcap, lo, hi)
            },
        }
    }

    /// Non-root well-formedness follows from root well-formedness whenever
    /// the occupancy is high enough; the converse always holds.
    pub(crate) proof fn lemma_wf_to_root(self, lcap: nat, bcap: nat, lo: KeyBd, hi: KeyBd)
        requires
            self.wf(lcap, bcap, lo, hi, false),
            bcap >= 2,
        ensures
            self.wf(lcap, bcap, lo, hi, true),
    {
    }

    /// Branch shape facts with the pair of children at `j` and `j + 1`
    /// exempted from the per-child conditions.
    pub(crate) open spec fn branch_wf_minus_pair(
        keys: Seq<i64>,
        cs: Seq<Node<V>>,
        lcap: nat,
        bcap: nat,
        lo: KeyBd,
        hi: KeyBd,
        j: int,
    ) -> bool {
        &&& cs.len() == keys.len() + 1
        &&& 0 <= j < keys.len()
        &&& (forall|i: int, k: int|
            0 <= i < k < keys.len() ==> #[trigger] keys[i] < #[trigger] keys[k])
        &&& (forall|i: int|
            0 <= i < keys.len() ==> above_lo(#[trigger] keys[i] as int, lo) && below_hi(
                keys[i] as int,
                hi,
            ))
        &&& (forall|i: int|
            0 <= i < cs.len() && i != j && i != j + 1 ==> (#[trigger] cs[i]).wf(
                lcap,
                bcap,
                Self::child_lo(keys, lo, i),
                Self::child_hi(keys, hi, i),
                false,
            ))
        &&& (forall|i: int|
            0 <= i < cs.len() && i != j && i != j + 1 ==> (#[trigger] cs[i]).height()
                == cs[j].height())
    }

    /// Replacing the pair of children at `j`, `j + 1` by a single merged
    /// child, dropping the separator between them, keeps the branch shape
    /// well-formed and preserves the concatenated entries.
    #[verifier::rlimit(60)]
    pub(crate) proof fn lemma_branch_merge_pair(
        keys0: Seq<i64>,
        cs0: Seq<Node<V>>,
        lcap: nat,
        bcap: nat,
        lo: KeyBd,
        hi: KeyBd,
        j: int,
        merged: Node<V>,
        keys1: Seq<i64>,
        cs1: Seq<Node<V>>,
    )
        requires
            Self::branch_wf_minus_pair(keys0, cs0, lcap, bcap, lo, hi, j),
            merged.wf(
                lcap,
                bcap,
                Self::child_lo(keys0, lo, j),
                Self::child_hi(keys0, hi, j + 1),
                false,
            ),
            merged.entries() == cs0[j].entries() + cs0[j + 1].entries(),
            merged.height() == cs0[j].height(),
            keys1 == keys0.remove(j),
            cs1 == cs0.update(j, merged).remove(j + 1),
        ensures
            Self::branch_wf(keys1, cs1, lcap, bcap, lo, hi),
            Self::ents(cs1, 0, cs1.len() as int) == Self::ents(cs0, 0, cs0.len() as int),
    {
        let n0 = cs0.len() as int;
        assert forall|i: int| 0 <= i < cs1.len() implies (#[trigger] cs1[i]).wf(
            lcap,
            bcap,
            Self::child_lo(keys1, lo, i),
            Self::child_hi(keys1, hi, i),
            false,
        ) by {
            if i < j {
                assert(cs1[i] == cs0[i]);
                assert(Self::child_lo(keys1, lo, i) == Self::child_lo(keys0, lo, i));
                assert(Self::child_hi(keys1, hi, i) == Self::child_hi(keys0, hi, i));
            } else if i == j {
                assert(cs1[i] == merged);
                assert(Self::child_lo(keys1, lo, i) == Self::child_lo(keys0, lo, j));
                assert(Self::child_hi(keys1, hi, i) == Self::child_hi(keys0, hi, j + 1));
            } else {
                assert(cs1[i] == cs0[i + 1]);
                assert(Self::child_lo(keys1, lo, i) == Self::child_lo(keys0, lo, i + 1));
                assert(Self::child_hi(keys1, hi, i) == Self::child_hi(keys0, hi, i + 1));
            }
        }
        assert forall|i: int| 0 <= i < cs1.len() implies (#[trigger] cs1[i]).height()
            == cs1[0].height() by {
            if i < j {
                assert(cs1[i] == cs0[i]);
            } else if i == j {
                assert(cs1[i] == merged);
            } else {
                assert(cs1[i] == cs0[i + 1]);
            }
            if j == 0 {
                assert(cs1[0] == merged);
            } else {
                assert(cs1[0] == cs0[0]);
            }
        }
        assert(Self::branch_wf(keys1, cs1, lcap, bcap, lo, hi));
        Self::lemma_ents_split(cs0, 0, j, n0);
        Self::lemma_ents_split(cs0, j, j + 1, n0);
        Self::lemma_ents_split(cs0, j + 1, j + 2, n0);
        Self::lemma_ents_split(cs1, 0, j, n0 - 1);
        Self::lemma_ents_split(cs1, j, j + 1, n0 - 1);
        assert(Self::ents(cs0, j, j + 1) =~= cs0[j].entries());
        assert(Self::ents(cs0, j + 1, j + 2) =~= cs0[j + 1].entries());
        assert(Self::ents(cs1, j, j + 1) =~= merged.entries());
        Self::lemma_ents_shift(cs0, cs1, 0, j, 0);
        Self::lemma_ents_shift(cs0, cs1, j + 2, n0, -1);
        assert(Self::ents(cs1, j + 1, n0 - 1) == Self::ents(cs0, j + 2, n0));
        assert(Self::ents(cs1, 0, n0 - 1) == (Self::ents(cs1, 0, j) + merged.entries())
            + Self::ents(cs1, j + 1, n0 - 1));
        assert(Self::ents(cs0, 0, n0) == (Self::ents(cs0, 0, j) + Self::ents(cs0, j, j + 1))
            + Self::ents(cs0, j + 1, n0));
        assert(Self::ents(cs0, j + 1, n0) == Self::ents(cs0, j + 1, j + 2) + Self::ents(
            cs0,
            j + 2,
            n0,
        ));
        assert(Self::ents(cs1, 0, n0 - 1) =~= Self::ents(cs0, 0, n0));
    }

    /// Replacing the pair of children at `j`, `j + 1` by two redistributed
    /// children and updating the separator between them keeps the branch
    /// shape well-formed and preserves the concatenated entries.
    #[verifier::rlimit(60)]
    pub(crate) proof fn lemma_branch_pair_split(
        keys0: Seq<i64>,
        cs0: Seq<Node<V>>,
        lcap: nat,
        bcap: nat,
        lo: KeyBd,
        hi: KeyBd,
        j: int,
        newsep: i64,
        a2: Node<V>,
        b2: Node<V>,
        keys1: Seq<i64>,
        cs1: Seq<Node<V>>,
    )
        requires
            Self::branch_wf_minus_pair(keys0, cs0, lcap, bcap, lo, hi, j),
            a2.wf(lcap, bcap, Self::child_lo(keys0, lo, j), Some(newsep as int), false),
            b2.wf(lcap, bcap, Some(newsep as int), Self::child_hi(keys0, hi, j + 1), false),
            (match Self::child_lo(keys0, lo, j) {
                None => true,
                Some(l) => newsep as int > l,
            }),
            below_hi(newsep as int, Self::child_hi(keys0, hi, j + 1)),
            a2.entries() + b2.entries() == cs0[j].entries() + cs0[j + 1].entries(),
            a2.height() == cs0[j].height(),
            b2.height() == cs0[j].height(),
            keys1 == keys0.update(j, newsep),
            cs1 == cs0.update(j, a2).update(j + 1, b2),
        ensures
            Self::branch_wf(keys1, cs1, lcap, bcap, lo, hi),
            Self::ents(cs1, 0, cs1.len() as int) == Self::ents(cs0, 0, cs0.len() as int),
    {
        let n0 = cs0.len() as int;
        assert forall|i: int, k: int| 0 <= i < k < keys1.len() implies #[trigger] keys1[i]
            < #[trigger] keys1[k] by {
            if i == j {
                assert(j + 1 < cs0.len());
                if j + 1 < keys0.len() {
                    assert(Self::child_hi(keys0, hi, j + 1) == Some(keys0[j + 1] as int));
                    assert(newsep < keys0[j + 1]);
                    assert(keys1[k] == keys0[k]);
                }
            } else if k == j {
                assert(Self::child_lo(keys0, lo, j) == Some(keys0[j - 1] as int));
                assert(newsep > keys0[j - 1]);
                assert(keys1[i] == keys0[i]);
            } else {
                assert(keys1[i] == keys0[i]);
                assert(keys1[k] == keys0[k]);
            }
        }
        assert forall|i: int| 0 <= i < cs1.len() implies (#[trigger] cs1[i]).wf(
            lcap,
            bcap,
            Self::child_lo(keys1, lo, i),
            Self::child_hi(keys1, hi, i),
            false,
        ) by {
            if i == j {
                assert(cs1[i] == a2);
                assert(Self::child_lo(keys1, lo, i) == Self::child_lo(keys0, lo, j));
                assert(Self::child_hi(keys1, hi, i) == Some(newsep as int));
            } else if i == j + 1 {
                assert(cs1[i] == b2);
                assert(Self::child_lo(keys1, lo, i) == Some(newsep as int));
                assert(Self::child_hi(keys1, hi, i) == Self::child_hi(keys0, hi, j + 1));
            } else {
                assert(cs1[i] == cs0[i]);
                assert(Self::child_lo(keys1, lo, i) == Self::child_lo(keys0, lo, i));
                assert(Self::child_hi(keys1, hi, i) == Self::child_hi(keys0, hi, i));
            }
        }
        assert forall|i: int| 0 <= i < cs1.len() implies (#[trigger] cs1[i]).height()
            == cs1[0].height() by {
            if i != j && i != j + 1 {
                assert(cs1[i] == cs0[i]);
            }
            if j != 0 {
                assert(cs1[0] == cs0[0]);
            }
        }
        assert(Self::branch_wf(keys1, cs1, lcap, bcap, lo, hi));
        Self::lemma_ents_split(cs0, 0, j, n0);
        Self::lemma_ents_split(cs0, j, j + 1, n0);
        Self::lemma_ents_split(cs0, j + 1, j + 2, n0);
        Self::lemma_ents_split(cs1, 0, j, n0);
        Self::lemma_ents_split(cs1, j, j + 1, n0);
        Self::lemma_ents_split(cs1, j + 1, j + 2, n0);
        assert(Self::ents(cs0, j, j + 1) =~= cs0[j].entries());
        assert(Self::ents(cs0, j + 1, j + 2) =~= cs0[j + 1].entries());
        assert(Self::ents(cs1, j, j + 1) =~= a2.entries());
        assert(Self::ents(cs1, j + 1, j + 2) =~= b2.entries());
        Self::lemma_ents_shift(cs0, cs1, 0, j, 0);
        Self::lemma_ents_shift(cs0, cs1, j + 2, n0, 0);
        let s = Self::ents(cs0, j + 2, n0);
        assert(Self::ents(cs1, j + 2, n0) == s);
        assert(a2.entries() + (b2.entries() + s) =~= (a2.entries() + b2.entries()) + s);
        assert(cs0[j].entries() + (cs0[j + 1].entries() + s) =~= (cs0[j].entries() + cs0[j
            + 1].entries()) + s);
        assert(Self::ents(cs1, 0, n0) =~= Self::ents(cs0, 0, n0));
    }

    /// Replacing the child at `ci` by one well-formed under the same bounds
    /// and of the same height keeps the branch shape well-formed and splices
    /// the new child's entries in place.
    #[verifier::rlimit(60)]
    pub(crate) proof fn lemma_branch_update_child(
        keys0: Seq<i64>,
        cs0: Seq<Node<V>>,
        lcap: nat,
        bcap: nat,
        lo: KeyBd,
        hi: KeyBd,
        ci: int,
        child: Node<V>,
    )
        requires
            Self::branch_wf(keys0, cs0, lcap, bcap, lo, hi),
            0 <= ci < cs0.len(),
            child.wf(lcap, bcap, Self::child_lo(keys0, lo, ci), Self::child_hi(keys0, hi, ci), false),
            child.height() == cs0[ci].height(),
        ensures
            Self::branch_wf(keys0, cs0.update(ci, child), lcap, bcap, lo, hi),
            Self::ents(cs0.update(ci, child), 0, cs0.len() as int) == Self::ents(cs0, 0, ci)
                + child.entries() + Self::ents(cs0, ci + 1, cs0.len() as int),
            Self::leaves_of(cs0.update(ci, child), 0, cs0.len() as int) + cs0[ci].leaf_total()
                == Self::leaves_of(cs0, 0, cs0.len() as int) + child.leaf_total(),
    {
        let cs1 = cs0.update(ci, child);
        let n0 = cs0.len() as int;
        assert forall|i: int| 0 <= i < cs1.len() implies (#[trigger] cs1[i]).wf(
            lcap,
            bcap,
            Self::child_lo(keys0, lo, i),
            Self::child_hi(keys0, hi, i),
            false,
        ) by {
            if i != ci {
                assert(cs1[i] == cs0[i]);
            }
        }
        assert forall|i: int| 0 <= i < cs1.len() implies (#[trigger] cs1[i]).height()
            == cs1[0].height() by {
            if i != ci {
                assert(cs1[i] == cs0[i]);
            }
            if ci != 0 {
                assert(cs1[0] == cs0[0]);
            }
        }
        Self::lemma_ents_split(cs1, 0, ci, n0);
        Self::lemma_ents_split(cs1, ci, ci + 1, n0);
        assert(Self::ents(cs1, ci, ci + 1) =~= cs1[ci].entries());
        Self::lemma_ents_shift(cs0, cs1, 0, ci, 0);
        Self::lemma_ents_shift(cs0, cs1, ci + 1, n0, 0);
        Self::lemma_leaves_split(cs1, 0, ci, n0);
        Self::lemma_leaves_split(cs1, ci, ci + 1, n0);
        Self::lemma_leaves_split(cs0, 0, ci, n0);
        Self::lemma_leaves_split(cs0, ci, ci + 1, n0);
        assert(Self::leaves_of(cs1, ci + 1, ci + 1) == 0);
        assert(Self::leaves_of(cs0, ci + 1, ci + 1) == 0);
        Self::lemma_leaves_shift(cs0, cs1, 0, ci, 0);
        Self::lemma_leaves_shift(cs0, cs1, ci + 1, n0, 0);
    }

    /// Installing a separator and right sibling produced by a child split
    /// keeps the branch shape well-formed (ignoring capacity) and adds the
    /// right sibling's entries in place.
    #[verifier::rlimit(60)]
    pub(crate) proof fn lemma_branch_install(
        keys0: Seq<i64>,
        cs0: Seq<Node<V>>,
        lcap: nat,
        bcap: nat,
        lo: KeyBd,
        hi: KeyBd,
        ci: int,
        sep: i64,
        right: Node<V>,
    )
        requires
            Self::branch_wf(keys0, cs0, lcap, bcap, lo, hi),
            0 <= ci < cs0.len(),
            cs0[ci].wf(lcap, bcap, Self::child_lo(keys0, lo, ci), Some(sep as int), false),
            right.wf(lcap, bcap, Some(sep as int), Self::child_hi(keys0, hi, ci), false),
            match Self::child_lo(keys0, lo, ci) {
                None => true,
                Some(l) => sep as int > l,
            },
            below_hi(sep as int, Self::child_hi(keys0, hi, ci)),
            right.height() == cs0[ci].height(),
        ensures
            Self::branch_wf(keys0.insert(ci, sep), cs0.insert(ci + 1, right), lcap, bcap, lo, hi),
            Self::ents(cs0.insert(ci + 1, right), 0, cs0.len() + 1 as int) == Self::ents(
                cs0,
                0,
                ci + 1,
            ) + right.entries() + Self::ents(cs0, ci + 1, cs0.len() as int),
            Self::leaves_of(cs0.insert(ci + 1, right), 0, cs0.len() + 1 as int) == Self::leaves_of(
                cs0,
                0,
                cs0.len() as int,
            ) + right.leaf_total(),
    {
        let keys1 = keys0.insert(ci, sep);
        let cs1 = cs0.insert(ci + 1, right);
        let n0 = cs0.len() as int;
        assert forall|i: int| 0 <= i < cs1.len() implies (#[trigger] cs1[i]).wf(
            lcap,
            bcap,
            Self::child_lo(keys1, lo, i),
            Self::child_hi(keys1, hi, i),
            false,
        ) by {
            if i <= ci {
                assert(cs1[i] == cs0[i]);
                assert(Self::child_lo(keys1, lo, i) == Self::child_lo(keys0, lo, i));
                if i < ci {
                    assert(Self::child_hi(keys1, hi, i) == Self::child_hi(keys0, hi, i));
                } else {
                    assert(Self::child_hi(keys1, hi, i) == Some(sep as int));
                }
            } else if i == ci + 1 {
                assert(cs1[i] == right);
                assert(Self::child_lo(keys1, lo, i) == Some(sep as int));
                assert(Self::child_hi(keys1, hi, i) == Self::child_hi(keys0, hi, ci));
            } else {
                assert(cs1[i] == cs0[i - 1]);
                assert(Self::child_lo(keys1, lo, i) == Self::child_lo(keys0, lo, i - 1));
                assert(Self::child_hi(keys1, hi, i) == Self::child_hi(keys0, hi, i - 1));
            }
        }
        assert forall|i: int, j: int| 0 <= i < j < keys1.len() implies #[trigger] keys1[i]
            < #[trigger] keys1[j] by {
            if ci < keys0.len() {
                assert(keys0[ci] == Self::child_hi(keys0, hi, ci).unwrap());
            }
        }
        assert forall|i: int| 0 <= i < keys1.len() implies above_lo(
            #[trigger] keys1[i] as int,
            lo,
        ) && below_hi(keys1[i] as int, hi) by {
            if i < ci {
                assert(keys1[i] == keys0[i]);
            } else if i == ci {
                assert(keys1[i] == sep);
                if ci < keys0.len() {
                    assert(below_hi(keys0[ci] as int, hi));
                }
            } else {
                assert(keys1[i] == keys0[i - 1]);
            }
        }
        assert forall|i: int| 0 <= i < cs1.len() implies (#[trigger] cs1[i]).height()
            == cs1[0].height() by {
            if i <= ci {
                assert(cs1[i] == cs0[i]);
            } else if i == ci + 1 {
                assert(cs1[i] == right);
                assert(right.height() == cs0[ci].height());
            } else {
                assert(cs1[i] == cs0[i - 1]);
            }
            assert(cs1[0] == cs0[0]);
        }
        Self::lemma_ents_split(cs1, 0, ci + 1, n0 + 1);
        Self::lemma_ents_split(cs1, ci + 1, ci + 2, n0 + 1);
        assert(Self::ents(cs1, ci + 1, ci + 2) =~= cs1[ci + 1].entries());
        Self::lemma_ents_shift(cs0, cs1, 0, ci + 1, 0);
        Self::lemma_ents_shift(cs0, cs1, ci + 1, n0, 1);
        Self::lemma_leaves_split(cs1, 0, ci + 1, n0 + 1);
        Self::lemma_leaves_split(cs1, ci + 1, ci + 2, n0 + 1);
        Self::lemma_leaves_split(cs0, 0, ci + 1, n0);
        assert(Self::leaves_of(cs1, ci + 2, ci + 2) == 0);
        assert(Self::leaves_of(cs1, ci + 1, ci + 2) == cs1[ci + 1].leaf_total()
            + Self::leaves_of(cs1, ci + 2, ci + 2));
        Self::lemma_leaves_shift(cs0, cs1, 0, ci + 1, 0);
        Self::lemma_leaves_shift(cs0, cs1, ci + 1, n0, 1);
    }

    /// Splitting a branch at separator index `pm` yields two well-formed
    /// halves around the promoted key, whose entries concatenate to the
    /// whole.
    #[verifier::rlimit(60)]
    pub(crate) proof fn lemma_branch_halves(
        keys1: Seq<i64>,
        cs1: Seq<Node<V>>,
        lcap: nat,
        bcap: nat,
        lo: KeyBd,
        hi: KeyBd,
        pm: int,
    )
        requires
            Self::branch_wf(keys1, cs1, lcap, bcap, lo, hi),
            0 <= pm < keys1.len(),
        ensures
            Self::branch_wf(
                keys1.subrange(0, pm),
                cs1.subrange(0, pm + 1),
                lcap,
                bcap,
                lo,
                Some(keys1[pm] as int),
            ),
            Self::branch_wf(
                keys1.subrange(pm + 1, keys1.len() as int),
                cs1.subrange(pm + 1, cs1.len() as int),
                lcap,
                bcap,
                Some(keys1[pm] as int),
                hi,
            ),
            Self::ents(cs1, 0, cs1.len() as int) == Self::ents(cs1.subrange(0, pm + 1), 0, pm + 1)
                + Self::ents(
                cs1.subrange(pm + 1, cs1.len() as int),
                0,
                cs1.len() - pm - 1,
            ),
            above_lo(keys1[pm] as int, lo),
            below_hi(keys1[pm] as int, hi),
            pm >= 1 ==> keys1[pm] > keys1[0],
            cs1.subrange(0, pm + 1)[0].height() == cs1[0].height(),
            cs1.subrange(pm + 1, cs1.len() as int)[0].height() == cs1[0].height(),
            Self::leaves_of(cs1.subrange(0, pm + 1), 0, pm + 1) + Self::leaves_of(
                cs1.subrange(pm + 1, cs1.len() as int),
                0,
                cs1.len() - pm - 1,
            ) == Self::leaves_of(cs1, 0, cs1.len() as int),
    {
        let n1 = cs1.len() as int;
        let keys2 = keys1.subrange(0, pm);
        let cs2 = cs1.subrange(0, pm + 1);
        let rkeys = keys1.subrange(pm + 1, keys1.len() as int);
        let rcs = cs1.subrange(pm + 1, n1);
        let promoted = keys1[pm];
        assert forall|i: int| 0 <= i < cs2.len() implies (#[trigger] cs2[i]).wf(
            lcap,
            bcap,
            Self::child_lo(keys2, lo, i),
            Self::child_hi(keys2, Some(promoted as int), i),
            false,
        ) by {
            assert(cs2[i] == cs1[i]);
            assert(Self::child_lo(keys2, lo, i) == Self::child_lo(keys1, lo, i));
            assert(Self::child_hi(keys2, Some(promoted as int), i) == Self::child_hi(
                keys1,
                hi,
                i,
            ));
        }
        assert(Self::branch_wf(keys2, cs2, lcap, bcap, lo, Some(promoted as int)));
        assert forall|i: int| 0 <= i < rcs.len() implies (#[trigger] rcs[i]).wf(
            lcap,
            bcap,
            Self::child_lo(rkeys, Some(promoted as int), i),
            Self::child_hi(rkeys, hi, i),
            false,
        ) by {
            assert(rcs[i] == cs1[i + pm + 1]);
            assert(Self::child_lo(rkeys, Some(promoted as int), i) == Self::child_lo(
                keys1,
                lo,
                i + pm + 1,
            ));
            assert(Self::child_hi(rkeys, hi, i) == Self::child_hi(keys1, hi, i + pm + 1));
        }
        assert forall|i: int| 0 <= i < rcs.len() implies (#[trigger] rcs[i]).height()
            == rcs[0].height() by {
            assert(rcs[i] == cs1[i + pm + 1]);
            assert(rcs[0] == cs1[pm + 1]);
        }
        assert(Self::branch_wf(rkeys, rcs, lcap, bcap, Some(promoted as int), hi));
        Self::lemma_ents_split(cs1, 0, pm + 1, n1);
        Self::lemma_ents_shift(cs1, cs2, 0, pm + 1, 0);
        Self::lemma_ents_shift(cs1, rcs, pm + 1, n1, -(pm + 1));
        Self::lemma_leaves_split(cs1, 0, pm + 1, n1);
        Self::lemma_leaves_shift(cs1, cs2, 0, pm + 1, 0);
        Self::lemma_leaves_shift(cs1, rcs, pm + 1, n1, -(pm + 1));
        assert(cs2[0] == cs1[0]);
        assert(rcs[0] == cs1[pm + 1]);
    }

    /// Well-formedness is preserved when the inherited bounds are widened.
    pub(crate) proof fn lemma_wf_widen(
        self,
        lcap: nat,
        bcap: nat,
        lo: KeyBd,
        hi: KeyBd,
        lo2: KeyBd,
        hi2: KeyBd,
        root: bool,
    )
        requires
            self.wf(lcap, bcap, lo, hi, root),
            lo_weaker(lo2, lo),
            hi_weaker(hi2, hi),
        ensures
            self.wf(lcap, bcap, lo2, hi2, root),
        decreases self,
    {
        match self {
            Node::Leaf { keys, vals } => {},
            Node::Branch { keys, children } => {
                let len = keys@.len() as int;
                assert forall|i: int| 0 <= i < children@.len() implies (#[trigger] children@[i]).wf(
                    lcap,
                    bcap,
                    Self::child_lo(keys@, lo2, i),
                    Self::child_hi(keys@, hi2, i),
                    false,
                ) by {
                    if i == 0 && i == len {
                        children@[i].lemma_wf_widen(
                            lcap,
                            bcap,
                            lo,
                            hi,
                            lo2,
                            hi2,
                            false,
                        );
                    } else if i == 0 {
                        children@[i].lemma_wf_widen(
                            lcap,
                            bcap,
                            lo,
                            Self::child_hi(keys@, hi, 0),
                            lo2,
                            Self::child_hi(keys@, hi2, 0),
                            false,
                        );
                    } else if i == len {
                        children@[i].lemma_wf_widen(
                            lcap,
                            bcap,
                            Self::child_lo(keys@, lo, i),
                            hi,
                            Self::child_lo(keys@, lo2, i),
                            hi2,
                            false,
                        );
                    } else {
                        assert(children@[i].wf(
                            lcap,
                            bcap,
                            Self::child_lo(keys@, lo, i),
                            Self::child_hi(keys@, hi, i),
                            false,
                        ));
                    }
                }
            },
        }
    }
}

} // verus!
