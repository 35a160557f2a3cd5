//! An ordered in-memory map backed by a B+ tree with fixed-capacity nodes.
//!
//! Keys are `i64`; values are an arbitrary type `V`. Every leaf holds up to a
//! fixed number of key/value pairs; branches hold separator keys and child
//! subtrees. Lookup, insertion, deletion, ordered iteration and range scans
//! are all verified against a model of the tree as a sequence of key/value
//! entries sorted strictly by key.

use vstd::prelude::*;

pub mod layout;
pub mod model;

mod common;
mod delete;
mod get;
mod insert;
pub mod iterate;
mod node;

pub use iterate::{Items, KeyBound, Keys, Values};

use layout::{
    branch_end, branch_layout_for, leaf_end, leaf_layout_for, BranchLayout, LeafLayout,
};
use node::Node;

verus! {

/// Byte budget bought by a number of 64-byte cache lines, clamped to the
/// address space.
pub open spec fn line_budget(lines: int) -> int {
    if lines * 64 > usize::MAX {
        usize::MAX as int
    } else {
        lines * 64
    }
}

/// Capacity requested at construction, clamped to what a 16-bit node header
/// can count.
pub open spec fn clamp_cap(c: int) -> int {
    if c > 65535 {
        65535
    } else {
        c
    }
}

/// Errors reported by the container.
#[derive(Debug)]
pub enum BPlusTreeError {
    /// Construction was asked for a capacity below the supported minimum.
    InvalidCapacity(String),
    /// An explicit `_item` accessor missed.
    KeyNotFound,
    /// Stored data failed a consistency check.
    DataIntegrityError(String),
    /// A block-bookkeeping operation failed.
    ArenaError(String),
    /// A node-level operation failed.
    NodeError(String),
    /// The validator found a structural invariant broken.
    CorruptedTree(String),
    /// An operation was attempted in a state that does not support it.
    InvalidState(String),
    /// A node block could not be allocated.
    AllocationError(String),
}

/// Two errors are of the same kind when they use the same variant, whatever
/// the diagnostic text.
pub open spec fn same_error_kind(a: &BPlusTreeError, b: &BPlusTreeError) -> bool {
    match (a, b) {
        (BPlusTreeError::InvalidCapacity(_), BPlusTreeError::InvalidCapacity(_)) => true,
        (BPlusTreeError::KeyNotFound, BPlusTreeError::KeyNotFound) => true,
        (BPlusTreeError::DataIntegrityError(_), BPlusTreeError::DataIntegrityError(_)) => true,
        (BPlusTreeError::ArenaError(_), BPlusTreeError::ArenaError(_)) => true,
        (BPlusTreeError::NodeError(_), BPlusTreeError::NodeError(_)) => true,
        (BPlusTreeError::CorruptedTree(_), BPlusTreeError::CorruptedTree(_)) => true,
        (BPlusTreeError::InvalidState(_), BPlusTreeError::InvalidState(_)) => true,
        (BPlusTreeError::AllocationError(_), BPlusTreeError::AllocationError(_)) => true,
        _ => false,
    }
}

impl PartialEq for BPlusTreeError {
    /// Errors compare by variant alone.
    fn eq(&self, other: &Self) -> (r: bool) {
        match (self, other) {
            (BPlusTreeError::InvalidCapacity(_), BPlusTreeError::InvalidCapacity(_)) => true,
            (BPlusTreeError::KeyNotFound, BPlusTreeError::KeyNotFound) => true,
            (BPlusTreeError::DataIntegrityError(_), BPlusTreeError::DataIntegrityError(_)) => true,
            (BPlusTreeError::ArenaError(_), BPlusTreeError::ArenaError(_)) => true,
            (BPlusTreeError::NodeError(_), BPlusTreeError::NodeError(_)) => true,
            (BPlusTreeError::CorruptedTree(_), BPlusTreeError::CorruptedTree(_)) => true,
            (BPlusTreeError::InvalidState(_), BPlusTreeError::InvalidState(_)) => true,
            (BPlusTreeError::AllocationError(_), BPlusTreeError::AllocationError(_)) => true,
            _ => false,
        }
    }
}

impl vstd::std_specs::cmp::PartialEqSpecImpl for BPlusTreeError {
    open spec fn obeys_eq_spec() -> bool {
        true
    }

    open spec fn eq_spec(&self, other: &Self) -> bool {
        same_error_kind(self, other)
    }
}

impl Eq for BPlusTreeError {}

impl BPlusTreeError {
    /// The requested capacity `got` is below the minimum `min`.
    pub fn invalid_capacity(got: usize, min: usize) -> (r: Self)
        ensures
            r is InvalidCapacity,
    {
        BPlusTreeError::InvalidCapacity("capacity below the required minimum".to_owned())
    }

    /// Stored data failed a consistency check during `op`.
    pub fn data_integrity(op: &str, why: &str) -> (r: Self)
        ensures
            r is DataIntegrityError,
    {
        BPlusTreeError::DataIntegrityError(why.to_owned())
    }

    /// Block bookkeeping for `what` failed.
    pub fn arena_error(what: &str, why: &str) -> (r: Self)
        ensures
            r is ArenaError,
    {
        BPlusTreeError::ArenaError(why.to_owned())
    }

    /// A node-level operation on node `id` failed.
    pub fn node_error(kind: &str, id: u32, why: &str) -> (r: Self)
        ensures
            r is NodeError,
    {
        BPlusTreeError::NodeError(why.to_owned())
    }

    /// The validator found corruption at `where_`.
    pub fn corrupted_tree(where_: &str, why: &str) -> (r: Self)
        ensures
            r is CorruptedTree,
    {
        BPlusTreeError::CorruptedTree(why.to_owned())
    }

    /// The operation `op` cannot run in the current state.
    pub fn invalid_state(op: &str, why: &str) -> (r: Self)
        ensures
            r is InvalidState,
    {
        BPlusTreeError::InvalidState(why.to_owned())
    }

    /// Allocating `what` failed.
    pub fn allocation_error(what: &str, why: &str) -> (r: Self)
        ensures
            r is AllocationError,
    {
        BPlusTreeError::AllocationError(why.to_owned())
    }
}

/// Convenience adapters on the container's fallible results.
pub trait BTreeResultExt<T> {
    /// Annotate a result with context; the value is unchanged.
    fn with_context(self, ctx: &str) -> Result<T, BPlusTreeError>;

    /// Annotate a result with the operation attempted; the value is
    /// unchanged.
    fn with_operation(self, op: &str) -> Result<T, BPlusTreeError>;

    /// The carried value, or the type's default in place of an error.
    fn or_default_with_log(self) -> T where T: Default;
}

impl<T> BTreeResultExt<T> for Result<T, BPlusTreeError> {
    fn with_context(self, ctx: &str) -> Result<T, BPlusTreeError> {
        self
    }

    fn with_operation(self, op: &str) -> Result<T, BPlusTreeError> {
        self
    }

    fn or_default_with_log(self) -> T where T: Default {
        match self {
            Ok(t) => t,
            Err(_) => T::default(),
        }
    }
}

/// Result alias used across the container's fallible API.
pub type BTreeResult<T> = Result<T, BPlusTreeError>;

/// Alias for construction-time results.
pub type InitResult<T> = Result<T, BPlusTreeError>;

/// Alias for key-lookup results.
pub type KeyResult<T> = Result<T, BPlusTreeError>;

/// Alias for mutation results.
pub type ModifyResult<T> = Result<T, BPlusTreeError>;

/// A lightweight handle naming a node by id and kind, used by diagnostic
/// interfaces.
#[derive(Copy, Clone, Debug, PartialEq, Eq)]
pub enum NodeRef {
    /// A leaf node with the given id.
    Leaf(u32),
    /// A branch node with the given id.
    Branch(u32),
}

impl NodeRef {
    /// The node id carried by the handle.
    pub fn id(&self) -> (r: u32)
        ensures
            r == match *self {
                NodeRef::Leaf(id) => id,
                NodeRef::Branch(id) => id,
            },
    {
        match *self {
            NodeRef::Leaf(id) => id,
            NodeRef::Branch(id) => id,
        }
    }

    /// Whether the handle names a leaf.
    pub fn is_leaf(&self) -> (r: bool)
        ensures
            r == (*self is Leaf),
    {
        match *self {
            NodeRef::Leaf(_) => true,
            NodeRef::Branch(_) => false,
        }
    }
}

/// An ordered map from `i64` keys to values of type `V`, stored as a B+ tree
/// with fixed-capacity nodes.
pub struct BPlusTreeMap<V> {
    /// Root node; `None` when the container holds nothing.
    root: Option<Node<V>>,
    /// Fixed layout descriptor for leaf blocks.
    leaf_layout: LeafLayout,
    /// Fixed layout descriptor for branch blocks.
    branch_layout: BranchLayout,
    /// Number of key/value pairs currently stored.
    length: usize,
}

impl<V> View for BPlusTreeMap<V> {
    type V = Seq<(i64, V)>;

    /// The container denotes the sequence of its entries in ascending key
    /// order.
    closed spec fn view(&self) -> Seq<(i64, V)> {
        match self.root {
            None => Seq::empty(),
            Some(n) => n.entries(),
        }
    }
}

impl<V> BPlusTreeMap<V> {
    /// Leaf capacity: the maximum number of key/value pairs per leaf.
    pub closed spec fn lcap(&self) -> nat {
        self.leaf_layout.cap as nat
    }

    /// Branch capacity: the maximum number of separator keys per branch.
    pub closed spec fn bcap(&self) -> nat {
        self.branch_layout.cap as nat
    }

    /// The leaf layout descriptor the container was built with.
    pub closed spec fn spec_leaf_layout(&self) -> LeafLayout {
        self.leaf_layout
    }

    /// The branch layout descriptor the container was built with.
    pub closed spec fn spec_branch_layout(&self) -> BranchLayout {
        self.branch_layout
    }

    /// Number of leaves currently in the tree.
    pub closed spec fn spec_leaf_count(&self) -> nat {
        match self.root {
            None => 0,
            Some(n) => n.leaf_total(),
        }
    }

    /// Whether inserting `key` would split a leaf: the search path for it
    /// ends at a full leaf that does not already hold the key.
    pub closed spec fn spec_splits_leaf(&self, key: i64) -> bool {
        match self.root {
            None => false,
            Some(n) => n.splits_leaf(key, self.lcap()),
        }
    }

    /// Whether the root is a leaf (or the tree is empty).
    pub closed spec fn spec_is_leaf_root(&self) -> bool {
        match self.root {
            None => true,
            Some(n) => n.is_leaf(),
        }
    }

    /// The property the runtime validator checks: the node invariants, with
    /// uniform child kinds checked at each branch in place of uniform child
    /// depth.
    pub closed spec fn spec_checked_invariants(&self) -> bool {
        match self.root {
            None => true,
            Some(n) => n.checked_wf(self.lcap(), self.bcap(), None, None, true),
        }
    }

    /// Structural-invariant law: a well-formed container passes the runtime
    /// validator's checks.
    pub proof fn lemma_wf_implies_checked_invariants(&self)
        requires
            self.wf(),
        ensures
            self.spec_checked_invariants(),
    {
        match self.root {
            None => {},
            Some(n) => {
                n.lemma_wf_implies_checked(self.lcap(), self.bcap(), None, None, true);
            },
        }
    }

    /// Structural well-formedness: capacities are in range, the tree satisfies
    /// the node invariants, and the stored length matches the entry count.
    pub closed spec fn wf(&self) -> bool {
        &&& 4 <= self.leaf_layout.cap
        &&& 4 <= self.branch_layout.cap
        &&& match self.root {
            None => true,
            Some(n) => n.wf(self.lcap(), self.bcap(), None, None, true),
        }
        &&& self.length == self@.len()
    }

    /// Common cache line size assumption, in bytes.
    pub const CACHE_LINE_BYTES: usize = 64;

    /// Construct with explicit byte budgets for leaf and branch blocks; the
    /// planner packs as many keys into each as fit. Leaves are doubly linked
    /// to support reverse iteration.
    ///
    /// The container starts empty. It is usable only when both computed
    /// capacities reach the supported minimum of 4.
    pub fn with_budgets(leaf_bytes: usize, branch_bytes: usize) -> (r: Self)
        ensures
            r@ == Seq::<(i64, V)>::empty(),
            r.spec_leaf_layout().bytes == leaf_bytes,
            r.spec_branch_layout().bytes == branch_bytes,
            r.lcap() > 0 ==> leaf_end::<i64, V>(r.lcap() as int, true) <= leaf_bytes,
            forall|c: int|
                r.lcap() < c <= 65535 ==> #[trigger] leaf_end::<i64, V>(c, true) > leaf_bytes,
            r.bcap() > 0 ==> branch_end::<i64>(r.bcap() as int) <= branch_bytes,
            forall|c: int| r.bcap() < c <= 65535 ==> #[trigger] branch_end::<i64>(c) > branch_bytes,
            4 <= r.lcap() && 4 <= r.bcap() ==> r.wf(),
    {
        proof {
            broadcast use vstd::layout::layout_of_primitives;

            assert(vstd::layout::size_of::<i64>() == 8);
        }
        let leaf_layout = LeafLayout::compute::<i64, V>(leaf_bytes, true);
        let branch_layout = BranchLayout::compute::<i64>(branch_bytes);
        let tree = BPlusTreeMap { root: None, leaf_layout, branch_layout, length: 0 };
        proof {
            assert(tree@ =~= Seq::<(i64, V)>::empty());
        }
        tree
    }

    /// Construct using cache-line counts for leaf and branch blocks, at 64
    /// bytes per line; counts so large that the byte budget would overflow
    /// are clamped to the largest representable budget.
    pub fn with_cache_lines(leaf_lines: usize, branch_lines: usize) -> (r: Self)
        ensures
            r@ == Seq::<(i64, V)>::empty(),
            ({
                let lb = line_budget(leaf_lines as int);
                let bb = line_budget(branch_lines as int);
                &&& (r.lcap() > 0 ==> leaf_end::<i64, V>(r.lcap() as int, true) <= lb)
                &&& (forall|c: int|
                    r.lcap() < c <= 65535 ==> #[trigger] leaf_end::<i64, V>(c, true) > lb)
                &&& (r.bcap() > 0 ==> branch_end::<i64>(r.bcap() as int) <= bb)
                &&& (forall|c: int| r.bcap() < c <= 65535 ==> #[trigger] branch_end::<i64>(c) > bb)
            }),
            4 <= r.lcap() && 4 <= r.bcap() ==> r.wf(),
    {
        let lb = match leaf_lines.checked_mul(Self::CACHE_LINE_BYTES) {
            Some(v) => v,
            None => usize::MAX,
        };
        let bb = match branch_lines.checked_mul(Self::CACHE_LINE_BYTES) {
            Some(v) => v,
            None => usize::MAX,
        };
        Self::with_budgets(lb, bb)
    }

    /// Construct a container whose leaves and branches hold up to `capacity`
    /// keys each.
    ///
    /// Fails with `InvalidCapacity` when `capacity < 4`, and with
    /// `AllocationError` when a node block for this capacity would not fit in
    /// the address space.
    pub fn new(capacity: usize) -> (r: Result<Self, BPlusTreeError>)
        ensures
            match r {
                Ok(t) => {
                    &&& capacity >= 4
                    &&& t.wf()
                    &&& t@ == Seq::<(i64, V)>::empty()
                    &&& t.lcap() == clamp_cap(capacity as int)
                    &&& t.bcap() == clamp_cap(capacity as int)
                    &&& t.spec_leaf_layout() == leaf_layout_for::<i64, V>(
                        clamp_cap(capacity as int),
                        true,
                    )
                    &&& t.spec_branch_layout() == branch_layout_for::<i64>(
                        clamp_cap(capacity as int),
                    )
                    &&& t.spec_leaf_count() == 1
                    &&& t.spec_is_leaf_root()
                },
                Err(e) => {
                    &&& (capacity < 4 ==> e is InvalidCapacity)
                    &&& (capacity >= 4 ==> e is AllocationError && (leaf_end::<i64, V>(
                        clamp_cap(capacity as int),
                        true,
                    ) > usize::MAX || branch_end::<i64>(clamp_cap(capacity as int)) > usize::MAX))
                },
            },
            capacity >= 4 && leaf_end::<i64, V>(clamp_cap(capacity as int), true) <= usize::MAX
                && branch_end::<i64>(clamp_cap(capacity as int)) <= usize::MAX ==> r is Ok,
    {
        if capacity < 4 {
            return Err(BPlusTreeError::InvalidCapacity("capacity below 4".to_owned()));
        }
        let cap_u16: u16 = if capacity > 65535 {
            65535
        } else {
            capacity as u16
        };
        let leaf_layout = LeafLayout::compute_for_cap::<i64, V>(cap_u16, true);
        let branch_layout = BranchLayout::compute_for_cap::<i64>(cap_u16);
        if leaf_layout.cap < cap_u16 || branch_layout.cap < cap_u16 {
            return Err(
                BPlusTreeError::AllocationError("node block exceeds the address space".to_owned()),
            );
        }
        let tree = BPlusTreeMap {
            root: Some(Node::Leaf { keys: Vec::new(), vals: Vec::new() }),
            leaf_layout,
            branch_layout,
            length: 0,
        };
        proof {
            assert(tree@ =~= Seq::<(i64, V)>::empty());
        }
        Ok(tree)
    }

    /// The configured layout for leaf nodes.
    pub fn leaf_layout(&self) -> (r: &LeafLayout)
        ensures
            *r == self.spec_leaf_layout(),
            r.cap == self.lcap(),
    {
        &self.leaf_layout
    }

    /// The configured layout for branch nodes.
    pub fn branch_layout(&self) -> (r: &BranchLayout)
        ensures
            *r == self.spec_branch_layout(),
            r.cap == self.bcap(),
    {
        &self.branch_layout
    }

    /// Number of key/value pairs stored.
    pub fn len(&self) -> (r: usize)
        requires
            self.wf(),
        ensures
            r == self@.len(),
    {
        self.length
    }

    /// Whether the container holds nothing.
    pub fn is_empty(&self) -> (r: bool)
        requires
            self.wf(),
        ensures
            r == (self@.len() == 0),
    {
        self.length == 0
    }

    /// Ordering law: the entry sequence the container denotes — the order in
    /// which forward iteration yields entries, and the reverse of backward
    /// iteration — is strictly increasing in the keys.
    pub proof fn lemma_view_sorted(&self)
        requires
            self.wf(),
        ensures
            crate::model::entries_sorted(self@),
    {
        match self.root {
            None => {},
            Some(n) => {
                n.lemma_wf_entries(self.lcap(), self.bcap(), None, None, true);
            },
        }
    }

    /// Oracle-agreement law: under the abstract map view, `insert`, `remove`
    /// and `get` behave exactly as `Map::insert`, `Map::remove` and map
    /// lookup on the same key.
    pub proof fn lemma_oracle_agreement(&self, k: i64, v: V)
        requires
            self.wf(),
        ensures
            crate::model::entries_map(crate::model::insert_entry(self@, k, v))
                == crate::model::entries_map(self@).insert(k, v),
            crate::model::entries_map(crate::model::remove_entry(self@, k))
                == crate::model::entries_map(self@).remove(k),
            crate::model::entries_map(self@).contains_key(k) <==> crate::model::lookup(self@, k)
                is Some,
            crate::model::lookup(self@, k) is Some ==> crate::model::entries_map(self@)[k]
                == crate::model::lookup(self@, k).unwrap(),
    {
        self.lemma_view_sorted();
        crate::model::lemma_entries_map_insert(self@, k, v);
        crate::model::lemma_entries_map_remove(self@, k);
        crate::model::lemma_entries_map_lookup(self@, k);
    }

    /// Round-trip law: inserting a key that is not present and then removing
    /// it restores the container's exact entry sequence, and the removal
    /// returns the inserted value.
    pub proof fn lemma_round_trip(&self, k: i64, v: V)
        requires
            self.wf(),
            crate::model::lookup(self@, k) is None,
        ensures
            crate::model::remove_entry(crate::model::insert_entry(self@, k, v), k) == self@,
            crate::model::lookup(crate::model::insert_entry(self@, k, v), k) == Some(v),
    {
        self.lemma_view_sorted();
        crate::model::lemma_insert_remove_roundtrip(self@, k, v);
    }

    /// Lookup-agreement law: after an insertion or a removal, looking up the
    /// touched key reflects it and looking up any other key is unchanged.
    pub proof fn lemma_lookup_agreement(&self, k: i64, v: V, k2: i64)
        requires
            self.wf(),
        ensures
            crate::model::lookup(crate::model::insert_entry(self@, k, v), k2) == if k2 == k {
                Some(v)
            } else {
                crate::model::lookup(self@, k2)
            },
            crate::model::lookup(crate::model::remove_entry(self@, k), k2) == if k2 == k {
                None::<V>
            } else {
                crate::model::lookup(self@, k2)
            },
    {
        self.lemma_view_sorted();
        crate::model::lemma_lookup_after_insert(self@, k, v, k2);
        crate::model::lemma_lookup_after_remove(self@, k, k2);
    }

    /// Walk the tree and report the first invariant violation as an error.
    pub fn validate(&self) -> (r: BTreeResult<()>)
        ensures
            r is Ok <==> self.spec_checked_invariants(),
            r is Err ==> r.unwrap_err() is CorruptedTree,
    {
        match self.check_invariants_detailed() {
            Ok(()) => Ok(()),
            Err(e) => Err(BPlusTreeError::CorruptedTree(e)),
        }
    }

    /// Walk the tree and report the first invariant violation found before
    /// running the named operation.
    pub fn validate_for_operation(&self, op: &str) -> (r: BTreeResult<()>)
        ensures
            r is Ok <==> self.spec_checked_invariants(),
            r is Err ==> r.unwrap_err() is CorruptedTree,
    {
        self.validate()
    }

    /// The value stored under `key`, or `KeyNotFound`, under the fallible
    /// result alias.
    pub fn try_get(&self, key: &i64) -> (r: KeyResult<&V>)
        requires
            self.wf(),
        ensures
            match r {
                Ok(v) => crate::model::lookup(self@, *key) == Some(*v),
                Err(e) => crate::model::lookup(self@, *key) is None && e is KeyNotFound,
            },
    {
        self.get_item(key)
    }

    /// Discard every entry and release every node.
    pub fn clear(&mut self)
        requires
            old(self).wf(),
        ensures
            final(self).wf(),
            final(self)@ == Seq::<(i64, V)>::empty(),
            final(self).lcap() == old(self).lcap(),
            final(self).bcap() == old(self).bcap(),
    {
        self.root = None;
        self.length = 0;
        proof {
            assert(self@ =~= Seq::<(i64, V)>::empty());
        }
    }
}

} // verus!
