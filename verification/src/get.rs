//! Lookup operations.

use vstd::prelude::*;

use crate::common::binary_search_keys;
use crate::model::{lookup, lemma_lookup_at_index, lemma_lookup_concat_left,
    lemma_lookup_concat_right, lemma_lookup_none};
use crate::node::{KeyBd, Node};
use crate::{BPlusTreeError, BPlusTreeMap, BTreeResult};

verus! {

/// Finds the value for `key` in the subtree `node`.
pub(crate) fn get_node<'a, V>(
    node: &'a Node<V>,
    key: &i64,
    Ghost(lcap): Ghost<nat>,
    Ghost(bcap): Ghost<nat>,
    Ghost(lo): Ghost<KeyBd>,
    Ghost(hi): Ghost<KeyBd>,
    Ghost(root): Ghost<bool>,
) -> (r: Option<&'a V>)
    requires
        node.wf(lcap, bcap, lo, hi, root),
    ensures
        match r {
            Some(v) => lookup(node.entries(), *key) == Some(*v),
            None => lookup(node.entries(), *key) is None,
        },
    decreases *node,
{
    match node {
        Node::Leaf { keys, vals } => {
            let ghost es = node.entries();
            match binary_search_keys(keys.as_slice(), key) {
                Ok(idx) => {
                    proof {
                        lemma_lookup_at_index(es, *key, idx as int);
                    }
                    Some(&vals[idx])
                },
                Err(_) => {
                    proof {
                        lemma_lookup_none(es, *key);
                    }
                    None
                },
            }
        },
        Node::Branch { keys, children } => {
            let klen = keys.len();
            let ci = match binary_search_keys(keys.as_slice(), key) {
                Ok(i) => i + 1,
                Err(i) => i,
            };
            proof {
                Node::<V>::lemma_branch_parts(
                    keys@,
                    children@,
                    lcap,
                    bcap,
                    lo,
                    hi,
                    ci as int,
                );
                let n = children@.len() as int;
                let a = Node::<V>::ents(children@, 0, ci as int);
                let mid = children@[ci as int].entries();
                let b = Node::<V>::ents(children@, ci + 1, n);
                lemma_lookup_concat_left(a, mid + b, *key);
                lemma_lookup_concat_right(mid, b, *key);
                assert(node.entries() == a + (mid + b)) by {
                    assert(node.entries() == (a + mid) + b);
                    assert((a + mid) + b =~= a + (mid + b));
                }
            }
            get_node(
                &children[ci],
                key,
                Ghost(lcap),
                Ghost(bcap),
                Ghost(Node::<V>::child_lo(keys@, lo, ci as int)),
                Ghost(Node::<V>::child_hi(keys@, hi, ci as int)),
                Ghost(false),
            )
        },
    }
}

impl<V> BPlusTreeMap<V> {
    /// A reference to the value stored under `key`, or `None`.
    pub fn get(&self, key: &i64) -> (r: Option<&V>)
        requires
            self.wf(),
        ensures
            match r {
                Some(v) => lookup(self@, *key) == Some(*v),
                None => lookup(self@, *key) is None,
            },
    {
        match &self.root {
            None => None,
            Some(n) => get_node(
                n,
                key,
                Ghost(self.lcap()),
                Ghost(self.bcap()),
                Ghost(None),
                Ghost(None),
                Ghost(true),
            ),
        }
    }

    /// The value stored under `key`, or `KeyNotFound`.
    pub fn get_item(&self, key: &i64) -> (r: Result<&V, BPlusTreeError>)
        requires
            self.wf(),
        ensures
            match r {
                Ok(v) => lookup(self@, *key) == Some(*v),
                Err(e) => lookup(self@, *key) is None && e is KeyNotFound,
            },
    {
        match self.get(key) {
            Some(v) => Ok(v),
            None => Err(BPlusTreeError::KeyNotFound),
        }
    }

    /// Whether `key` is present.
    pub fn contains_key(&self, key: &i64) -> (r: bool)
        requires
            self.wf(),
        ensures
            r == (lookup(self@, *key) is Some),
    {
        self.get(key).is_some()
    }

    /// The value stored under `key`, or `default` when absent.
    pub fn get_or_default<'a>(&'a self, key: &i64, default: &'a V) -> (r: &'a V)
        requires
            self.wf(),
        ensures
            match lookup(self@, *key) {
                Some(v) => *r == v,
                None => r == default,
            },
    {
        match self.get(key) {
            Some(v) => v,
            None => default,
        }
    }

    /// References to the values under all of `keys`, or `KeyNotFound` when
    /// any of them is absent.
    pub fn get_many<'a>(&'a self, keys: &[i64]) -> (r: BTreeResult<Vec<&'a V>>)
        requires
            self.wf(),
        ensures
            match r {
                Ok(vs) => {
                    &&& vs@.len() == keys@.len()
                    &&& forall|i: int|
                        0 <= i < keys@.len() ==> lookup(self@, #[trigger] keys@[i]) == Some(
                            *#[trigger] vs@[i],
                        )
                },
                Err(e) => e is KeyNotFound && exists|i: int|
                    0 <= i < keys@.len() && lookup(self@, #[trigger] keys@[i]) is None,
            },
    {
        let mut out: Vec<&V> = Vec::new();
        let mut idx: usize = 0;
        while idx < keys.len()
            invariant
                self.wf(),
                idx <= keys@.len(),
                out@.len() == idx,
                forall|i: int|
                    0 <= i < idx ==> lookup(self@, #[trigger] keys@[i]) == Some(*#[trigger] out@[i]),
            decreases keys@.len() - idx,
        {
            match self.get(&keys[idx]) {
                Some(v) => out.push(v),
                None => {
                    return Err(BPlusTreeError::KeyNotFound);
                },
            }
            idx = idx + 1;
        }
        Ok(out)
    }
}

} // verus!
