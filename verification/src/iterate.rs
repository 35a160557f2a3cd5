//! Iteration engine: ordered forward/backward iteration over items, keys and
//! values, and range scans with per-endpoint bounds.
//!
//! Iterators are snapshots: the tree is walked once in key order, collecting
//! references, and the snapshot is then stepped from either end.

use vstd::prelude::*;

use crate::node::{KeyBd, Node};
use crate::BPlusTreeMap;

verus! {

/// One endpoint of a range scan.
#[derive(Copy, Clone, Debug)]
pub enum KeyBound {
    /// The endpoint admits the key itself.
    Included(i64),
    /// The endpoint excludes the key itself.
    Excluded(i64),
    /// No constraint at this end.
    Unbounded,
}

/// Whether `k` satisfies the start bound `start` and end bound `end`.
pub open spec fn key_in_range(k: i64, start: KeyBound, end: KeyBound) -> bool {
    &&& match start {
        KeyBound::Included(s) => k >= s,
        KeyBound::Excluded(s) => k > s,
        KeyBound::Unbounded => true,
    }
    &&& match end {
        KeyBound::Included(e) => k <= e,
        KeyBound::Excluded(e) => k < e,
        KeyBound::Unbounded => true,
    }
}

/// The subsequence of entries whose keys satisfy the bounds, in order.
pub open spec fn range_entries<V>(s: Seq<(i64, V)>, start: KeyBound, end: KeyBound) -> Seq<
    (i64, V),
>
    decreases s.len(),
{
    if s.len() == 0 {
        Seq::empty()
    } else {
        (if key_in_range(s[0].0, start, end) {
            seq![s[0]]
        } else {
            Seq::empty()
        }) + range_entries(s.drop_first(), start, end)
    }
}

/// Range filtering distributes over concatenation.
pub proof fn lemma_range_entries_concat<V>(
    a: Seq<(i64, V)>,
    b: Seq<(i64, V)>,
    start: KeyBound,
    end: KeyBound,
)
    ensures
        range_entries(a + b, start, end) == range_entries(a, start, end) + range_entries(
            b,
            start,
            end,
        ),
    decreases a.len(),
{
    if a.len() == 0 {
        assert(a + b =~= b);
        assert(range_entries(a, start, end) + range_entries(b, start, end) =~= range_entries(
            b,
            start,
            end,
        ));
    } else {
        assert((a + b)[0] == a[0]);
        assert((a + b).drop_first() =~= a.drop_first() + b);
        lemma_range_entries_concat(a.drop_first(), b, start, end);
        assert(range_entries(a + b, start, end) =~= range_entries(a, start, end) + range_entries(
            b,
            start,
            end,
        ));
    }
}

/// With both endpoints unbounded nothing is filtered out.
pub proof fn lemma_range_entries_all<V>(s: Seq<(i64, V)>)
    ensures
        range_entries(s, KeyBound::Unbounded, KeyBound::Unbounded) == s,
    decreases s.len(),
{
    if s.len() > 0 {
        lemma_range_entries_all(s.drop_first());
        assert(range_entries(s, KeyBound::Unbounded, KeyBound::Unbounded) =~= s);
    }
}

/// A sequence of key/value-reference pairs read as entries.
pub(crate) open spec fn deref_pairs<V>(v: Seq<(i64, &V)>) -> Seq<(i64, V)> {
    Seq::new(v.len(), |i: int| (v[i].0, *v[i].1))
}

/// Runtime check of `key_in_range`.
fn bound_check(k: i64, start: &KeyBound, end: &KeyBound) -> (r: bool)
    ensures
        r == key_in_range(k, *start, *end),
{
    let start_ok = match start {
        KeyBound::Included(s) => k >= *s,
        KeyBound::Excluded(s) => k > *s,
        KeyBound::Unbounded => true,
    };
    let end_ok = match end {
        KeyBound::Included(e) => k <= *e,
        KeyBound::Excluded(e) => k < *e,
        KeyBound::Unbounded => true,
    };
    start_ok && end_ok
}

/// Append references to every in-range entry of the subtree to `out`.
fn collect_node<'a, V>(
    node: &'a Node<V>,
    start: &KeyBound,
    end: &KeyBound,
    out: &mut Vec<(i64, &'a V)>,
    Ghost(lcap): Ghost<nat>,
    Ghost(bcap): Ghost<nat>,
    Ghost(lo): Ghost<KeyBd>,
    Ghost(hi): Ghost<KeyBd>,
    Ghost(root): Ghost<bool>,
)
    requires
        node.wf(lcap, bcap, lo, hi, root),
    ensures
        deref_pairs(final(out)@) == deref_pairs(old(out)@) + range_entries(
            node.entries(),
            *start,
            *end,
        ),
    decreases *node,
{
    let ghost base = deref_pairs(old(out)@);
    match node {
        Node::Leaf { keys, vals } => {
            let ghost es = node.entries();
            let klen = keys.len();
            let mut idx: usize = 0;
            proof {
                assert(es.subrange(0, 0) =~= Seq::<(i64, V)>::empty());
            }
            while idx < klen
                invariant
                    klen == keys@.len(),
                    vals@.len() == keys@.len(),
                    idx <= klen,
                    es == crate::node::zip_entries(keys@, vals@),
                    deref_pairs(out@) == base + range_entries(
                        es.subrange(0, idx as int),
                        *start,
                        *end,
                    ),
                decreases klen - idx,
            {
                let ghost pre = out@;
                let k = keys[idx];
                if bound_check(k, start, end) {
                    out.push((k, &vals[idx]));
                }
                proof {
                    let head = es.subrange(0, idx as int);
                    let one = es.subrange(idx as int, idx + 1);
                    assert(one =~= seq![es[idx as int]]);
                    assert(es.subrange(0, idx + 1) =~= head + one);
                    lemma_range_entries_concat(head, one, *start, *end);
                    assert(one.drop_first() =~= Seq::<(i64, V)>::empty());
                    assert(range_entries(one.drop_first(), *start, *end) =~= Seq::<(
                        i64,
                        V,
                    )>::empty());
                    assert(one[0] == es[idx as int]);
                    if key_in_range(es[idx as int].0, *start, *end) {
                        assert(range_entries(one, *start, *end) == seq![one[0]] + range_entries(
                            one.drop_first(),
                            *start,
                            *end,
                        ));
                        assert(range_entries(one, *start, *end) =~= seq![es[idx as int]]);
                        assert(deref_pairs(out@) =~= deref_pairs(pre) + seq![es[idx as int]]);
                    } else {
                        assert(range_entries(one, *start, *end) == Seq::<(i64, V)>::empty()
                            + range_entries(one.drop_first(), *start, *end));
                        assert(range_entries(one, *start, *end) =~= Seq::<(i64, V)>::empty());
                    }
                    assert(deref_pairs(out@) =~= base + range_entries(
                        es.subrange(0, idx + 1),
                        *start,
                        *end,
                    ));
                }
                idx = idx + 1;
            }
            proof {
                assert(es.subrange(0, klen as int) =~= es);
            }
        },
        Node::Branch { keys, children } => {
            let ghost cs = children@;
            let ghost n = cs.len() as int;
            let clen = children.len();
            let mut idx: usize = 0;
            proof {
                assert(Node::<V>::ents(cs, 0, 0) =~= Seq::<(i64, V)>::empty());
                assert(range_entries(
                    Node::<V>::ents(cs, 0, 0),
                    *start,
                    *end,
                ) =~= Seq::<(i64, V)>::empty());
            }
            while idx < clen
                invariant
                    node.wf(lcap, bcap, lo, hi, root),
                    *node is Branch,
                    cs == node.node_children(),
                    clen == cs.len(),
                    keys@ == node.node_keys(),
                    children@ == cs,
                    idx <= clen,
                    deref_pairs(out@) == base + range_entries(
                        Node::<V>::ents(cs, 0, idx as int),
                        *start,
                        *end,
                    ),
                decreases clen - idx,
            {
                proof {
                    assert(cs[idx as int].wf(
                        lcap,
                        bcap,
                        Node::<V>::child_lo(node.node_keys(), lo, idx as int),
                        Node::<V>::child_hi(node.node_keys(), hi, idx as int),
                        false,
                    ));
                }
                collect_node(
                    &children[idx],
                    start,
                    end,
                    out,
                    Ghost(lcap),
                    Ghost(bcap),
                    Ghost(Node::<V>::child_lo(node.node_keys(), lo, idx as int)),
                    Ghost(Node::<V>::child_hi(node.node_keys(), hi, idx as int)),
                    Ghost(false),
                );
                proof {
                    Node::<V>::lemma_ents_split(cs, 0, idx as int, idx + 1);
                    assert(Node::<V>::ents(cs, idx + 1, idx + 1) =~= Seq::<(i64, V)>::empty());
                    assert(Node::<V>::ents(cs, idx as int, idx + 1) == cs[idx as int].entries()
                        + Node::<V>::ents(cs, idx + 1, idx + 1));
                    assert(Node::<V>::ents(cs, idx as int, idx + 1) =~= cs[idx as int].entries());
                    lemma_range_entries_concat(
                        Node::<V>::ents(cs, 0, idx as int),
                        cs[idx as int].entries(),
                        *start,
                        *end,
                    );
                }
                idx = idx + 1;
            }
        },
    }
}

/// Forward/backward iterator over key/value pairs, in ascending key order.
pub struct Items<'a, V> {
    /// The collected in-range entries.
    entries: Vec<(i64, &'a V)>,
    /// Next position to yield from the front.
    pos: usize,
    /// One past the next position to yield from the back.
    back: usize,
}

impl<'a, V> Items<'a, V> {
    /// The entries not yet yielded, in order.
    pub closed spec fn remaining(&self) -> Seq<(i64, V)> {
        deref_pairs(self.entries@.subrange(self.pos as int, self.back as int))
    }

    /// The iterator's cursors are in range.
    pub closed spec fn wf_iter(&self) -> bool {
        self.pos <= self.back <= self.entries@.len()
    }

    /// The next pair from the front, if any.
    pub fn next(&mut self) -> (r: Option<(i64, &'a V)>)
        requires
            old(self).wf_iter(),
        ensures
            final(self).wf_iter(),
            match r {
                Some(p) => old(self).remaining().len() > 0 && (p.0, *p.1) == old(
                    self,
                ).remaining()[0] && final(self).remaining() == old(self).remaining().drop_first(),
                None => old(self).remaining().len() == 0 && final(self).remaining() == old(
                    self,
                ).remaining(),
            },
    {
        if self.pos < self.back {
            let p = self.entries[self.pos];
            self.pos = self.pos + 1;
            proof {
                assert(final(self).remaining() =~= old(self).remaining().drop_first());
            }
            Some(p)
        } else {
            None
        }
    }

    /// The next pair from the back, if any.
    pub fn next_back(&mut self) -> (r: Option<(i64, &'a V)>)
        requires
            old(self).wf_iter(),
        ensures
            final(self).wf_iter(),
            match r {
                Some(p) => old(self).remaining().len() > 0 && (p.0, *p.1) == old(
                    self,
                ).remaining().last() && final(self).remaining() == old(
                    self,
                ).remaining().drop_last(),
                None => old(self).remaining().len() == 0 && final(self).remaining() == old(
                    self,
                ).remaining(),
            },
    {
        if self.pos < self.back {
            self.back = self.back - 1;
            let p = self.entries[self.back];
            proof {
                assert(final(self).remaining() =~= old(self).remaining().drop_last());
            }
            Some(p)
        } else {
            None
        }
    }

    /// How many pairs are left.
    pub fn remaining_len(&self) -> (r: usize)
        requires
            self.wf_iter(),
        ensures
            r == self.remaining().len(),
    {
        self.back - self.pos
    }
}

/// Forward/backward iterator over keys, in ascending order.
pub struct Keys {
    /// The collected in-range keys.
    keys: Vec<i64>,
    /// Next position to yield from the front.
    pos: usize,
    /// One past the next position to yield from the back.
    back: usize,
}

impl Keys {
    /// The keys not yet yielded, in order.
    pub closed spec fn remaining(&self) -> Seq<i64> {
        self.keys@.subrange(self.pos as int, self.back as int)
    }

    /// The iterator's cursors are in range.
    pub closed spec fn wf_iter(&self) -> bool {
        self.pos <= self.back <= self.keys@.len()
    }

    /// The next key from the front, if any.
    pub fn next(&mut self) -> (r: Option<i64>)
        requires
            old(self).wf_iter(),
        ensures
            final(self).wf_iter(),
            match r {
                Some(k) => old(self).remaining().len() > 0 && k == old(self).remaining()[0]
                    && final(self).remaining() == old(self).remaining().drop_first(),
                None => old(self).remaining().len() == 0 && final(self).remaining() == old(
                    self,
                ).remaining(),
            },
    {
        if self.pos < self.back {
            let k = self.keys[self.pos];
            self.pos = self.pos + 1;
            proof {
                assert(final(self).remaining() =~= old(self).remaining().drop_first());
            }
            Some(k)
        } else {
            None
        }
    }

    /// The next key from the back, if any.
    pub fn next_back(&mut self) -> (r: Option<i64>)
        requires
            old(self).wf_iter(),
        ensures
            final(self).wf_iter(),
            match r {
                Some(k) => old(self).remaining().len() > 0 && k == old(self).remaining().last()
                    && final(self).remaining() == old(self).remaining().drop_last(),
                None => old(self).remaining().len() == 0 && final(self).remaining() == old(
                    self,
                ).remaining(),
            },
    {
        if self.pos < self.back {
            self.back = self.back - 1;
            let k = self.keys[self.back];
            proof {
                assert(final(self).remaining() =~= old(self).remaining().drop_last());
            }
            Some(k)
        } else {
            None
        }
    }
}

/// Forward/backward iterator over values, in ascending key order.
pub struct Values<'a, V> {
    /// The collected in-range entries.
    entries: Vec<(i64, &'a V)>,
    /// Next position to yield from the front.
    pos: usize,
    /// One past the next position to yield from the back.
    back: usize,
}

impl<'a, V> Values<'a, V> {
    /// The values not yet yielded, in key order.
    pub closed spec fn remaining(&self) -> Seq<V> {
        Seq::new(
            (self.back - self.pos) as nat,
            |i: int| *self.entries@[self.pos + i].1,
        )
    }

    /// The iterator's cursors are in range.
    pub closed spec fn wf_iter(&self) -> bool {
        self.pos <= self.back <= self.entries@.len()
    }

    /// The next value from the front, if any.
    pub fn next(&mut self) -> (r: Option<&'a V>)
        requires
            old(self).wf_iter(),
        ensures
            final(self).wf_iter(),
            match r {
                Some(v) => old(self).remaining().len() > 0 && *v == old(self).remaining()[0]
                    && final(self).remaining() == old(self).remaining().drop_first(),
                None => old(self).remaining().len() == 0 && final(self).remaining() == old(
                    self,
                ).remaining(),
            },
    {
        if self.pos < self.back {
            let p = self.entries[self.pos];
            self.pos = self.pos + 1;
            proof {
                assert(final(self).remaining() =~= old(self).remaining().drop_first());
            }
            Some(p.1)
        } else {
            None
        }
    }

    /// The next value from the back, if any.
    pub fn next_back(&mut self) -> (r: Option<&'a V>)
        requires
            old(self).wf_iter(),
        ensures
            final(self).wf_iter(),
            match r {
                Some(v) => old(self).remaining().len() > 0 && *v == old(self).remaining().last()
                    && final(self).remaining() == old(self).remaining().drop_last(),
                None => old(self).remaining().len() == 0 && final(self).remaining() == old(
                    self,
                ).remaining(),
            },
    {
        if self.pos < self.back {
            self.back = self.back - 1;
            let p = self.entries[self.back];
            proof {
                assert(final(self).remaining() =~= old(self).remaining().drop_last());
            }
            Some(p.1)
        } else {
            None
        }
    }
}

impl<V> BPlusTreeMap<V> {
    /// Collect the in-range entries of the whole tree, in order.
    fn collect_range(&self, start: &KeyBound, end: &KeyBound) -> (r: Vec<(i64, &V)>)
        requires
            self.wf(),
        ensures
            deref_pairs(r@) == range_entries(self@, *start, *end),
    {
        let mut out: Vec<(i64, &V)> = Vec::new();
        proof {
            assert(deref_pairs(Seq::<(i64, &V)>::empty()) =~= Seq::<(i64, V)>::empty());
        }
        match &self.root {
            None => {
                proof {
                    assert(range_entries(self@, *start, *end) =~= Seq::<(i64, V)>::empty());
                }
            },
            Some(n) => {
                collect_node(
                    n,
                    start,
                    end,
                    &mut out,
                    Ghost(self.lcap()),
                    Ghost(self.bcap()),
                    Ghost(None),
                    Ghost(None),
                    Ghost(true),
                );
                proof {
                    assert(deref_pairs(Seq::<(i64, &V)>::empty()) + range_entries(
                        self@,
                        *start,
                        *end,
                    ) =~= range_entries(self@, *start, *end));
                }
            },
        }
        out
    }

    /// Iterator over every key/value pair, in ascending key order.
    pub fn items(&self) -> (r: Items<'_, V>)
        requires
            self.wf(),
        ensures
            r.wf_iter(),
            r.remaining() == self@,
    {
        let entries = self.collect_range(&KeyBound::Unbounded, &KeyBound::Unbounded);
        let back = entries.len();
        proof {
            lemma_range_entries_all(self@);
            assert(entries@.subrange(0, back as int) =~= entries@);
        }
        Items { entries, pos: 0, back }
    }

    /// Iterator over the key/value pairs in `[start, end)` under the given
    /// bounds.
    pub fn range(&self, start: KeyBound, end: KeyBound) -> (r: Items<'_, V>)
        requires
            self.wf(),
        ensures
            r.wf_iter(),
            r.remaining() == range_entries(self@, start, end),
    {
        let entries = self.collect_range(&start, &end);
        let back = entries.len();
        proof {
            assert(entries@.subrange(0, back as int) =~= entries@);
        }
        Items { entries, pos: 0, back }
    }

    /// Iterator over the key/value pairs between the optional inclusive
    /// start key and exclusive end key.
    pub fn items_range(&self, start: Option<&i64>, end: Option<&i64>) -> (r: Items<'_, V>)
        requires
            self.wf(),
        ensures
            r.wf_iter(),
            r.remaining() == range_entries(
                self@,
                match start {
                    Some(s) => KeyBound::Included(*s),
                    None => KeyBound::Unbounded,
                },
                match end {
                    Some(e) => KeyBound::Excluded(*e),
                    None => KeyBound::Unbounded,
                },
            ),
    {
        let sb = match start {
            Some(s) => KeyBound::Included(*s),
            None => KeyBound::Unbounded,
        };
        let eb = match end {
            Some(e) => KeyBound::Excluded(*e),
            None => KeyBound::Unbounded,
        };
        self.range(sb, eb)
    }

    /// Iterator over every key, in ascending order.
    pub fn keys(&self) -> (r: Keys)
        requires
            self.wf(),
        ensures
            r.wf_iter(),
            r.remaining().len() == self@.len(),
            forall|i: int| 0 <= i < self@.len() ==> r.remaining()[i] == (#[trigger] self@[i]).0,
    {
        let entries = self.collect_range(&KeyBound::Unbounded, &KeyBound::Unbounded);
        let mut ks: Vec<i64> = Vec::new();
        let mut idx: usize = 0;
        proof {
            lemma_range_entries_all(self@);
        }
        while idx < entries.len()
            invariant
                idx <= entries@.len(),
                deref_pairs(entries@) == self@,
                ks@.len() == idx,
                forall|i: int| 0 <= i < idx ==> ks@[i] == (#[trigger] self@[i]).0,
            decreases entries@.len() - idx,
        {
            let p = entries[idx];
            ks.push(p.0);
            idx = idx + 1;
        }
        let back = ks.len();
        proof {
            assert(ks@.subrange(0, back as int) =~= ks@);
        }
        Keys { keys: ks, pos: 0, back }
    }

    /// Iterator over every value, in ascending key order.
    pub fn values(&self) -> (r: Values<'_, V>)
        requires
            self.wf(),
        ensures
            r.wf_iter(),
            r.remaining().len() == self@.len(),
            forall|i: int| 0 <= i < self@.len() ==> r.remaining()[i] == (#[trigger] self@[i]).1,
    {
        let entries = self.collect_range(&KeyBound::Unbounded, &KeyBound::Unbounded);
        let back = entries.len();
        proof {
            lemma_range_entries_all(self@);
            assert forall|i: int| 0 <= i < self@.len() implies Seq::new(
                back as nat,
                |k: int| *entries@[0 + k].1,
            )[i] == (#[trigger] self@[i]).1 by {
                assert(deref_pairs(entries@)[i] == self@[i]);
            }
        }
        Values { entries, pos: 0, back }
    }

    /// The entry with the smallest key, if any.
    pub fn first(&self) -> (r: Option<(i64, &V)>)
        requires
            self.wf(),
        ensures
            match r {
                Some(p) => self@.len() > 0 && (p.0, *p.1) == self@[0],
                None => self@.len() == 0,
            },
    {
        let mut it = self.items();
        it.next()
    }

    /// The entry with the largest key, if any.
    pub fn last(&self) -> (r: Option<(i64, &V)>)
        requires
            self.wf(),
        ensures
            match r {
                Some(p) => self@.len() > 0 && (p.0, *p.1) == self@.last(),
                None => self@.len() == 0,
            },
    {
        let mut it = self.items();
        it.next_back()
    }
}

} // verus!
