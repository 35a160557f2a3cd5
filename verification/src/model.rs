//! The mathematical model of the container: a sequence of key/value entries
//! sorted strictly by key, together with the operations the public contracts
//! speak of (lookup, insertion, removal, range filtering) and the lemmas that
//! relate them to an abstract map.

use vstd::prelude::*;

verus! {

/// True when the entry keys are strictly increasing.
pub open spec fn entries_sorted<V>(s: Seq<(i64, V)>) -> bool {
    forall|i: int, j: int| 0 <= i < j < s.len() ==> (#[trigger] s[i]).0 < (#[trigger] s[j]).0
}

/// True when every entry key is strictly below `b`.
pub open spec fn keys_below<V>(s: Seq<(i64, V)>, b: int) -> bool {
    forall|i: int| 0 <= i < s.len() ==> (#[trigger] s[i]).0 < b
}

/// True when every entry key is at least `b`.
pub open spec fn keys_at_least<V>(s: Seq<(i64, V)>, b: int) -> bool {
    forall|i: int| 0 <= i < s.len() ==> (#[trigger] s[i]).0 >= b
}

/// The value associated with the first entry whose key is `k`, if any.
pub open spec fn lookup<V>(s: Seq<(i64, V)>, k: i64) -> Option<V>
    decreases s.len(),
{
    if s.len() == 0 {
        None
    } else if s[0].0 == k {
        Some(s[0].1)
    } else {
        lookup(s.drop_first(), k)
    }
}

/// The sequence with `(k, v)` inserted in key order, replacing an existing
/// entry with key `k` if there is one.
pub open spec fn insert_entry<V>(s: Seq<(i64, V)>, k: i64, v: V) -> Seq<(i64, V)>
    decreases s.len(),
{
    if s.len() == 0 {
        seq![(k, v)]
    } else if k < s[0].0 {
        seq![(k, v)] + s
    } else if k == s[0].0 {
        seq![(k, v)] + s.drop_first()
    } else {
        seq![s[0]] + insert_entry(s.drop_first(), k, v)
    }
}

/// The sequence with the first entry keyed `k` removed, if present.
pub open spec fn remove_entry<V>(s: Seq<(i64, V)>, k: i64) -> Seq<(i64, V)>
    decreases s.len(),
{
    if s.len() == 0 {
        s
    } else if s[0].0 == k {
        s.drop_first()
    } else {
        seq![s[0]] + remove_entry(s.drop_first(), k)
    }
}

/// The sequence after inserting every pair of `items`, in order.
pub open spec fn insert_entries<V>(s: Seq<(i64, V)>, items: Seq<(i64, V)>) -> Seq<(i64, V)>
    decreases items.len(),
{
    if items.len() == 0 {
        s
    } else {
        insert_entry(insert_entries(s, items.drop_last()), items.last().0, items.last().1)
    }
}

/// The abstract map the entry sequence denotes. Earlier entries win, which
/// matches `lookup`; on sorted sequences keys are unique so the order is
/// irrelevant.
pub open spec fn entries_map<V>(s: Seq<(i64, V)>) -> Map<i64, V>
    decreases s.len(),
{
    if s.len() == 0 {
        Map::empty()
    } else {
        entries_map(s.drop_first()).insert(s[0].0, s[0].1)
    }
}

/// `lookup` misses when no entry carries the key.
pub proof fn lemma_lookup_none<V>(s: Seq<(i64, V)>, k: i64)
    requires
        forall|i: int| 0 <= i < s.len() ==> (#[trigger] s[i]).0 != k,
    ensures
        lookup(s, k) is None,
    decreases s.len(),
{
    if s.len() > 0 {
        assert(s[0].0 != k);
        lemma_lookup_none(s.drop_first(), k);
    }
}

/// Dropping a prefix whose keys are all below `k` does not change `lookup`.
pub proof fn lemma_lookup_concat_left<V>(a: Seq<(i64, V)>, b: Seq<(i64, V)>, k: i64)
    requires
        keys_below(a, k as int),
    ensures
        lookup(a + b, k) == lookup(b, k),
    decreases a.len(),
{
    if a.len() == 0 {
        assert(a + b =~= b);
    } else {
        assert(a[0].0 < k as int);
        assert((a + b).drop_first() =~= a.drop_first() + b);
        lemma_lookup_concat_left(a.drop_first(), b, k);
    }
}

/// Dropping a suffix whose keys are all above `k` does not change `lookup`.
pub proof fn lemma_lookup_concat_right<V>(a: Seq<(i64, V)>, b: Seq<(i64, V)>, k: i64)
    requires
        keys_at_least(b, k as int + 1),
    ensures
        lookup(a + b, k) == lookup(a, k),
    decreases a.len(),
{
    if a.len() == 0 {
        assert(a + b =~= b);
        lemma_lookup_none(b, k);
    } else {
        assert((a + b)[0] == a[0]);
        assert((a + b).drop_first() =~= a.drop_first() + b);
        lemma_lookup_concat_right(a.drop_first(), b, k);
    }
}

/// Insertion commutes with a prefix whose keys are all below `k`.
pub proof fn lemma_insert_concat_left<V>(a: Seq<(i64, V)>, b: Seq<(i64, V)>, k: i64, v: V)
    requires
        keys_below(a, k as int),
    ensures
        insert_entry(a + b, k, v) == a + insert_entry(b, k, v),
    decreases a.len(),
{
    if a.len() == 0 {
        assert(a + b =~= b);
        assert(a + insert_entry(b, k, v) =~= insert_entry(b, k, v));
    } else {
        assert(a[0].0 < k as int);
        assert((a + b)[0] == a[0]);
        assert((a + b).drop_first() =~= a.drop_first() + b);
        lemma_insert_concat_left(a.drop_first(), b, k, v);
        assert(insert_entry(a + b, k, v) =~= a + insert_entry(b, k, v));
    }
}

/// Insertion commutes with a suffix whose keys are all above `k`.
pub proof fn lemma_insert_concat_right<V>(a: Seq<(i64, V)>, b: Seq<(i64, V)>, k: i64, v: V)
    requires
        keys_at_least(b, k as int + 1),
    ensures
        insert_entry(a + b, k, v) == insert_entry(a, k, v) + b,
    decreases a.len(),
{
    if a.len() == 0 {
        assert(a + b =~= b);
        if b.len() == 0 {
            assert(insert_entry(a, k, v) + b =~= insert_entry(a, k, v));
        } else {
            assert(k < b[0].0);
            assert(insert_entry(b, k, v) =~= seq![(k, v)] + b);
            assert(insert_entry(a, k, v) =~= seq![(k, v)]);
            assert(insert_entry(a, k, v) + b =~= seq![(k, v)] + b);
        }
    } else {
        assert((a + b)[0] == a[0]);
        assert((a + b).drop_first() =~= a.drop_first() + b);
        lemma_insert_concat_right(a.drop_first(), b, k, v);
        if k < a[0].0 {
            assert(insert_entry(a + b, k, v) =~= insert_entry(a, k, v) + b);
        } else if k == a[0].0 {
            assert(insert_entry(a + b, k, v) =~= insert_entry(a, k, v) + b);
        } else {
            assert(insert_entry(a + b, k, v) =~= insert_entry(a, k, v) + b);
        }
    }
}

/// Removal commutes with a prefix whose keys are all below `k`.
pub proof fn lemma_remove_concat_left<V>(a: Seq<(i64, V)>, b: Seq<(i64, V)>, k: i64)
    requires
        keys_below(a, k as int),
    ensures
        remove_entry(a + b, k) == a + remove_entry(b, k),
    decreases a.len(),
{
    if a.len() == 0 {
        assert(a + b =~= b);
        assert(a + remove_entry(b, k) =~= remove_entry(b, k));
    } else {
        assert(a[0].0 < k as int);
        assert((a + b)[0] == a[0]);
        assert((a + b).drop_first() =~= a.drop_first() + b);
        lemma_remove_concat_left(a.drop_first(), b, k);
        assert(remove_entry(a + b, k) =~= a + remove_entry(b, k));
    }
}

/// Removal commutes with a suffix whose keys are all above `k`.
pub proof fn lemma_remove_concat_right<V>(a: Seq<(i64, V)>, b: Seq<(i64, V)>, k: i64)
    requires
        keys_at_least(b, k as int + 1),
    ensures
        remove_entry(a + b, k) == remove_entry(a, k) + b,
    decreases a.len(),
{
    if a.len() == 0 {
        assert(a + b =~= b);
        lemma_remove_none(b, k);
        assert(remove_entry(a, k) + b =~= b);
    } else {
        assert((a + b)[0] == a[0]);
        assert((a + b).drop_first() =~= a.drop_first() + b);
        lemma_remove_concat_right(a.drop_first(), b, k);
        if a[0].0 == k {
            assert(remove_entry(a + b, k) =~= remove_entry(a, k) + b);
        } else {
            assert(remove_entry(a + b, k) =~= remove_entry(a, k) + b);
        }
    }
}

/// Removing an absent key changes nothing.
pub proof fn lemma_remove_none<V>(s: Seq<(i64, V)>, k: i64)
    requires
        forall|i: int| 0 <= i < s.len() ==> (#[trigger] s[i]).0 != k,
    ensures
        remove_entry(s, k) == s,
    decreases s.len(),
{
    if s.len() > 0 {
        assert(s[0].0 != k);
        lemma_remove_none(s.drop_first(), k);
        assert(remove_entry(s, k) =~= s);
    }
}

/// Inserting a key smaller than everything in `s` prepends the entry.
pub proof fn lemma_insert_at_index<V>(s: Seq<(i64, V)>, k: i64, v: V, idx: int)
    requires
        0 <= idx <= s.len(),
        forall|j: int| 0 <= j < idx ==> (#[trigger] s[j]).0 < k,
        forall|j: int| idx <= j < s.len() ==> (#[trigger] s[j]).0 > k,
    ensures
        insert_entry(s, k, v) == s.insert(idx, (k, v)),
    decreases s.len(),
{
    if idx == 0 {
        if s.len() == 0 {
            assert(insert_entry(s, k, v) =~= s.insert(0, (k, v)));
        } else {
            assert(s[0].0 > k);
            assert(insert_entry(s, k, v) =~= s.insert(0, (k, v)));
        }
    } else {
        assert(s[0].0 < k);
        lemma_insert_at_index(s.drop_first(), k, v, idx - 1);
        assert(insert_entry(s, k, v) =~= s.insert(idx, (k, v)));
    }
}

/// Inserting a key already present at `idx` overwrites that entry in place.
pub proof fn lemma_overwrite_at_index<V>(s: Seq<(i64, V)>, k: i64, v: V, idx: int)
    requires
        0 <= idx < s.len(),
        s[idx].0 == k,
        forall|j: int| 0 <= j < idx ==> (#[trigger] s[j]).0 < k,
    ensures
        insert_entry(s, k, v) == s.update(idx, (k, v)),
        lookup(s, k) == Some(s[idx].1),
    decreases s.len(),
{
    if idx == 0 {
        assert(insert_entry(s, k, v) =~= s.update(0, (k, v)));
    } else {
        assert(s[0].0 < k);
        lemma_overwrite_at_index(s.drop_first(), k, v, idx - 1);
        assert(insert_entry(s, k, v) =~= s.update(idx, (k, v)));
    }
}

/// Removing a key present at `idx` deletes exactly that entry.
pub proof fn lemma_remove_at_index<V>(s: Seq<(i64, V)>, k: i64, idx: int)
    requires
        0 <= idx < s.len(),
        s[idx].0 == k,
        forall|j: int| 0 <= j < idx ==> (#[trigger] s[j]).0 < k,
    ensures
        remove_entry(s, k) == s.remove(idx),
        lookup(s, k) == Some(s[idx].1),
    decreases s.len(),
{
    if idx == 0 {
        assert(remove_entry(s, k) =~= s.remove(0));
    } else {
        assert(s[0].0 < k);
        lemma_remove_at_index(s.drop_first(), k, idx - 1);
        assert(remove_entry(s, k) =~= s.remove(idx));
    }
}

/// `lookup` finds the entry at `idx` when everything before it has a smaller
/// key.
pub proof fn lemma_lookup_at_index<V>(s: Seq<(i64, V)>, k: i64, idx: int)
    requires
        0 <= idx < s.len(),
        s[idx].0 == k,
        forall|j: int| 0 <= j < idx ==> (#[trigger] s[j]).0 < k,
    ensures
        lookup(s, k) == Some(s[idx].1),
    decreases s.len(),
{
    if idx > 0 {
        assert(s[0].0 < k);
        lemma_lookup_at_index(s.drop_first(), k, idx - 1);
    }
}

/// Length of the sequence after an insertion.
pub proof fn lemma_insert_len<V>(s: Seq<(i64, V)>, k: i64, v: V)
    requires
        entries_sorted(s),
    ensures
        insert_entry(s, k, v).len() == if lookup(s, k) is Some {
            s.len() as int
        } else {
            s.len() + 1 as int
        },
    decreases s.len(),
{
    if s.len() > 0 && k < s[0].0 {
        assert(forall|i: int| 0 <= i < s.len() ==> (#[trigger] s[i]).0 != k);
        lemma_lookup_none(s, k);
    } else if s.len() > 0 && k > s[0].0 {
        assert(entries_sorted(s.drop_first()));
        lemma_insert_len(s.drop_first(), k, v);
    }
}

/// Length of the sequence after a removal.
pub proof fn lemma_remove_len<V>(s: Seq<(i64, V)>, k: i64)
    ensures
        remove_entry(s, k).len() == if lookup(s, k) is Some {
            s.len() - 1
        } else {
            s.len() as int
        },
    decreases s.len(),
{
    if s.len() > 0 && s[0].0 != k {
        lemma_remove_len(s.drop_first(), k);
    }
}

/// Lookup agreement for insertion: after inserting `(k, v)`, looking up `k`
/// finds `v` and looking up any other key is unchanged.
pub proof fn lemma_lookup_after_insert<V>(s: Seq<(i64, V)>, k: i64, v: V, k2: i64)
    requires
        entries_sorted(s),
    ensures
        lookup(insert_entry(s, k, v), k2) == if k2 == k {
            Some(v)
        } else {
            lookup(s, k2)
        },
    decreases s.len(),
{
    reveal_with_fuel(lookup, 3);
    reveal_with_fuel(insert_entry, 3);
    if s.len() == 0 {
        assert(insert_entry(s, k, v) =~= seq![(k, v)]);
        assert(insert_entry(s, k, v)[0] == (k, v));
        assert(insert_entry(s, k, v).drop_first() =~= Seq::<(i64, V)>::empty());
    } else if k < s[0].0 {
        assert(insert_entry(s, k, v)[0] == (k, v));
        assert(insert_entry(s, k, v).drop_first() =~= s);
    } else if k == s[0].0 {
        assert(insert_entry(s, k, v)[0] == (k, v));
        assert(insert_entry(s, k, v).drop_first() =~= s.drop_first());
    } else {
        assert(entries_sorted(s.drop_first()));
        lemma_lookup_after_insert(s.drop_first(), k, v, k2);
        assert(insert_entry(s, k, v).drop_first() =~= insert_entry(s.drop_first(), k, v));
        assert(insert_entry(s, k, v)[0] == s[0]);
    }
}

/// Lookup agreement for removal: after removing `k`, looking up `k` misses
/// and looking up any other key is unchanged.
pub proof fn lemma_lookup_after_remove<V>(s: Seq<(i64, V)>, k: i64, k2: i64)
    requires
        entries_sorted(s),
    ensures
        lookup(remove_entry(s, k), k2) == if k2 == k {
            None::<V>
        } else {
            lookup(s, k2)
        },
    decreases s.len(),
{
    if s.len() == 0 {
    } else if s[0].0 == k {
        if k2 == k {
            assert(forall|i: int|
                0 <= i < s.drop_first().len() ==> (#[trigger] s.drop_first()[i]).0 != k);
            lemma_lookup_none(s.drop_first(), k);
        }
    } else {
        assert(entries_sorted(s.drop_first()));
        lemma_lookup_after_remove(s.drop_first(), k, k2);
        assert(remove_entry(s, k).drop_first() =~= remove_entry(s.drop_first(), k));
        assert(remove_entry(s, k)[0] == s[0]);
    }
}

/// Round trip: inserting a fresh key and then removing it restores the exact
/// entry sequence, and the removal returns the inserted value.
pub proof fn lemma_insert_remove_roundtrip<V>(s: Seq<(i64, V)>, k: i64, v: V)
    requires
        entries_sorted(s),
        lookup(s, k) is None,
    ensures
        remove_entry(insert_entry(s, k, v), k) == s,
        lookup(insert_entry(s, k, v), k) == Some(v),
    decreases s.len(),
{
    lemma_lookup_after_insert(s, k, v, k);
    if s.len() == 0 {
        assert(remove_entry(insert_entry(s, k, v), k) =~= s);
    } else if k < s[0].0 {
        assert(insert_entry(s, k, v)[0] == (k, v));
        assert(remove_entry(insert_entry(s, k, v), k) =~= s);
    } else {
        assert(k > s[0].0);
        assert(entries_sorted(s.drop_first()));
        lemma_insert_remove_roundtrip(s.drop_first(), k, v);
        assert(insert_entry(s, k, v)[0] == s[0]);
        assert(insert_entry(s, k, v).drop_first() =~= insert_entry(s.drop_first(), k, v));
        assert(remove_entry(insert_entry(s, k, v), k) =~= seq![s[0]] + remove_entry(
            insert_entry(s.drop_first(), k, v),
            k,
        ));
        assert(seq![s[0]] + s.drop_first() =~= s);
    }
}

/// Oracle agreement for lookup: `lookup` matches membership and value in the
/// abstract map.
pub proof fn lemma_entries_map_lookup<V>(s: Seq<(i64, V)>, k: i64)
    requires
        entries_sorted(s),
    ensures
        entries_map(s).contains_key(k) <==> lookup(s, k) is Some,
        lookup(s, k) is Some ==> entries_map(s)[k] == lookup(s, k).unwrap(),
    decreases s.len(),
{
    if s.len() > 0 {
        assert(entries_sorted(s.drop_first()));
        lemma_entries_map_lookup(s.drop_first(), k);
    }
}

/// Oracle agreement for insertion: the abstract map of the sequence after an
/// insertion is the abstract map with the key bound to the new value.
pub proof fn lemma_entries_map_insert<V>(s: Seq<(i64, V)>, k: i64, v: V)
    requires
        entries_sorted(s),
    ensures
        entries_map(insert_entry(s, k, v)) == entries_map(s).insert(k, v),
    decreases s.len(),
{
    reveal_with_fuel(entries_map, 3);
    reveal_with_fuel(insert_entry, 3);
    if s.len() == 0 {
        assert(entries_map(insert_entry(s, k, v)) =~= entries_map(s).insert(k, v));
    } else if k < s[0].0 {
        assert(insert_entry(s, k, v)[0] == (k, v));
        assert(insert_entry(s, k, v).drop_first() =~= s);
        assert(entries_map(insert_entry(s, k, v)) =~= entries_map(s).insert(k, v));
    } else if k == s[0].0 {
        let x = insert_entry(s, k, v);
        assert(x[0] == (k, v));
        assert(x.drop_first() =~= s.drop_first());
        assert(entries_map(x) == entries_map(s.drop_first()).insert(k, v));
        assert(entries_map(s) == entries_map(s.drop_first()).insert(s[0].0, s[0].1));
        assert(entries_map(x) =~= entries_map(s).insert(k, v));
    } else {
        assert(entries_sorted(s.drop_first()));
        lemma_entries_map_insert(s.drop_first(), k, v);
        assert(insert_entry(s, k, v)[0] == s[0]);
        assert(insert_entry(s, k, v).drop_first() =~= insert_entry(s.drop_first(), k, v));
        assert(entries_map(insert_entry(s, k, v)) =~= entries_map(s).insert(k, v));
    }
}

/// Oracle agreement for removal: the abstract map of the sequence after a
/// removal is the abstract map with the key unbound.
pub proof fn lemma_entries_map_remove<V>(s: Seq<(i64, V)>, k: i64)
    requires
        entries_sorted(s),
    ensures
        entries_map(remove_entry(s, k)) == entries_map(s).remove(k),
    decreases s.len(),
{
    if s.len() == 0 {
        assert(entries_map(remove_entry(s, k)) =~= entries_map(s).remove(k));
    } else if s[0].0 == k {
        assert(forall|i: int|
            0 <= i < s.drop_first().len() ==> (#[trigger] s.drop_first()[i]).0 != k);
        lemma_lookup_none(s.drop_first(), k);
        assert(entries_sorted(s.drop_first()));
        lemma_entries_map_lookup(s.drop_first(), k);
        assert(!entries_map(s.drop_first()).contains_key(k));
        assert(entries_map(remove_entry(s, k)) =~= entries_map(s).remove(k));
    } else {
        assert(entries_sorted(s.drop_first()));
        lemma_entries_map_remove(s.drop_first(), k);
        assert(remove_entry(s, k)[0] == s[0]);
        assert(remove_entry(s, k).drop_first() =~= remove_entry(s.drop_first(), k));
        assert(entries_map(remove_entry(s, k)) =~= entries_map(s).remove(k));
    }
}

} // verus!
