//! What holds of every sequence of calls.
//!
//! `insert`, `remove`, `get` and `get_mut` state what they do to the view of
//! the tree, a map from key bytes to values: `insert` takes the view `m` to
//! `m.insert(k, v)`, `remove` takes it to `m.remove(k)`, `get` leaves it as
//! it is, and each returns `value_of(m, k)`. The laws below are stated of
//! these steps, and so hold of the calls.
use vstd::prelude::*;

use crate::art::{value_of, Art};
use crate::key::ArtKey;
use crate::model::is_prefix;

verus! {

/// A call of the tree, by the bytes of its key.
pub enum Op<V> {
    Insert(Seq<u8>, V),
    Remove(Seq<u8>),
    Get(Seq<u8>),
}

/// The view after a call on a tree with the view `m`.
pub open spec fn step<V>(m: Map<Seq<u8>, V>, op: Op<V>) -> Map<Seq<u8>, V> {
    match op {
        Op::Insert(k, v) => m.insert(k, v),
        Op::Remove(k) => m.remove(k),
        Op::Get(_) => m,
    }
}

/// The view after the calls `ops`, made in order on a tree with the view `m`.
pub open spec fn run<V>(m: Map<Seq<u8>, V>, ops: Seq<Op<V>>) -> Map<Seq<u8>, V>
    decreases ops.len(),
{
    if ops.len() == 0 {
        m
    } else {
        step(run(m, ops.drop_last()), ops.last())
    }
}

/// What the last call of `ops` that stores or removes `k` leaves for `k`:
/// the stored value, or nothing after a removal. `None` where no call of
/// `ops` stores or removes `k`.
pub open spec fn last_write<V>(ops: Seq<Op<V>>, k: Seq<u8>) -> Option<Option<V>>
    decreases ops.len(),
{
    if ops.len() == 0 {
        None
    } else {
        match ops.last() {
            Op::Insert(key, v) => if key == k {
                Some(Some(v))
            } else {
                last_write(ops.drop_last(), k)
            },
            Op::Remove(key) => if key == k {
                Some(None)
            } else {
                last_write(ops.drop_last(), k)
            },
            Op::Get(_) => last_write(ops.drop_last(), k),
        }
    }
}

/// The view after the entries of `entries` have been inserted in order.
pub open spec fn insert_all<V>(m: Map<Seq<u8>, V>, entries: Seq<(Seq<u8>, V)>) -> Map<Seq<u8>, V>
    decreases entries.len(),
{
    if entries.len() == 0 {
        m
    } else {
        insert_all(m, entries.drop_last()).insert(entries.last().0, entries.last().1)
    }
}

/// The view after the keys of `keys` have been removed in order.
pub open spec fn remove_all<V>(m: Map<Seq<u8>, V>, keys: Seq<Seq<u8>>) -> Map<Seq<u8>, V>
    decreases keys.len(),
{
    if keys.len() == 0 {
        m
    } else {
        remove_all(m, keys.drop_last()).remove(keys.last())
    }
}

/// No two entries have the same key.
pub open spec fn distinct_keys<V>(entries: Seq<(Seq<u8>, V)>) -> bool {
    forall|i: int, j: int|
        0 <= i < entries.len() && 0 <= j < entries.len() && i != j ==> entries[i].0 != entries[j].0
}

/// After any sequence of calls a key has the value of the last insertion
/// that no removal of the key has followed, and no value where there is no
/// such insertion.
pub proof fn law_last_write_wins<V>(ops: Seq<Op<V>>, k: Seq<u8>)
    ensures
        value_of(run(Map::<Seq<u8>, V>::empty(), ops), k) == match last_write(ops, k) {
            Some(written) => written,
            None => None,
        },
    decreases ops.len(),
{
    if ops.len() > 0 {
        law_last_write_wins(ops.drop_last(), k);
    }
}

/// A second insertion under the same key leaves the number of entries as it
/// is, leaves the second value under the key, and returns the first.
pub proof fn law_insert_overwrites<V>(m: Map<Seq<u8>, V>, k: Seq<u8>, v1: V, v2: V)
    requires
        m.dom().finite(),
    ensures
        m.insert(k, v1).insert(k, v2).dom().len() == m.insert(k, v1).dom().len(),
        value_of(m.insert(k, v1).insert(k, v2), k) == Some(v2),
        value_of(m.insert(k, v1), k) == Some(v1),
{
    assert(m.insert(k, v1).insert(k, v2).dom() =~= m.insert(k, v1).dom());
}

/// A second removal of the same key returns nothing and leaves the tree, and
/// so the number of its entries, as it is.
pub proof fn law_remove_twice<V>(m: Map<Seq<u8>, V>, k: Seq<u8>)
    ensures
        value_of(m.remove(k), k) is None,
        m.remove(k).remove(k) == m.remove(k),
{
    assert(m.remove(k).remove(k) =~= m.remove(k));
}

/// A key and a longer key that starts with it are stored side by side, in
/// whichever order they come: each keeps its own value.
pub proof fn law_prefix_keys_coexist<V>(m: Map<Seq<u8>, V>, a: Seq<u8>, b: Seq<u8>, va: V, vb: V)
    requires
        is_prefix(a, b),
        a.len() < b.len(),
    ensures
        value_of(m.insert(a, va).insert(b, vb), a) == Some(va),
        value_of(m.insert(a, va).insert(b, vb), b) == Some(vb),
        value_of(m.insert(b, vb).insert(a, va), a) == Some(va),
        value_of(m.insert(b, vb).insert(a, va), b) == Some(vb),
{
}

/// After the insertion of entries with distinct keys every one of them is
/// found with its value.
pub proof fn lemma_insert_all<V>(entries: Seq<(Seq<u8>, V)>)
    requires
        distinct_keys(entries),
    ensures
        forall|i: int|
            0 <= i < entries.len() ==> value_of(
                insert_all(Map::<Seq<u8>, V>::empty(), entries),
                #[trigger] entries[i].0,
            ) == Some(entries[i].1),
    decreases entries.len(),
{
    let all = insert_all(Map::<Seq<u8>, V>::empty(), entries);
    if entries.len() > 0 {
        let front = entries.drop_last();
        let n = entries.len() - 1;
        assert forall|i: int, j: int| 0 <= i < front.len() && 0 <= j < front.len() && i != j implies front[i].0
            != front[j].0 by {
            assert(front[i] == entries[i] && front[j] == entries[j]);
        }
        lemma_insert_all(front);
        assert forall|i: int| 0 <= i < entries.len() implies value_of(all, #[trigger] entries[i].0)
            == Some(entries[i].1) by {
            if i < n {
                assert(front[i] == entries[i]);
                assert(entries[i].0 != entries[n].0);
            }
        }
    }
}

/// The order of insertion does not show: two sequences that hold the same
/// entries, each key once, leave the same view.
pub proof fn law_order_independent<V>(first: Seq<(Seq<u8>, V)>, second: Seq<(Seq<u8>, V)>)
    requires
        distinct_keys(first),
        distinct_keys(second),
        forall|e: (Seq<u8>, V)| first.contains(e) <==> second.contains(e),
    ensures
        insert_all(Map::<Seq<u8>, V>::empty(), first) == insert_all(
            Map::<Seq<u8>, V>::empty(),
            second,
        ),
{
    let a = insert_all(Map::<Seq<u8>, V>::empty(), first);
    let b = insert_all(Map::<Seq<u8>, V>::empty(), second);
    lemma_insert_all(first);
    lemma_insert_all(second);
    lemma_loaded_keys(first);
    lemma_loaded_keys(second);
    assert forall|k: Seq<u8>| a.contains_key(k) implies b.contains_key(k) && b[k] == a[k] by {
        let i = choose|i: int| 0 <= i < first.len() && #[trigger] first[i].0 == k;
        assert(first.contains(first[i]));
        assert(second.contains(first[i]));
        let j = choose|j: int| 0 <= j < second.len() && second[j] == first[i];
        assert(value_of(b, second[j].0) == Some(second[j].1));
        assert(value_of(a, first[i].0) == Some(first[i].1));
    }
    assert forall|k: Seq<u8>| b.contains_key(k) implies a.contains_key(k) by {
        let j = choose|j: int| 0 <= j < second.len() && #[trigger] second[j].0 == k;
        assert(second.contains(second[j]));
        assert(first.contains(second[j]));
        let i = choose|i: int| 0 <= i < first.len() && first[i] == second[j];
        assert(value_of(a, first[i].0) == Some(first[i].1));
    }
    assert(a =~= b);
}

/// A removal takes its key out of the view for good: no later removal
/// brings it back.
pub proof fn lemma_remove_all<V>(m: Map<Seq<u8>, V>, keys: Seq<Seq<u8>>)
    ensures
        forall|k: Seq<u8>| #[trigger]
            remove_all(m, keys).contains_key(k) <==> m.contains_key(k) && !keys.contains(k),
    decreases keys.len(),
{
    if keys.len() > 0 {
        let front = keys.drop_last();
        lemma_remove_all(m, front);
        assert forall|k: Seq<u8>| #[trigger]
            remove_all(m, keys).contains_key(k) <==> m.contains_key(k) && !keys.contains(k) by {
            if keys.contains(k) && k != keys.last() {
                let i = choose|i: int| 0 <= i < keys.len() && keys[i] == k;
                assert(front[i] == k);
                assert(front.contains(k));
            }
            if front.contains(k) {
                let i = choose|i: int| 0 <= i < front.len() && front[i] == k;
                assert(keys[i] == k);
                assert(keys.contains(k));
            }
            assert(keys[keys.len() - 1] == keys.last());
            assert(keys.contains(keys.last()));
            assert(remove_all(m, keys) == remove_all(m, front).remove(keys.last()));
        }
    }
}

/// A tree in which entries were inserted and from which every key of them
/// was removed, in whatever order, has no entry and holds no node.
pub proof fn law_drained_tree_is_bare<K: ArtKey, V, const P: usize>(
    art: Art<K, V, P>,
    entries: Seq<(Seq<u8>, V)>,
    keys: Seq<Seq<u8>>,
)
    requires
        art.wf(),
        art@ == remove_all(insert_all(Map::<Seq<u8>, V>::empty(), entries), keys),
        forall|i: int| 0 <= i < entries.len() ==> keys.contains(#[trigger] entries[i].0),
    ensures
        art@ == Map::<Seq<u8>, V>::empty(),
        art@.dom().len() == 0,
        art.is_bare(),
{
    let loaded = insert_all(Map::<Seq<u8>, V>::empty(), entries);
    lemma_loaded_keys(entries);
    lemma_remove_all(loaded, keys);
    assert(art@ =~= Map::<Seq<u8>, V>::empty());
    art.lemma_empty_is_bare();
}

/// Every key that is found after the insertion of entries is the key of one
/// of them.
pub proof fn lemma_loaded_keys<V>(entries: Seq<(Seq<u8>, V)>)
    ensures
        forall|k: Seq<u8>|
            insert_all(Map::<Seq<u8>, V>::empty(), entries).contains_key(k) ==> exists|i: int|
                0 <= i < entries.len() && #[trigger] entries[i].0 == k,
    decreases entries.len(),
{
    if entries.len() > 0 {
        let front = entries.drop_last();
        let n = entries.len() - 1;
        lemma_loaded_keys(front);
        let before = insert_all(Map::<Seq<u8>, V>::empty(), front);
        assert forall|k: Seq<u8>|
            insert_all(Map::<Seq<u8>, V>::empty(), entries).contains_key(k) implies exists|i: int|
            0 <= i < entries.len() && #[trigger] entries[i].0 == k by {
            if k == entries[n].0 {
                assert(entries[n].0 == k);
            } else {
                assert(before.contains_key(k));
                let i = choose|i: int| 0 <= i < front.len() && #[trigger] front[i].0 == k;
                assert(entries[i].0 == k);
            }
        }
    }
}

} // verus!
