use std::marker::PhantomData;
use vstd::prelude::*;

use crate::key::ArtKey;
use crate::node::ArtNode;

verus! {

/// The value that `m` holds for `k`, if any.
pub open spec fn value_of<V>(m: Map<Seq<u8>, V>, k: Seq<u8>) -> Option<V> {
    if m.contains_key(k) {
        Some(m[k])
    } else {
        None
    }
}

/// An adaptive radix tree: a map from keys to values that finds a key in
/// time proportional to the key's length.
///
/// `K` gives the keys their bytes (see [`ArtKey`]); the tree tells keys apart
/// by their bytes alone. `P` is the number of bytes of a compressed path that
/// an inner node stores.
///
/// Inner nodes come in four sizes. A `Node4` and a `Node16` keep their
/// children beside the sorted key bytes, a `Node48` keeps an index from key
/// byte to one of 48 slots, and a `Node256` has a slot for every key byte.
pub struct Art<K: ArtKey, V, const P: usize> {
    size: usize,
    root: ArtNode<V, P>,
    key_type: PhantomData<K>,
}

impl<K: ArtKey, V, const P: usize> View for Art<K, V, P> {
    type V = Map<Seq<u8>, V>;

    /// The entries of the tree: for the bytes of each stored key, its value.
    closed spec fn view(&self) -> Map<Seq<u8>, V> {
        Self::entries(self.root)
    }
}

impl<K: ArtKey, V, const P: usize> Art<K, V, P> {
    /// The invariants of the tree hold from the root down, and `size` counts
    /// the entries.
    pub closed spec fn wf(&self) -> bool {
        &&& self.root.wf(0)
        &&& self@.dom().finite()
        &&& self.size == self@.dom().len()
    }

    /// Whether the tree holds no node at all.
    pub closed spec fn is_bare(&self) -> bool {
        self.root is Empty
    }

    /// Whether a leaf of the tree holds the key bytes `key` with the value
    /// `val`.
    pub closed spec fn has_leaf(&self, key: Seq<u8>, val: V) -> bool {
        self.root.stores(key, val)
    }

    /// The view of a well-formed tree is what its leaves hold: a key has a
    /// value in the view where some leaf holds the two, and nowhere else.
    pub proof fn lemma_view_is_leaves(&self, key: Seq<u8>, val: V)
        requires
            self.wf(),
        ensures
            self.has_leaf(key, val) <==> value_of(self@, key) == Some(val),
    {
        self.root.lemma_lookup_finds_leaves(key, val, 0, true);
    }

    /// A well-formed tree holds finitely many entries.
    pub proof fn lemma_finite(&self)
        requires
            self.wf(),
        ensures
            self@.dom().finite(),
    {
    }

    /// A well-formed tree without entries holds no node: the last removal
    /// leaves nothing behind. A tree that holds no node has no entry.
    pub proof fn lemma_empty_is_bare(&self)
        requires
            self.wf(),
        ensures
            self.is_bare() <==> self@.dom().len() == 0,
    {
        if self.is_bare() {
            assert(self@.dom() =~= Set::<Seq<u8>>::empty());
        } else {
            if self.root.is_inner() {
                self.root.lemma_at_rest_total(0);
            }
            self.root.lemma_min_leaf_found(0, true);
            let k = self.root.min_leaf()->0.key@;
            assert(self@.dom().contains(k));
            if self@.dom().len() == 0 {
                assert(self@.dom() =~= Set::<Seq<u8>>::empty());
            }
        }
    }

    /// An empty tree.
    pub fn new() -> (art: Art<K, V, P>)
        ensures
            art.wf(),
            art@ == Map::<Seq<u8>, V>::empty(),
            art.is_bare(),
    {
        let art = Art { size: 0, root: ArtNode::none(), key_type: PhantomData };
        assert(art@ =~= Map::<Seq<u8>, V>::empty());
        art
    }

    /// The value stored for `key`.
    pub fn get(&self, key: &K) -> (found: Option<&V>)
        requires
            self.wf(),
        ensures
            match found {
                Some(v) => value_of(self@, key.key_bytes()) == Some(*v),
                None => value_of(self@, key.key_bytes()) is None,
            },
    {
        let bytes = key.get_bytes();
        ArtNode::get(&self.root, bytes.as_slice(), 0)
    }

    /// The key that was asked for and the value stored for it.
    pub fn get_key_value<'a>(&'a self, key: &'a K) -> (found: Option<(&'a K, &'a V)>)
        requires
            self.wf(),
        ensures
            match found {
                Some(entry) => *entry.0 == *key && value_of(self@, key.key_bytes()) == Some(*entry.1),
                None => value_of(self@, key.key_bytes()) is None,
            },
    {
        let bytes = key.get_bytes();
        match ArtNode::get(&self.root, bytes.as_slice(), 0) {
            Some(val) => Some((key, val)),
            None => None,
        }
    }

    /// A mutable reference to the value stored for `key`. What the caller
    /// leaves there is the key's value from then on.
    pub fn get_mut(&mut self, key: &K) -> (found: Option<&mut V>)
        requires
            old(self).wf(),
        ensures
            final(self).wf(),
            match found {
                Some(v) => value_of(old(self)@, key.key_bytes()) == Some(*v) && final(self)@ == old(
                    self,
                )@.insert(key.key_bytes(), *final(v)),
                None => value_of(old(self)@, key.key_bytes()) is None && final(self)@ == old(self)@,
            },
    {
        let bytes = key.get_bytes();
        proof {
            let before = *self;
            assert forall|root: ArtNode<V, P>, v: V|
                #![trigger Self::entries(root), before@.insert(bytes@, v)]
                (forall|k: Seq<u8>| #[trigger]
                    root.lookup(k, 0) == if k == bytes@ {
                        Some(v)
                    } else {
                        before.root.lookup(k, 0)
                    }) && before.root.lookup(bytes@, 0) is Some implies Self::entries(root)
                == before@.insert(bytes@, v) && Self::entries(root).dom() == before@.dom() by {
                assert(Self::entries(root) =~= before@.insert(bytes@, v));
                assert(Self::entries(root).dom() =~= before@.dom());
            }
            assert forall|root: ArtNode<V, P>|
                (forall|k: Seq<u8>| #[trigger] root.lookup(k, 0) == before.root.lookup(k, 0)) implies #[trigger] Self::entries(
                root,
            ) == before@ by {
                assert(Self::entries(root) =~= before@);
            }
            assert forall|root: ArtNode<V, P>|
                (forall|k: Seq<u8>| #[trigger]
                    root.lookup(k, 0) is Some <==> before.root.lookup(k, 0) is Some) implies #[trigger] Self::entries(
                root,
            ).dom() == before@.dom() by {
                assert(Self::entries(root).dom() =~= before@.dom());
            }
        }
        ArtNode::get_mut(&mut self.root, bytes.as_slice(), 0)
    }

    /// The entries that a tree with the root `root` holds.
    pub closed spec fn entries(root: ArtNode<V, P>) -> Map<Seq<u8>, V> {
        Map::new(|k: Seq<u8>| root.lookup(k, 0) is Some, |k: Seq<u8>| root.lookup(k, 0)->0)
    }

    /// Stores `val` for `key` and returns the value that the key had before.
    /// The number of entries grows by one where the key is new.
    pub fn insert(&mut self, key: K, val: V) -> (previous: Option<V>)
        requires
            old(self).wf(),
            old(self)@.dom().len() < usize::MAX,
        ensures
            final(self).wf(),
            final(self)@ == old(self)@.insert(key.key_bytes(), val),
            previous == value_of(old(self)@, key.key_bytes()),
    {
        let bytes = key.get_bytes();
        let ghost before = *self;
        let previous = ArtNode::insert(&mut self.root, bytes, val, 0);
        proof {
            assert(self@ =~= before@.insert(key.key_bytes(), val));
        }
        if previous.is_none() {
            self.size += 1;
        }
        proof {
            assert(self@ =~= before@.insert(key.key_bytes(), val));
        }
        previous
    }

    /// Takes the entry of `key` out of the tree and returns its value. The
    /// number of entries falls by one where the key was stored.
    pub fn remove(&mut self, key: &K) -> (removed: Option<V>)
        requires
            old(self).wf(),
        ensures
            final(self).wf(),
            final(self)@ == old(self)@.remove(key.key_bytes()),
            removed == value_of(old(self)@, key.key_bytes()),
    {
        let bytes = key.get_bytes();
        let ghost before = *self;
        let removed = ArtNode::remove(&mut self.root, bytes.as_slice(), 0);
        proof {
            assert(self@ =~= before@.remove(key.key_bytes()));
        }
        if removed.is_some() {
            self.size -= 1;
        }
        proof {
            assert(self@ =~= before@.remove(key.key_bytes()));
        }
        removed
    }

    /// Whether the tree holds no entry, and so no node.
    pub fn is_empty(&self) -> (empty: bool)
        requires
            self.wf(),
        ensures
            empty == self.is_bare(),
            empty == (self@.dom().len() == 0),
    {
        proof {
            self.lemma_empty_is_bare();
        }
        self.root.is_none()
    }

    /// Number of entries.
    pub fn size(&self) -> (n: usize)
        requires
            self.wf(),
        ensures
            n == self@.dom().len(),
    {
        self.size
    }
}

} // verus!
