use vstd::prelude::*;

use crate::node::ArtNode;
use crate::node4::Node4;
use crate::node48::Node48;
use crate::sorted::{entry_of, is_lower_bound, lower_bound, lower_bound_of, search, slot_of};
use crate::sorted::strictly_sorted;
use crate::sorted::lemma_slot_found;
use crate::sorted::{lemma_insert_entries, lemma_remove_entries, lemma_slot_range, lemma_update_entries};
use crate::Header;

verus! {

/// An inner node with up to sixteen children, held beside their key bytes in
/// ascending order of the bytes.
pub struct Node16<V, const P: usize> {
    pub header: Header<P>,
    pub key: Vec<u8>,
    pub children: Vec<ArtNode<V, P>>,
    pub prefixed_child: ArtNode<V, P>,
}

impl<V, const P: usize> Default for Node16<V, P> {
    /// A node without children and without a path.
    fn default() -> (node: Node16<V, P>)
        ensures
            node.wf(),
            node.header.partial.len == 0,
            node.header.non_null_children == 0,
            node.header.path@ == Seq::<u8>::empty(),
            node.prefixed_child is Empty,
            forall|b: u8| node.child(b) is Empty,
    {
        Node16::new(Ghost(Seq::empty()))
    }
}

impl<V, const P: usize> Node16<V, P> {
    /// The key bytes are strictly increasing, each stands beside a child, and
    /// the header counts them.
    pub open spec fn wf(&self) -> bool {
        &&& self.key@.len() == self.header.non_null_children
        &&& self.children@.len() == self.header.non_null_children
        &&& self.header.non_null_children <= 16
        &&& strictly_sorted(self.key@)
        &&& forall|i: int| 0 <= i < self.children@.len() ==> !(#[trigger] self.children@[i] is Empty)
    }

    /// The child under the key byte `b`; `Empty` where there is none.
    pub open spec fn child(&self, b: u8) -> ArtNode<V, P> {
        match entry_of(self.key@, self.children@, b) {
            Some(c) => c,
            None => ArtNode::Empty,
        }
    }

    /// The child that a key byte, or the end of the key, leads to.
    pub open spec fn child_at(&self, key: (u8, bool)) -> ArtNode<V, P> {
        if key.1 {
            self.child(key.0)
        } else {
            self.prefixed_child
        }
    }

    /// A node without children whose keys all start with `path`.
    pub fn new(Ghost(path): Ghost<Seq<u8>>) -> (node: Self)
        ensures
            node.wf(),
            node.header.partial.len == 0,
            node.header.non_null_children == 0,
            node.header.path@ == path,
            node.prefixed_child is Empty,
            forall|b: u8| node.child(b) is Empty,
    {
        let node = Node16 {
            header: Header::new(Ghost(path)),
            key: Vec::with_capacity(16),
            children: Vec::with_capacity(16),
            prefixed_child: ArtNode::Empty,
        };
        assert forall|b: u8| node.child(b) is Empty by {
            lemma_slot_range(node.key@, b);
        }
        node
    }

    #[inline]
    pub fn is_full(&self) -> (full: bool)
        ensures
            full == (self.header.non_null_children == 16),
    {
        self.header.non_null_children == 16
    }

    /// Whether the children would fit a `Node4`.
    #[inline]
    pub fn is_few(&self) -> (few: bool)
        ensures
            few == (self.header.non_null_children < 5),
    {
        self.header.non_null_children < 5
    }

    /// The prefixed child where there is one, else the child under the
    /// smallest key byte.
    pub fn minimum_child(&self) -> (min: Option<&ArtNode<V, P>>)
        requires
            self.wf(),
        ensures
            match min {
                Some(c) => !(c is Empty) && if self.prefixed_child is Empty {
                    exists|b: u8|
                        *c == self.child(b) && forall|x: u8| x < b ==> (#[trigger] self.child(x)) is Empty
                } else {
                    *c == self.prefixed_child
                },
                None => self.prefixed_child is Empty && forall|b: u8| self.child(b) is Empty,
            },
    {
        if !self.prefixed_child.is_none() {
            Some(&self.prefixed_child)
        } else if self.children.len() > 0 {
            proof {
                let b = self.key@[0];
                lemma_slot_found(self.key@, 0);
                assert(self.children@[0] == self.child(b));
                assert forall|x: u8| x < b implies (#[trigger] self.child(x)) is Empty by {
                    lemma_slot_range(self.key@, x);
                    let s = slot_of(self.key@, x);
                    if s > 0 {
                        assert(self.key@[0] < self.key@[s]);
                    }
                }
            }
            Some(&self.children[0])
        } else {
            proof {
                assert forall|b: u8| self.child(b) is Empty by {
                    lemma_slot_range(self.key@, b);
                }
            }
            None
        }
    }

    /// The position of the child under `key`.
    #[inline]
    pub fn find_child_index(&self, key: u8) -> (found: Option<usize>)
        requires
            self.wf(),
        ensures
            match found {
                Some(i) => i < self.children@.len() && i == slot_of(self.key@, key)
                    && self.children@[i as int] == self.child(key),
                None => self.child(key) is Empty,
            },
    {
        proof {
            lemma_slot_range(self.key@, key);
        }
        search(self.key.as_slice(), key)
    }

    #[inline]
    pub fn get_child(&self, key: (u8, bool)) -> (found: Option<&ArtNode<V, P>>)
        requires
            self.wf(),
        ensures
            match found {
                Some(c) => *c == self.child_at(key) && !(c is Empty),
                None => self.child_at(key) is Empty,
            },
    {
        if !key.1 {
            if self.prefixed_child.is_none() {
                return None;
            }
            return Some(&self.prefixed_child);
        }
        match self.find_child_index(key.0) {
            Some(i) => Some(&self.children[i]),
            None => None,
        }
    }

    /// A mutable reference to the child that `key` leads to. What the caller
    /// leaves there is the node's child from then on.
    #[inline]
    pub fn get_mut_child(&mut self, key: (u8, bool)) -> (found: Option<&mut ArtNode<V, P>>)
        requires
            old(self).wf(),
        ensures
            match found {
                Some(c) => {
                    &&& *c == old(self).child_at(key)
                    &&& !(*c is Empty)
                    &&& final(self).header == old(self).header
                    &&& final(self).child_at(key) == *final(c)
                    &&& key.1 ==> final(self).prefixed_child == old(self).prefixed_child
                    &&& forall|x: u8|
                        !(key.1 && x == key.0) ==> #[trigger] final(self).child(x) == old(self).child(x)
                    &&& !(*final(c) is Empty) || !key.1 ==> final(self).wf()
                },
                None => old(self).child_at(key) is Empty && *final(self) == *old(self),
            },
    {
        if !key.1 {
            if self.prefixed_child.is_none() {
                return None;
            }
            return Some(&mut self.prefixed_child);
        }
        match self.find_child_index(key.0) {
            Some(i) => {
                proof {
                    assert forall|v: ArtNode<V, P>, x: u8| #[trigger]
                        entry_of(self.key@, self.children@.update(i as int, v), x) == if x
                            == self.key@[i as int] {
                            Some(v)
                        } else {
                            entry_of(self.key@, self.children@, x)
                        } by {
                        lemma_update_entries(self.key@, self.children@, i as int, v);
                    }
                }
                Some(&mut self.children[i])
            },
            None => None,
        }
    }

    /// The position at which `key` keeps the key bytes in order: that of the
    /// first byte that is not smaller.
    pub fn find_less_than_index(&self, key: u8) -> (index: usize)
        requires
            self.wf(),
        ensures
            is_lower_bound(self.key@, key, index as int),
    {
        lower_bound(self.key.as_slice(), key)
    }

    /// Adds `new_child` under `valid_key`, where the node has no child yet.
    pub fn insert_child(&mut self, valid_key: (u8, bool), new_child: ArtNode<V, P>)
        requires
            old(self).wf(),
            !(new_child is Empty),
            old(self).child_at(valid_key) is Empty,
            valid_key.1 ==> old(self).header.non_null_children < 16,
        ensures
            final(self).wf(),
            final(self).child_at(valid_key) == new_child,
            final(self).header == if valid_key.1 {
                old(self).header.with_count((old(self).header.non_null_children + 1) as u16)
            } else {
                old(self).header
            },
            valid_key.1 ==> final(self).prefixed_child == old(self).prefixed_child,
            forall|x: u8|
                !(valid_key.1 && x == valid_key.0) ==> #[trigger] final(self).child(x) == old(
                    self,
                ).child(x),
            valid_key.1 ==> final(self).key@ == old(self).key@.insert(
                lower_bound_of(old(self).key@, valid_key.0),
                valid_key.0,
            ) && final(self).children@ == old(self).children@.insert(
                lower_bound_of(old(self).key@, valid_key.0),
                new_child,
            ),
            !valid_key.1 ==> final(self).key@ == old(self).key@ && final(self).children@ == old(
                self,
            ).children@,
    {
        if !valid_key.1 {
            self.prefixed_child = new_child;
            return ;
        }
        let key_byte = valid_key.0;
        let index = self.find_less_than_index(key_byte);
        proof {
            lemma_slot_range(self.key@, key_byte);
            lemma_insert_entries(self.key@, self.children@, key_byte, index as int, new_child);
        }
        self.key.insert(index, key_byte);
        self.children.insert(index, new_child);
        self.header.non_null_children += 1;
    }

    /// Takes out the child that `valid_key` leads to.
    pub fn remove_child(&mut self, valid_key: (u8, bool)) -> (removed: Option<ArtNode<V, P>>)
        requires
            old(self).wf(),
        ensures
            match removed {
                Some(c) => {
                    &&& c == old(self).child_at(valid_key)
                    &&& !(c is Empty)
                    &&& final(self).wf()
                    &&& final(self).child_at(valid_key) is Empty
                    &&& final(self).header == if valid_key.1 {
                        old(self).header.with_count((old(self).header.non_null_children - 1) as u16)
                    } else {
                        old(self).header
                    }
                    &&& valid_key.1 ==> old(self).header.non_null_children > 0
                    &&& valid_key.1 ==> final(self).prefixed_child == old(self).prefixed_child
                    &&& forall|x: u8|
                        !(valid_key.1 && x == valid_key.0) ==> #[trigger] final(self).child(x)
                            == old(self).child(x)
                    &&& valid_key.1 ==> final(self).key@ == old(self).key@.remove(
                        slot_of(old(self).key@, valid_key.0),
                    ) && final(self).children@ == old(self).children@.remove(
                        slot_of(old(self).key@, valid_key.0),
                    )
                    &&& !valid_key.1 ==> final(self).key@ == old(self).key@ && final(self).children@ == old(self).children@
                },
                None => old(self).child_at(valid_key) is Empty && *final(self) == *old(self),
            },
    {
        if !valid_key.1 {
            if self.prefixed_child.is_none() {
                return None;
            }
            return Some(self.prefixed_child.take());
        }
        match self.find_child_index(valid_key.0) {
            Some(idx) => {
                proof {
                    lemma_remove_entries(self.key@, self.children@, idx as int);
                }
                self.key.remove(idx);
                let child = self.children.remove(idx);
                self.header.non_null_children -= 1;
                Some(child)
            },
            None => None,
        }
    }

    /// The same node as a `Node48`: the children take the first slots in the
    /// order of their key bytes, and the index leads each key byte to its
    /// child's slot.
    pub fn grow(self) -> (grown: Node48<V, P>)
        requires
            self.wf(),
        ensures
            grown.wf(),
            grown.header == self.header,
            grown.prefixed_child == self.prefixed_child,
            forall|b: u8| #[trigger] grown.child(b) == self.child(b),
            grown.dense(),
            forall|i: int|
                0 <= i < self.key@.len() ==> grown.child_index@[#[trigger] self.key@[i] as int] == i,
    {
        let mut rest = self;
        let mut grown: Node48<V, P> = Node48::new(Ghost(rest.header.path@));
        let ghost fresh = grown;
        grown.header.partial = rest.header.partial;
        std::mem::swap(&mut rest.prefixed_child, &mut grown.prefixed_child);
        proof {
            assert forall|b: u8| (#[trigger] grown.child(b)) is Empty && rest.child(b)
                == self.child(b) by {
                assert(fresh.child(b) is Empty);
            }
            assert(rest.key@ =~= self.key@.skip(0));
        }
        while rest.key.len() > 0
            invariant
                self.wf(),
                rest.wf(),
                grown.wf(),
                grown.dense(),
                grown.header.partial == self.header.partial,
                grown.header.path == self.header.path,
                grown.header.non_null_children + rest.header.non_null_children
                    == self.header.non_null_children,
                grown.prefixed_child == self.prefixed_child,
                rest.key@ == self.key@.skip(grown.header.non_null_children as int),
                forall|i: int|
                    0 <= i < grown.header.non_null_children ==> grown.child_index@[#[trigger] self.key@[i] as int]
                        == i,
                forall|b: u8| #[trigger]
                    grown.child(b) == (if rest.child(b) is Empty {
                        self.child(b)
                    } else {
                        ArtNode::Empty
                    }),
                forall|b: u8| !(#[trigger] rest.child(b) is Empty) ==> rest.child(b) == self.child(b),
            decreases rest.key.len(),
        {
            let key_byte = rest.key[0];
            let ghost moved = grown.header.non_null_children as int;
            let ghost index_before = grown.child_index@;
            proof {
                lemma_slot_found(rest.key@, 0);
                assert(key_byte == self.key@[moved]);
            }
            match rest.remove_child((key_byte, true)) {
                Some(child) => {
                    grown.insert_child((key_byte, true), child);
                },
                None => {},
            }
            proof {
                assert(rest.key@ =~= self.key@.skip(moved + 1));
                assert forall|i: int| 0 <= i < moved + 1 implies grown.child_index@[#[trigger] self.key@[i] as int]
                    == i by {
                    if i < moved {
                        assert(self.key@[i] < self.key@[moved]);
                        assert(index_before[self.key@[i] as int] == i);
                    }
                }
            }
        }
        proof {
            assert forall|b: u8| rest.child(b) is Empty by {
                lemma_slot_range(rest.key@, b);
            }
        }
        grown
    }

    /// The same node as a `Node4`, where the children fit one.
    pub fn shrink_to_fit(self) -> (shrunk: Node4<V, P>)
        requires
            self.wf(),
            self.header.non_null_children <= 4,
        ensures
            shrunk.wf(),
            shrunk.header == self.header,
            shrunk.prefixed_child == self.prefixed_child,
            shrunk.key@ == self.key@,
            shrunk.children@ == self.children@,
            forall|b: u8| #[trigger] shrunk.child(b) == self.child(b),
    {
        Node4 {
            header: self.header,
            key: self.key,
            children: self.children,
            prefixed_child: self.prefixed_child,
        }
    }
}

} // verus!
