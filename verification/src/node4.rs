use vstd::prelude::*;

use crate::node::ArtNode;
use crate::node16::Node16;
use crate::sorted::{entry_of, lower_bound, lower_bound_of, scan, slot_of, strictly_sorted};
use crate::sorted::{lemma_insert_entries, lemma_remove_entries, lemma_slot_range, lemma_update_entries};
use crate::Header;

verus! {

/// The smallest inner node: up to four children, held beside their key bytes
/// in ascending order of the bytes.
pub struct Node4<V, const P: usize> {
    pub header: Header<P>,
    pub key: Vec<u8>,
    pub children: Vec<ArtNode<V, P>>,
    pub prefixed_child: ArtNode<V, P>,
}

impl<V, const P: usize> Default for Node4<V, P> {
    /// A node without children and without a path.
    fn default() -> (node: Node4<V, P>)
        ensures
            node.wf(),
            node.header.partial.len == 0,
            node.header.non_null_children == 0,
            node.header.path@ == Seq::<u8>::empty(),
            node.prefixed_child is Empty,
            forall|b: u8| node.child(b) is Empty,
    {
        Node4::new(Ghost(Seq::empty()))
    }
}

impl<V, const P: usize> Node4<V, P> {
    /// The key bytes are strictly increasing, each stands beside a child, and
    /// the header counts them.
    pub open spec fn wf(&self) -> bool {
        &&& self.key@.len() == self.header.non_null_children
        &&& self.children@.len() == self.header.non_null_children
        &&& self.header.non_null_children <= 4
        &&& strictly_sorted(self.key@)
        &&& forall|i: int| 0 <= i < self.children@.len() ==> !(#[trigger] self.children@[i] is Empty)
    }

    /// The child under the key byte `b`; `Empty` where there is none.
    pub open spec fn child(&self, b: u8) -> ArtNode<V, P> {
        match entry_of(self.key@, self.children@, b) {
            Some(c) => c,
            None => ArtNode::Empty,
        }
    }

    /// The child that a key byte, or the end of the key, leads to.
    pub open spec fn child_at(&self, key: (u8, bool)) -> ArtNode<V, P> {
        if key.1 {
            self.child(key.0)
        } else {
            self.prefixed_child
        }
    }

    /// A node without children whose keys all start with `path`.
    pub fn new(Ghost(path): Ghost<Seq<u8>>) -> (node: Self)
        ensures
            node.wf(),
            node.header.partial.len == 0,
            node.header.non_null_children == 0,
            node.header.path@ == path,
            node.prefixed_child is Empty,
            forall|b: u8| node.child(b) is Empty,
    {
        let node = Node4 {
            header: Header::new(Ghost(path)),
            key: Vec::with_capacity(4),
            children: Vec::with_capacity(4),
            prefixed_child: ArtNode::Empty,
        };
        assert forall|b: u8| node.child(b) is Empty by {
            lemma_slot_range(node.key@, b);
        }
        node
    }

    #[inline]
    pub fn is_full(&self) -> (full: bool)
        ensures
            full == (self.header.non_null_children == 4),
    {
        self.header.non_null_children == 4
    }

    /// Whether fewer than two children are left, the prefixed child counted:
    /// such a node gives way to its only child.
    #[inline]
    pub fn is_few(&self) -> (few: bool)
        ensures
            few == (self.header.non_null_children + (if self.prefixed_child is Empty {
                0int
            } else {
                1int
            }) < 2),
    {
        let mut child_num: u32 = self.header.non_null_children as u32;
        if !self.prefixed_child.is_none() {
            child_num += 1;
        }
        child_num < 2
    }

    /// The prefixed child where there is one, else the child under the
    /// smallest key byte.
    pub fn minimum_child(&self) -> (min: Option<&ArtNode<V, P>>)
        requires
            self.wf(),
        ensures
            match min {
                Some(c) => !(c is Empty) && if self.prefixed_child is Empty {
                    exists|b: u8|
                        *c == self.child(b) && forall|x: u8| x < b ==> (#[trigger] self.child(x)) is Empty
                } else {
                    *c == self.prefixed_child
                },
                None => self.prefixed_child is Empty && forall|b: u8| self.child(b) is Empty,
            },
    {
        if !self.prefixed_child.is_none() {
            Some(&self.prefixed_child)
        } else if self.children.len() > 0 {
            proof {
                let b = self.key@[0];
                crate::sorted::lemma_slot_found(self.key@, 0);
                assert(self.children@[0] == self.child(b));
                assert forall|x: u8| x < b implies (#[trigger] self.child(x)) is Empty by {
                    lemma_slot_range(self.key@, x);
                    let s = slot_of(self.key@, x);
                    if s > 0 {
                        assert(self.key@[0] < self.key@[s]);
                    }
                }
            }
            Some(&self.children[0])
        } else {
            proof {
                assert forall|b: u8| self.child(b) is Empty by {
                    lemma_slot_range(self.key@, b);
                }
            }
            None
        }
    }

    /// The position of the child under `key`.
    #[inline]
    pub fn find_child_index(&self, key: u8) -> (found: Option<usize>)
        requires
            self.wf(),
        ensures
            match found {
                Some(i) => i < self.children@.len() && i == slot_of(self.key@, key)
                    && self.children@[i as int] == self.child(key),
                None => self.child(key) is Empty,
            },
    {
        proof {
            lemma_slot_range(self.key@, key);
        }
        scan(self.key.as_slice(), key)
    }

    #[inline]
    pub fn get_child(&self, key: (u8, bool)) -> (found: Option<&ArtNode<V, P>>)
        requires
            self.wf(),
        ensures
            match found {
                Some(c) => *c == self.child_at(key) && !(c is Empty),
                None => self.child_at(key) is Empty,
            },
    {
        if !key.1 {
            if self.prefixed_child.is_none() {
                return None;
            }
            return Some(&self.prefixed_child);
        }
        match self.find_child_index(key.0) {
            Some(i) => Some(&self.children[i]),
            None => None,
        }
    }

    /// A mutable reference to the child that `key` leads to. What the caller
    /// leaves there is the node's child from then on.
    #[inline]
    pub fn get_mut_child(&mut self, key: (u8, bool)) -> (found: Option<&mut ArtNode<V, P>>)
        requires
            old(self).wf(),
        ensures
            match found {
                Some(c) => {
                    &&& *c == old(self).child_at(key)
                    &&& !(*c is Empty)
                    &&& final(self).header == old(self).header
                    &&& final(self).child_at(key) == *final(c)
                    &&& key.1 ==> final(self).prefixed_child == old(self).prefixed_child
                    &&& forall|x: u8|
                        !(key.1 && x == key.0) ==> #[trigger] final(self).child(x) == old(self).child(x)
                    &&& !(*final(c) is Empty) || !key.1 ==> final(self).wf()
                },
                None => old(self).child_at(key) is Empty && *final(self) == *old(self),
            },
    {
        if !key.1 {
            if self.prefixed_child.is_none() {
                return None;
            }
            return Some(&mut self.prefixed_child);
        }
        match self.find_child_index(key.0) {
            Some(i) => {
                proof {
                    assert forall|v: ArtNode<V, P>, x: u8| #[trigger]
                        entry_of(self.key@, self.children@.update(i as int, v), x) == if x
                            == self.key@[i as int] {
                            Some(v)
                        } else {
                            entry_of(self.key@, self.children@, x)
                        } by {
                        lemma_update_entries(self.key@, self.children@, i as int, v);
                    }
                }
                Some(&mut self.children[i])
            },
            None => None,
        }
    }

    /// Adds `new_child` under `valid_key`, where the node has no child yet.
    pub fn insert_child(&mut self, valid_key: (u8, bool), new_child: ArtNode<V, P>)
        requires
            old(self).wf(),
            !(new_child is Empty),
            old(self).child_at(valid_key) is Empty,
            valid_key.1 ==> old(self).header.non_null_children < 4,
        ensures
            final(self).wf(),
            final(self).child_at(valid_key) == new_child,
            final(self).header == if valid_key.1 {
                old(self).header.with_count((old(self).header.non_null_children + 1) as u16)
            } else {
                old(self).header
            },
            valid_key.1 ==> final(self).prefixed_child == old(self).prefixed_child,
            forall|x: u8|
                !(valid_key.1 && x == valid_key.0) ==> #[trigger] final(self).child(x) == old(
                    self,
                ).child(x),
            valid_key.1 ==> final(self).key@ == old(self).key@.insert(
                lower_bound_of(old(self).key@, valid_key.0),
                valid_key.0,
            ) && final(self).children@ == old(self).children@.insert(
                lower_bound_of(old(self).key@, valid_key.0),
                new_child,
            ),
            !valid_key.1 ==> final(self).key@ == old(self).key@ && final(self).children@ == old(
                self,
            ).children@,
    {
        if !valid_key.1 {
            self.prefixed_child = new_child;
            return ;
        }
        let key_byte = valid_key.0;
        let index = lower_bound(self.key.as_slice(), key_byte);
        proof {
            lemma_slot_range(self.key@, key_byte);
            lemma_insert_entries(self.key@, self.children@, key_byte, index as int, new_child);
        }
        self.key.insert(index, key_byte);
        self.children.insert(index, new_child);
        self.header.non_null_children += 1;
    }

    /// Takes out the child that `valid_key` leads to.
    pub fn remove_child(&mut self, valid_key: (u8, bool)) -> (removed: Option<ArtNode<V, P>>)
        requires
            old(self).wf(),
        ensures
            match removed {
                Some(c) => {
                    &&& c == old(self).child_at(valid_key)
                    &&& !(c is Empty)
                    &&& final(self).wf()
                    &&& final(self).child_at(valid_key) is Empty
                    &&& final(self).header == if valid_key.1 {
                        old(self).header.with_count((old(self).header.non_null_children - 1) as u16)
                    } else {
                        old(self).header
                    }
                    &&& valid_key.1 ==> old(self).header.non_null_children > 0
                    &&& valid_key.1 ==> final(self).prefixed_child == old(self).prefixed_child
                    &&& forall|x: u8|
                        !(valid_key.1 && x == valid_key.0) ==> #[trigger] final(self).child(x)
                            == old(self).child(x)
                    &&& valid_key.1 ==> final(self).key@ == old(self).key@.remove(
                        slot_of(old(self).key@, valid_key.0),
                    ) && final(self).children@ == old(self).children@.remove(
                        slot_of(old(self).key@, valid_key.0),
                    )
                    &&& !valid_key.1 ==> final(self).key@ == old(self).key@ && final(self).children@ == old(self).children@
                },
                None => old(self).child_at(valid_key) is Empty && *final(self) == *old(self),
            },
    {
        if !valid_key.1 {
            if self.prefixed_child.is_none() {
                return None;
            }
            return Some(self.prefixed_child.take());
        }
        match self.find_child_index(valid_key.0) {
            Some(idx) => {
                proof {
                    lemma_remove_entries(self.key@, self.children@, idx as int);
                }
                self.key.remove(idx);
                let child = self.children.remove(idx);
                self.header.non_null_children -= 1;
                Some(child)
            },
            None => None,
        }
    }

    /// The same node with room for sixteen children.
    pub fn grow(self) -> (grown: Node16<V, P>)
        requires
            self.wf(),
        ensures
            grown.wf(),
            grown.header == self.header,
            grown.prefixed_child == self.prefixed_child,
            grown.key@ == self.key@,
            grown.children@ == self.children@,
            forall|b: u8| #[trigger] grown.child(b) == self.child(b),
    {
        let mut key = self.key;
        let mut children = self.children;
        key.reserve(12);
        children.reserve(12);
        Node16 { header: self.header, key: key, children: children, prefixed_child: self.prefixed_child }
    }

    /// Gives way to the only child that is left. An inner node that comes up
    /// in this way takes over the path of the node that goes: that path,
    /// then the byte under which it stood, then its own.
    pub fn shrink_to_fit(self) -> (single: ArtNode<V, P>)
        requires
            self.wf(),
            self.header.non_null_children + (if self.prefixed_child is Empty {
                0int
            } else {
                1int
            }) == 1,
            self.header.non_null_children == 1 && self.children@[0].is_inner()
                ==> self.header.partial.len + 1 + self.children@[0].head().partial.len
                <= usize::MAX,
        ensures
            self.header.non_null_children == 0 ==> single == self.prefixed_child,
            self.header.non_null_children == 1 ==> {
                let c = self.children@[0];
                if c.is_inner() {
                    &&& single.same_variant(c)
                    &&& single.head().path == c.head().path
                    &&& single.head().non_null_children == c.head().non_null_children
                    &&& self.header.partial.is_merged(self.key@[0], c.head().partial, single.head().partial)
                    &&& single.prefixed() == c.prefixed()
                    &&& forall|b: u8| #[trigger] single.child(b) == c.child(b)
                    &&& c.node_wf() ==> single.node_wf()
                } else {
                    single == c
                }
            },
    {
        let mut rest = self;
        if rest.header.non_null_children == 0 {
            return rest.prefixed_child;
        }
        let edge = rest.key[0];
        let mut single_child = rest.children.remove(0);
        match single_child {
            ArtNode::Empty => {},
            ArtNode::Leaf(_) => {},
            _ => {
                let merged = rest.header.partial.merge(edge, &single_child.header().partial);
                let header = single_child.header_mut();
                header.partial = merged;
            },
        }
        single_child
    }
}

} // verus!
