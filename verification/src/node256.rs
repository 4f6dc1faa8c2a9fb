use vstd::prelude::*;

use crate::counting::{count_true, lemma_count_all, lemma_count_bound, lemma_count_update, lemma_count_zero};
use crate::node::{empty_slots, ArtNode};
use crate::node48::{occupied, Node48};
use crate::Header;

verus! {

/// The largest inner node: one slot for each of the 256 key bytes.
pub struct Node256<V, const P: usize> {
    pub header: Header<P>,
    pub children: Vec<ArtNode<V, P>>,
    pub prefixed_child: ArtNode<V, P>,
}

impl<V, const P: usize> Default for Node256<V, P> {
    /// A node without children and without a path.
    fn default() -> (node: Node256<V, P>)
        ensures
            node.wf(),
            node.header.partial.len == 0,
            node.header.non_null_children == 0,
            node.header.path@ == Seq::<u8>::empty(),
            node.prefixed_child is Empty,
            forall|b: u8| node.child(b) is Empty,
    {
        Node256::new(Ghost(Seq::empty()))
    }
}

impl<V, const P: usize> Node256<V, P> {
    /// There are 256 slots and the header counts those that are filled.
    pub open spec fn wf(&self) -> bool {
        &&& self.children@.len() == 256
        &&& count_true(occupied(self.children@)) == self.header.non_null_children
    }

    /// The child under the key byte `b`; `Empty` where there is none.
    pub open spec fn child(&self, b: u8) -> ArtNode<V, P> {
        if (b as int) < self.children@.len() {
            self.children@[b as int]
        } else {
            ArtNode::Empty
        }
    }

    /// The child that a key byte, or the end of the key, leads to.
    pub open spec fn child_at(&self, key: (u8, bool)) -> ArtNode<V, P> {
        if key.1 {
            self.child(key.0)
        } else {
            self.prefixed_child
        }
    }

    /// A node without children whose keys all start with `path`.
    pub fn new(Ghost(path): Ghost<Seq<u8>>) -> (node: Self)
        ensures
            node.wf(),
            node.header.partial.len == 0,
            node.header.non_null_children == 0,
            node.header.path@ == path,
            node.prefixed_child is Empty,
            forall|b: u8| node.child(b) is Empty,
    {
        let node = Node256 {
            header: Header::new(Ghost(path)),
            children: empty_slots(256),
            prefixed_child: ArtNode::Empty,
        };
        proof {
            lemma_count_zero(occupied(node.children@));
        }
        node
    }

    #[inline]
    pub fn is_full(&self) -> (full: bool)
        ensures
            full == (self.header.non_null_children == 256),
    {
        self.header.non_null_children == 256
    }

    /// Whether the children would fit a `Node48`.
    #[inline]
    pub fn is_few(&self) -> (few: bool)
        ensures
            few == (self.header.non_null_children < 49),
    {
        self.header.non_null_children < 49
    }

    /// The prefixed child where there is one, else the child under the
    /// smallest key byte.
    pub fn minimum_child(&self) -> (min: Option<&ArtNode<V, P>>)
        requires
            self.wf(),
        ensures
            match min {
                Some(c) => !(c is Empty) && if self.prefixed_child is Empty {
                    exists|b: u8|
                        *c == self.child(b) && forall|x: u8| x < b ==> (#[trigger] self.child(x)) is Empty
                } else {
                    *c == self.prefixed_child
                },
                None => self.prefixed_child is Empty && forall|b: u8| self.child(b) is Empty,
            },
    {
        if !self.prefixed_child.is_none() {
            return Some(&self.prefixed_child);
        }
        let mut i: usize = 0;
        while i < 256
            invariant
                self.wf(),
                self.prefixed_child is Empty,
                i <= 256,
                forall|x: u8| x < i ==> (#[trigger] self.child(x)) is Empty,
            decreases 256 - i,
        {
            if !self.children[i].is_none() {
                proof {
                    let b = i as u8;
                    assert(self.children@[i as int] == self.child(b));
                    assert forall|x: u8| x < b implies (#[trigger] self.child(x)) is Empty by {}
                }
                return Some(&self.children[i]);
            }
            i += 1;
        }
        None
    }

    #[inline]
    pub fn get_child(&self, key: (u8, bool)) -> (found: Option<&ArtNode<V, P>>)
        requires
            self.wf(),
        ensures
            match found {
                Some(c) => *c == self.child_at(key) && !(c is Empty),
                None => self.child_at(key) is Empty,
            },
    {
        if !key.1 {
            if self.prefixed_child.is_none() {
                return None;
            }
            return Some(&self.prefixed_child);
        }
        if self.children[key.0 as usize].is_none() {
            return None;
        }
        Some(&self.children[key.0 as usize])
    }

    /// A mutable reference to the child that `key` leads to. What the caller
    /// leaves there is the node's child from then on.
    #[inline]
    pub fn get_mut_child(&mut self, key: (u8, bool)) -> (found: Option<&mut ArtNode<V, P>>)
        requires
            old(self).wf(),
        ensures
            match found {
                Some(c) => {
                    &&& *c == old(self).child_at(key)
                    &&& !(*c is Empty)
                    &&& final(self).header == old(self).header
                    &&& final(self).child_at(key) == *final(c)
                    &&& key.1 ==> final(self).prefixed_child == old(self).prefixed_child
                    &&& forall|x: u8|
                        !(key.1 && x == key.0) ==> #[trigger] final(self).child(x) == old(self).child(x)
                    &&& !(*final(c) is Empty) || !key.1 ==> final(self).wf()
                },
                None => old(self).child_at(key) is Empty && *final(self) == *old(self),
            },
    {
        if !key.1 {
            if self.prefixed_child.is_none() {
                return None;
            }
            return Some(&mut self.prefixed_child);
        }
        let i = key.0 as usize;
        if self.children[i].is_none() {
            return None;
        }
        proof {
            assert forall|v: ArtNode<V, P>| !(v is Empty) implies #[trigger] occupied(
                self.children@.update(i as int, v),
            ) == occupied(self.children@) by {
                assert(occupied(self.children@.update(i as int, v)) =~= occupied(self.children@));
            }
        }
        Some(&mut self.children[i])
    }

    /// Adds `new_child` under `key`, where the node has no child yet.
    pub fn insert_child(&mut self, key: (u8, bool), new_child: ArtNode<V, P>)
        requires
            old(self).wf(),
            !(new_child is Empty),
            old(self).child_at(key) is Empty,
        ensures
            final(self).wf(),
            final(self).child_at(key) == new_child,
            final(self).header == if key.1 {
                old(self).header.with_count((old(self).header.non_null_children + 1) as u16)
            } else {
                old(self).header
            },
            key.1 ==> old(self).header.non_null_children < 256,
            key.1 ==> final(self).prefixed_child == old(self).prefixed_child,
            forall|x: u8|
                !(key.1 && x == key.0) ==> #[trigger] final(self).child(x) == old(self).child(x),
            final(self).children@ == if key.1 {
                old(self).children@.update(key.0 as int, new_child)
            } else {
                old(self).children@
            },
    {
        if !key.1 {
            self.prefixed_child = new_child;
            return ;
        }
        let i = key.0 as usize;
        proof {
            lemma_count_bound(occupied(self.children@));
            if self.header.non_null_children == 256 {
                crate::counting::lemma_count_full(occupied(self.children@));
                assert(occupied(self.children@)[i as int]);
            }
            lemma_count_update(occupied(self.children@), i as int, true);
            assert(occupied(self.children@.update(i as int, new_child)) =~= occupied(
                self.children@,
            ).update(i as int, true));
        }
        let mut child = new_child;
        std::mem::swap(&mut self.children[i], &mut child);
        self.header.non_null_children += 1;
    }

    /// Takes out the child that `valid_key` leads to.
    pub fn remove_child(&mut self, valid_key: (u8, bool)) -> (removed: Option<ArtNode<V, P>>)
        requires
            old(self).wf(),
        ensures
            match removed {
                Some(c) => {
                    &&& c == old(self).child_at(valid_key)
                    &&& !(c is Empty)
                    &&& final(self).wf()
                    &&& final(self).child_at(valid_key) is Empty
                    &&& final(self).header == if valid_key.1 {
                        old(self).header.with_count((old(self).header.non_null_children - 1) as u16)
                    } else {
                        old(self).header
                    }
                    &&& valid_key.1 ==> old(self).header.non_null_children > 0
                    &&& valid_key.1 ==> final(self).prefixed_child == old(self).prefixed_child
                    &&& forall|x: u8|
                        !(valid_key.1 && x == valid_key.0) ==> #[trigger] final(self).child(x)
                            == old(self).child(x)
                    &&& final(self).children@ == if valid_key.1 {
                        old(self).children@.update(valid_key.0 as int, ArtNode::Empty)
                    } else {
                        old(self).children@
                    }
                },
                None => old(self).child_at(valid_key) is Empty && *final(self) == *old(self),
            },
    {
        if !valid_key.1 {
            if self.prefixed_child.is_none() {
                return None;
            }
            return Some(self.prefixed_child.take());
        }
        let i = valid_key.0 as usize;
        if self.children[i].is_none() {
            return None;
        }
        proof {
            lemma_count_update(occupied(self.children@), i as int, false);
            assert(occupied(self.children@.update(i as int, ArtNode::Empty)) =~= occupied(
                self.children@,
            ).update(i as int, false));
        }
        let removed = self.children[i].take();
        self.header.non_null_children -= 1;
        Some(removed)
    }

    /// The same node as a `Node48`, where the children fit one: the filled
    /// slots are gathered and the index records where each went.
    pub fn shrink_to_fit(self) -> (shrunk: Node48<V, P>)
        requires
            self.wf(),
            self.header.non_null_children <= 48,
        ensures
            shrunk.wf(),
            shrunk.header == self.header,
            shrunk.prefixed_child == self.prefixed_child,
            forall|b: u8| #[trigger] shrunk.child(b) == self.child(b),
            shrunk.dense(),
            shrunk.ordered(),
    {
        let mut rest = self;
        let mut shrunk: Node48<V, P> = Node48::new(Ghost(rest.header.path@));
        let ghost fresh = shrunk;
        shrunk.header.partial = rest.header.partial;
        std::mem::swap(&mut rest.prefixed_child, &mut shrunk.prefixed_child);
        proof {
            assert forall|b: u8| (#[trigger] shrunk.child(b)) is Empty && rest.child(b)
                == self.child(b) by {
                assert(fresh.child(b) is Empty);
            }
        }
        let mut i: usize = 0;
        while i < 256
            invariant
                i <= 256,
                self.wf(),
                rest.wf(),
                shrunk.wf(),
                self.header.non_null_children <= 48,
                shrunk.header.partial == self.header.partial,
                shrunk.header.path == self.header.path,
                shrunk.header.non_null_children + rest.header.non_null_children
                    == self.header.non_null_children,
                shrunk.prefixed_child == self.prefixed_child,
                shrunk.dense(),
                shrunk.ordered(),
                forall|b: int|
                    i <= b < 256 ==> #[trigger] shrunk.child_index@[b] == crate::node48::EMPTY_INDEX,
                forall|b: u8| b < i ==> (#[trigger] rest.child(b)) is Empty,
                forall|b: u8| #[trigger]
                    shrunk.child(b) == (if rest.child(b) is Empty {
                        self.child(b)
                    } else {
                        ArtNode::Empty
                    }),
                forall|b: u8| !(#[trigger] rest.child(b) is Empty) ==> rest.child(b) == self.child(b),
            decreases 256 - i,
        {
            let key_byte = i as u8;
            let ghost gathered = shrunk;
            match rest.remove_child((key_byte, true)) {
                Some(child) => {
                    shrunk.insert_child((key_byte, true), child);
                    proof {
                        assert forall|a: int, b: int|
                            0 <= a < b < 256 && #[trigger] shrunk.child_index@[a]
                                != crate::node48::EMPTY_INDEX && #[trigger] shrunk.child_index@[b]
                                != crate::node48::EMPTY_INDEX implies shrunk.child_index@[a]
                            < shrunk.child_index@[b] by {
                            if b == i {
                                assert(gathered.child_index@[a] != crate::node48::EMPTY_INDEX);
                                assert(!(gathered.children@[gathered.child_index@[a] as int] is Empty));
                            } else {
                                assert(b < i);
                                assert(gathered.child_index@[a] == shrunk.child_index@[a]);
                                assert(gathered.child_index@[b] == shrunk.child_index@[b]);
                            }
                        }
                    }
                },
                None => {},
            }
            i += 1;
        }
        proof {
            lemma_count_zero(occupied(rest.children@));
            assert forall|b: int| 0 <= b < 256 implies !occupied(rest.children@)[b] by {
                assert(rest.child(b as u8) is Empty);
            }
        }
        shrunk
    }
}

} // verus!
