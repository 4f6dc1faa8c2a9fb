use vstd::prelude::*;

use crate::counting::{count_true, lemma_count_all, lemma_count_update, lemma_count_zero};
use crate::node::{empty_slots, ArtNode};
use crate::node16::Node16;
use crate::node256::Node256;
use crate::Header;

verus! {

/// The value of `child_index` that marks a key byte without a child.
pub const EMPTY_INDEX: u8 = 48;

/// For each slot, whether it holds a child.
pub open spec fn occupied<V, const P: usize>(children: Seq<ArtNode<V, P>>) -> Seq<bool> {
    Seq::new(children.len(), |i: int| !(children[i] is Empty))
}

/// For each key byte, whether the index gives it a slot.
pub open spec fn mapped(index: Seq<u8>) -> Seq<bool> {
    Seq::new(index.len(), |i: int| index[i] != EMPTY_INDEX)
}

/// The first slot that holds nothing.
pub open spec fn first_empty<V, const P: usize>(children: Seq<ArtNode<V, P>>) -> int {
    choose|s: int|
        0 <= s < children.len() && children[s] is Empty && forall|j: int|
            0 <= j < s ==> !(#[trigger] children[j] is Empty)
}

/// An inner node with up to 48 children: `child_index` gives for each key
/// byte the slot of its child among the 48 of `children`.
pub struct Node48<V, const P: usize> {
    pub header: Header<P>,
    pub child_index: [u8; 256],
    pub children: Vec<ArtNode<V, P>>,
    pub prefixed_child: ArtNode<V, P>,
}

impl<V, const P: usize> Default for Node48<V, P> {
    /// A node without children and without a path.
    fn default() -> (node: Node48<V, P>)
        ensures
            node.wf(),
            node.header.partial.len == 0,
            node.header.non_null_children == 0,
            node.header.path@ == Seq::<u8>::empty(),
            node.prefixed_child is Empty,
            forall|b: u8| node.child(b) is Empty,
    {
        Node48::new(Ghost(Seq::empty()))
    }
}

impl<V, const P: usize> Node48<V, P> {
    /// Every key byte is marked as absent or has a slot of its own that
    /// holds a child, and the header counts the bytes that have one and the
    /// slots that are filled.
    pub open spec fn wf(&self) -> bool {
        &&& self.children@.len() == 48
        &&& self.header.non_null_children <= 48
        &&& forall|b: int| 0 <= b < 256 ==> #[trigger] self.child_index@[b] <= 48
        &&& forall|b: int|
            0 <= b < 256 && #[trigger] self.child_index@[b] != EMPTY_INDEX ==> !(
            self.children@[self.child_index@[b] as int] is Empty)
        &&& forall|a: int, b: int|
            0 <= a < 256 && 0 <= b < 256 && a != b && #[trigger] self.child_index@[a]
                != EMPTY_INDEX ==> self.child_index@[a] != #[trigger] self.child_index@[b]
        &&& forall|s: int|
            0 <= s < 48 && !(#[trigger] self.children@[s] is Empty) ==> exists|b: int|
                0 <= b < 256 && #[trigger] self.child_index@[b] == s
        &&& count_true(mapped(self.child_index@)) == self.header.non_null_children
        &&& count_true(occupied(self.children@)) == self.header.non_null_children
    }

    /// The children fill the first slots without a gap.
    pub open spec fn dense(&self) -> bool {
        forall|s: int|
            0 <= s < 48 ==> ((#[trigger] self.children@[s]) is Empty <==> s
                >= self.header.non_null_children)
    }

    /// The slots follow the order of the key bytes.
    pub open spec fn ordered(&self) -> bool {
        forall|a: int, b: int|
            0 <= a < b < 256 && #[trigger] self.child_index@[a] != EMPTY_INDEX
                && #[trigger] self.child_index@[b] != EMPTY_INDEX ==> self.child_index@[a]
                < self.child_index@[b]
    }

    /// The slot that the next child takes: the one behind as many slots as
    /// there are children where that is free, else the first free one.
    pub open spec fn next_free(&self) -> int {
        if self.children@[self.header.non_null_children as int] is Empty {
            self.header.non_null_children as int
        } else {
            first_empty(self.children@)
        }
    }

    /// The child under the key byte `b`; `Empty` where there is none.
    pub open spec fn child(&self, b: u8) -> ArtNode<V, P> {
        let s = self.child_index@[b as int];
        if s < self.children@.len() {
            self.children@[s as int]
        } else {
            ArtNode::Empty
        }
    }

    /// The child that a key byte, or the end of the key, leads to.
    pub open spec fn child_at(&self, key: (u8, bool)) -> ArtNode<V, P> {
        if key.1 {
            self.child(key.0)
        } else {
            self.prefixed_child
        }
    }

    /// A node without children whose keys all start with `path`.
    pub fn new(Ghost(path): Ghost<Seq<u8>>) -> (node: Self)
        ensures
            node.wf(),
            node.header.partial.len == 0,
            node.header.non_null_children == 0,
            node.header.path@ == path,
            node.prefixed_child is Empty,
            forall|b: u8| node.child(b) is Empty,
            node.dense(),
            node.ordered(),
    {
        let node = Node48 {
            header: Header::new(Ghost(path)),
            child_index: [48u8; 256],
            children: empty_slots(48),
            prefixed_child: ArtNode::Empty,
        };
        proof {
            lemma_count_zero(mapped(node.child_index@));
            lemma_count_zero(occupied(node.children@));
        }
        node
    }

    #[inline]
    pub fn is_full(&self) -> (full: bool)
        ensures
            full == (self.header.non_null_children == 48),
    {
        self.header.non_null_children == 48
    }

    /// Whether the children would fit a `Node16`.
    #[inline]
    pub fn is_few(&self) -> (few: bool)
        ensures
            few == (self.header.non_null_children < 17),
    {
        self.header.non_null_children < 17
    }

    /// The prefixed child where there is one, else the child under the
    /// smallest key byte.
    pub fn minimum_child(&self) -> (min: Option<&ArtNode<V, P>>)
        requires
            self.wf(),
        ensures
            match min {
                Some(c) => !(c is Empty) && if self.prefixed_child is Empty {
                    exists|b: u8|
                        *c == self.child(b) && forall|x: u8| x < b ==> (#[trigger] self.child(x)) is Empty
                } else {
                    *c == self.prefixed_child
                },
                None => self.prefixed_child is Empty && forall|b: u8| self.child(b) is Empty,
            },
    {
        if !self.prefixed_child.is_none() {
            return Some(&self.prefixed_child);
        }
        let mut i: usize = 0;
        while i < 256
            invariant
                self.wf(),
                self.prefixed_child is Empty,
                i <= 256,
                forall|x: u8| x < i ==> (#[trigger] self.child(x)) is Empty,
            decreases 256 - i,
        {
            let slot = self.child_index[i];
            if slot != EMPTY_INDEX {
                proof {
                    let b = i as u8;
                    assert(self.children@[slot as int] == self.child(b));
                    assert forall|x: u8| x < b implies (#[trigger] self.child(x)) is Empty by {}
                }
                return Some(&self.children[slot as usize]);
            }
            i += 1;
        }
        None
    }

    /// The slot of the child under `key`.
    #[inline]
    pub fn find_child_index(&self, key: u8) -> (found: Option<usize>)
        requires
            self.wf(),
        ensures
            match found {
                Some(i) => i < 48 && i == self.child_index@[key as int]
                    && self.children@[i as int] == self.child(key) && !(self.child(key) is Empty),
                None => self.child(key) is Empty && self.child_index@[key as int] == EMPTY_INDEX,
            },
    {
        let index = self.child_index[key as usize];
        if index == EMPTY_INDEX {
            None
        } else {
            Some(index as usize)
        }
    }

    #[inline]
    pub fn get_child(&self, key: (u8, bool)) -> (found: Option<&ArtNode<V, P>>)
        requires
            self.wf(),
        ensures
            match found {
                Some(c) => *c == self.child_at(key) && !(c is Empty),
                None => self.child_at(key) is Empty,
            },
    {
        if !key.1 {
            if self.prefixed_child.is_none() {
                return None;
            }
            return Some(&self.prefixed_child);
        }
        match self.find_child_index(key.0) {
            Some(i) => Some(&self.children[i]),
            None => None,
        }
    }

    /// A mutable reference to the child that `key` leads to. What the caller
    /// leaves there is the node's child from then on.
    #[inline]
    pub fn get_mut_child(&mut self, key: (u8, bool)) -> (found: Option<&mut ArtNode<V, P>>)
        requires
            old(self).wf(),
        ensures
            match found {
                Some(c) => {
                    &&& *c == old(self).child_at(key)
                    &&& !(*c is Empty)
                    &&& final(self).header == old(self).header
                    &&& final(self).child_at(key) == *final(c)
                    &&& key.1 ==> final(self).prefixed_child == old(self).prefixed_child
                    &&& forall|x: u8|
                        !(key.1 && x == key.0) ==> #[trigger] final(self).child(x) == old(self).child(x)
                    &&& !(*final(c) is Empty) || !key.1 ==> final(self).wf()
                },
                None => old(self).child_at(key) is Empty && *final(self) == *old(self),
            },
    {
        if !key.1 {
            if self.prefixed_child.is_none() {
                return None;
            }
            return Some(&mut self.prefixed_child);
        }
        match self.find_child_index(key.0) {
            Some(i) => {
                proof {
                    assert forall|v: ArtNode<V, P>| !(v is Empty) implies #[trigger] occupied(
                        self.children@.update(i as int, v),
                    ) == occupied(self.children@) by {
                        assert(occupied(self.children@.update(i as int, v)) =~= occupied(
                            self.children@,
                        ));
                    }
                }
                Some(&mut self.children[i])
            },
            None => None,
        }
    }

    /// Adds `new_child` under `key`, where the node has no child yet.
    pub fn insert_child(&mut self, key: (u8, bool), new_child: ArtNode<V, P>)
        requires
            old(self).wf(),
            !(new_child is Empty),
            old(self).child_at(key) is Empty,
            key.1 ==> old(self).header.non_null_children < 48,
        ensures
            final(self).wf(),
            final(self).child_at(key) == new_child,
            final(self).header == if key.1 {
                old(self).header.with_count((old(self).header.non_null_children + 1) as u16)
            } else {
                old(self).header
            },
            key.1 ==> final(self).prefixed_child == old(self).prefixed_child,
            forall|x: u8|
                !(key.1 && x == key.0) ==> #[trigger] final(self).child(x) == old(self).child(x),
            key.1 ==> final(self).child_index@ == old(self).child_index@.update(
                key.0 as int,
                old(self).next_free() as u8,
            ) && final(self).children@ == old(self).children@.update(
                old(self).next_free(),
                new_child,
            ),
            !key.1 ==> final(self).child_index@ == old(self).child_index@ && final(self).children@ == old(self).children@,
            key.1 && old(self).dense() ==> final(self).dense() && old(self).next_free() == old(
                self,
            ).header.non_null_children,
    {
        if !key.1 {
            self.prefixed_child = new_child;
            return ;
        }
        let mut pos: usize = self.header.non_null_children as usize;
        // The slot after the last insertion is free unless a removal has
        // opened a gap below it.
        if !self.children[pos].is_none() {
            pos = 0;
            while !self.children[pos].is_none()
                invariant
                    self.wf(),
                    self.header.non_null_children < 48,
                    0 <= pos < 48,
                    forall|j: int| 0 <= j < pos ==> !(#[trigger] self.children@[j] is Empty),
                decreases 48 - pos,
            {
                proof {
                    if pos == 47 {
                        assert forall|j: int| 0 <= j < 48 implies occupied(self.children@)[j] by {
                            assert(!(self.children@[j] is Empty));
                        }
                        lemma_count_all(occupied(self.children@));
                    }
                }
                pos += 1;
            }
        }
        proof {
            if pos != self.header.non_null_children {
                let first = first_empty(self.children@);
                assert(self.children@[pos as int] is Empty);
                if first < pos {
                    assert(!(self.children@[first] is Empty));
                } else if pos < first {
                    assert(!(self.children@[pos as int] is Empty));
                }
            }
            assert(pos == self.next_free());
            let b = key.0 as int;
            assert(self.child_index@[b] == EMPTY_INDEX);
            lemma_count_update(mapped(self.child_index@), b, true);
            assert(mapped(self.child_index@.update(b, pos as u8)) =~= mapped(
                self.child_index@,
            ).update(b, true));
            lemma_count_update(occupied(self.children@), pos as int, true);
            assert(occupied(self.children@.update(pos as int, new_child)) =~= occupied(
                self.children@,
            ).update(pos as int, true));
        }
        let ghost before = *self;
        let mut child = new_child;
        std::mem::swap(&mut self.children[pos], &mut child);
        self.child_index[key.0 as usize] = pos as u8;
        self.header.non_null_children += 1;
        proof {
            assert forall|s: int| 0 <= s < 48 && !(#[trigger] self.children@[s] is Empty) implies exists|
                b: int,
            |
                0 <= b < 256 && #[trigger] self.child_index@[b] == s by {
                if s == pos {
                    assert(self.child_index@[key.0 as int] == s);
                } else {
                    assert(!(before.children@[s] is Empty));
                    let b = choose|b: int| 0 <= b < 256 && #[trigger] before.child_index@[b] == s;
                    assert(self.child_index@[b] == s);
                }
            }
        }
    }

    /// Takes out the child that `valid_key` leads to.
    pub fn remove_child(&mut self, valid_key: (u8, bool)) -> (removed: Option<ArtNode<V, P>>)
        requires
            old(self).wf(),
        ensures
            match removed {
                Some(c) => {
                    &&& c == old(self).child_at(valid_key)
                    &&& !(c is Empty)
                    &&& final(self).wf()
                    &&& final(self).child_at(valid_key) is Empty
                    &&& final(self).header == if valid_key.1 {
                        old(self).header.with_count((old(self).header.non_null_children - 1) as u16)
                    } else {
                        old(self).header
                    }
                    &&& valid_key.1 ==> old(self).header.non_null_children > 0
                    &&& valid_key.1 ==> final(self).prefixed_child == old(self).prefixed_child
                    &&& forall|x: u8|
                        !(valid_key.1 && x == valid_key.0) ==> #[trigger] final(self).child(x)
                            == old(self).child(x)
                    &&& valid_key.1 ==> final(self).child_index@ == old(self).child_index@.update(
                        valid_key.0 as int,
                        EMPTY_INDEX,
                    ) && final(self).children@ == old(self).children@.update(
                        old(self).child_index@[valid_key.0 as int] as int,
                        ArtNode::Empty,
                    )
                    &&& !valid_key.1 ==> final(self).child_index@ == old(self).child_index@
                        && final(self).children@ == old(self).children@
                },
                None => old(self).child_at(valid_key) is Empty && *final(self) == *old(self),
            },
    {
        if !valid_key.1 {
            if self.prefixed_child.is_none() {
                return None;
            }
            return Some(self.prefixed_child.take());
        }
        match self.find_child_index(valid_key.0) {
            Some(index) => {
                proof {
                    let b = valid_key.0 as int;
                    lemma_count_update(mapped(self.child_index@), b, false);
                    assert(mapped(self.child_index@.update(b, EMPTY_INDEX)) =~= mapped(
                        self.child_index@,
                    ).update(b, false));
                    lemma_count_update(occupied(self.children@), index as int, false);
                    assert(occupied(self.children@.update(index as int, ArtNode::Empty))
                        =~= occupied(self.children@).update(index as int, false));
                }
                let ghost before = *self;
                let removed = self.children[index].take();
                self.child_index[valid_key.0 as usize] = EMPTY_INDEX;
                self.header.non_null_children -= 1;
                proof {
                    assert forall|s: int|
                        0 <= s < 48 && !(#[trigger] self.children@[s] is Empty) implies exists|b: int|
                        0 <= b < 256 && #[trigger] self.child_index@[b] == s by {
                        assert(!(before.children@[s] is Empty));
                        let b = choose|b: int|
                            0 <= b < 256 && #[trigger] before.child_index@[b] == s;
                        assert(self.child_index@[b] == s);
                    }
                }
                Some(removed)
            },
            None => None,
        }
    }

    /// The same node as a `Node256`: each child moves to the slot of its key
    /// byte.
    pub fn grow(self) -> (grown: Node256<V, P>)
        requires
            self.wf(),
        ensures
            grown.wf(),
            grown.header == self.header,
            grown.prefixed_child == self.prefixed_child,
            forall|b: u8| #[trigger] grown.child(b) == self.child(b),
    {
        let mut rest = self;
        let mut grown: Node256<V, P> = Node256::new(Ghost(rest.header.path@));
        let ghost fresh = grown;
        grown.header.partial = rest.header.partial;
        std::mem::swap(&mut rest.prefixed_child, &mut grown.prefixed_child);
        proof {
            assert forall|b: u8| (#[trigger] grown.child(b)) is Empty && rest.child(b)
                == self.child(b) by {
                assert(fresh.child(b) is Empty);
            }
        }
        let mut i: usize = 0;
        while i < 256
            invariant
                i <= 256,
                self.wf(),
                rest.wf(),
                grown.wf(),
                grown.header.partial == self.header.partial,
                grown.header.path == self.header.path,
                grown.header.non_null_children + rest.header.non_null_children
                    == self.header.non_null_children,
                grown.prefixed_child == self.prefixed_child,
                forall|b: u8| b < i ==> (#[trigger] rest.child(b)) is Empty,
                forall|b: u8| #[trigger]
                    grown.child(b) == (if rest.child(b) is Empty {
                        self.child(b)
                    } else {
                        ArtNode::Empty
                    }),
                forall|b: u8| !(#[trigger] rest.child(b) is Empty) ==> rest.child(b) == self.child(b),
            decreases 256 - i,
        {
            let key_byte = i as u8;
            match rest.remove_child((key_byte, true)) {
                Some(child) => {
                    grown.insert_child((key_byte, true), child);
                },
                None => {},
            }
            i += 1;
        }
        proof {
            lemma_count_zero(occupied(rest.children@));
            lemma_count_zero(mapped(rest.child_index@));
            assert forall|b: int| 0 <= b < 256 implies !mapped(rest.child_index@)[b] by {
                assert(rest.child(b as u8) is Empty);
            }
        }
        grown
    }

    /// The same node as a `Node16`, where the children fit one: the key bytes
    /// are taken in ascending order.
    pub fn shrink_to_fit(self) -> (shrunk: Node16<V, P>)
        requires
            self.wf(),
            self.header.non_null_children <= 16,
        ensures
            shrunk.wf(),
            shrunk.header == self.header,
            shrunk.prefixed_child == self.prefixed_child,
            forall|b: u8| #[trigger] shrunk.child(b) == self.child(b),
    {
        let mut rest = self;
        let mut shrunk: Node16<V, P> = Node16::new(Ghost(rest.header.path@));
        let ghost fresh = shrunk;
        shrunk.header.partial = rest.header.partial;
        std::mem::swap(&mut rest.prefixed_child, &mut shrunk.prefixed_child);
        proof {
            assert forall|b: u8| (#[trigger] shrunk.child(b)) is Empty && rest.child(b)
                == self.child(b) by {
                assert(fresh.child(b) is Empty);
            }
        }
        let mut i: usize = 0;
        while i < 256
            invariant
                i <= 256,
                self.wf(),
                rest.wf(),
                shrunk.wf(),
                self.header.non_null_children <= 16,
                shrunk.header.partial == self.header.partial,
                shrunk.header.path == self.header.path,
                shrunk.header.non_null_children + rest.header.non_null_children
                    == self.header.non_null_children,
                shrunk.prefixed_child == self.prefixed_child,
                forall|b: u8| b < i ==> (#[trigger] rest.child(b)) is Empty,
                forall|b: u8| #[trigger]
                    shrunk.child(b) == (if rest.child(b) is Empty {
                        self.child(b)
                    } else {
                        ArtNode::Empty
                    }),
                forall|b: u8| !(#[trigger] rest.child(b) is Empty) ==> rest.child(b) == self.child(b),
            decreases 256 - i,
        {
            let key_byte = i as u8;
            match rest.remove_child((key_byte, true)) {
                Some(child) => {
                    shrunk.insert_child((key_byte, true), child);
                },
                None => {},
            }
            i += 1;
        }
        proof {
            lemma_count_zero(mapped(rest.child_index@));
            assert forall|b: int| 0 <= b < 256 implies !mapped(rest.child_index@)[b] by {
                assert(rest.child(b as u8) is Empty);
            }
        }
        shrunk
    }
}

} // verus!
