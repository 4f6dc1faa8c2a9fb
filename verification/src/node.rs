use vstd::prelude::*;

use crate::leaf::Leaf;
use crate::node16::Node16;
use crate::node256::Node256;
use crate::node4::Node4;
use crate::node48::Node48;
use crate::counting::{count_true, lemma_count_all, lemma_count_take};
use crate::node48::occupied;
use crate::{Header, Partial};

verus! {

/// A slot of the tree: nothing, a stored entry, or an inner node of one of
/// the four sizes. The slot owns what it holds.
pub enum ArtNode<V, const P: usize> {
    Empty,
    Leaf(Box<Leaf<V>>),
    Node4(Box<Node4<V, P>>),
    Node16(Box<Node16<V, P>>),
    Node48(Box<Node48<V, P>>),
    Node256(Box<Node256<V, P>>),
}

impl<V, const P: usize> Default for ArtNode<V, P> {
    /// The slot that holds nothing.
    fn default() -> (node: ArtNode<V, P>)
        ensures
            node is Empty,
    {
        ArtNode::Empty
    }
}

/// The byte of `keys` at `depth` together with `true`, or `(0, false)` where
/// the key ends before `depth`.
pub open spec fn key_at(keys: Seq<u8>, depth: int) -> (u8, bool) {
    if 0 <= depth < keys.len() {
        (keys[depth], true)
    } else {
        (0u8, false)
    }
}

/// A vector of `n` slots that hold nothing.
pub fn empty_slots<V, const P: usize>(n: usize) -> (slots: Vec<ArtNode<V, P>>)
    ensures
        slots@.len() == n,
        forall|i: int| 0 <= i < n ==> #[trigger] slots@[i] is Empty,
{
    let mut slots: Vec<ArtNode<V, P>> = Vec::with_capacity(n);
    let mut i: usize = 0;
    while i < n
        invariant
            i <= n,
            slots@.len() == i,
            forall|j: int| 0 <= j < i ==> #[trigger] slots@[j] is Empty,
        decreases n - i,
    {
        slots.push(ArtNode::Empty);
        i += 1;
    }
    slots
}

pub struct ArtKeyVerifier;

impl ArtKeyVerifier {
    /// The key byte to follow at `depth`, or the sign that the key is
    /// exhausted there.
    #[inline]
    pub fn valid(keys: &[u8], depth: usize) -> (key: (u8, bool))
        ensures
            key == key_at(keys@, depth as int),
            key.1 ==> depth < usize::MAX,
    {
        if depth < keys.len() {
            (keys[depth], true)
        } else {
            (0u8, false)
        }
    }
}

impl<V, const P: usize> ArtNode<V, P> {
    pub open spec fn is_inner(self) -> bool {
        self is Node4 || self is Node16 || self is Node48 || self is Node256
    }

    /// The header of an inner node.
    pub open spec fn head(self) -> Header<P> {
        match self {
            ArtNode::Node4(n) => n.header,
            ArtNode::Node16(n) => n.header,
            ArtNode::Node48(n) => n.header,
            ArtNode::Node256(n) => n.header,
            _ => arbitrary(),
        }
    }

    /// The child of an inner node that is reached by a key that ends at the
    /// node.
    pub open spec fn prefixed(self) -> ArtNode<V, P> {
        match self {
            ArtNode::Node4(n) => n.prefixed_child,
            ArtNode::Node16(n) => n.prefixed_child,
            ArtNode::Node48(n) => n.prefixed_child,
            ArtNode::Node256(n) => n.prefixed_child,
            _ => ArtNode::Empty,
        }
    }

    /// The child of an inner node under the key byte `b`; `Empty` where there
    /// is none.
    #[verifier::opaque]
    pub open spec fn child(self, b: u8) -> ArtNode<V, P> {
        match self {
            ArtNode::Node4(n) => n.child(b),
            ArtNode::Node16(n) => n.child(b),
            ArtNode::Node48(n) => n.child(b),
            ArtNode::Node256(n) => n.child(b),
            _ => ArtNode::Empty,
        }
    }

    /// The child that a key byte, or the end of the key, leads to.
    pub open spec fn child_at(self, key: (u8, bool)) -> ArtNode<V, P> {
        if key.1 {
            self.child(key.0)
        } else {
            self.prefixed()
        }
    }

    /// The variant's own bookkeeping is consistent: the child count, the
    /// order of the key bytes, the index of a `Node48`.
    #[verifier::opaque]
    pub open spec fn node_wf(self) -> bool {
        match self {
            ArtNode::Node4(n) => n.wf(),
            ArtNode::Node16(n) => n.wf(),
            ArtNode::Node48(n) => n.wf(),
            ArtNode::Node256(n) => n.wf(),
            _ => true,
        }
    }

    /// Number of children that a variant can hold under key bytes.
    pub open spec fn capacity(self) -> nat {
        match self {
            ArtNode::Node4(_) => 4,
            ArtNode::Node16(_) => 16,
            ArtNode::Node48(_) => 48,
            ArtNode::Node256(_) => 256,
            _ => 0,
        }
    }

    /// Two nodes are of the same variant.
    pub open spec fn same_variant(self, other: Self) -> bool {
        &&& self is Empty <==> other is Empty
        &&& self is Leaf <==> other is Leaf
        &&& self is Node4 <==> other is Node4
        &&& self is Node16 <==> other is Node16
        &&& self is Node48 <==> other is Node48
        &&& self is Node256 <==> other is Node256
    }

    /// A child of a node is smaller than the node, so that a recursion over
    /// children ends.
    pub proof fn lemma_child_smaller(self, b: u8)
        ensures
            !(self.child(b) is Empty) ==> decreases_to!(self => self.child(b)),
            !(self.prefixed() is Empty) ==> decreases_to!(self => self.prefixed()),
    {
        reveal(ArtNode::child);
    }

    /// The slot that holds nothing.
    pub fn none() -> (node: ArtNode<V, P>)
        ensures
            node is Empty,
    {
        ArtNode::Empty
    }

    /// An inner node of the smallest variant without children, whose
    /// compressed path is `partial` and whose keys all start with `path`.
    pub fn inner4(partial: Partial<P>, Ghost(path): Ghost<Seq<u8>>) -> (node: ArtNode<V, P>)
        ensures
            node is Node4,
            node.node_wf(),
            node.head().partial == partial,
            node.head().non_null_children == 0,
            node.head().path@ == path,
            node.prefixed() is Empty,
            forall|b: u8| (#[trigger] node.child(b)) is Empty,
    {
        proof {
            reveal(ArtNode::child);
            reveal(ArtNode::node_wf);
        }
        let mut n4: Node4<V, P> = Node4::new(Ghost(path));
        let ghost fresh = n4;
        n4.header.partial = partial;
        proof {
            assert forall|b: u8| (#[trigger] n4.child(b)) is Empty by {
                assert(fresh.child(b) is Empty);
            }
        }
        ArtNode::Node4(Box::new(n4))
    }

    pub fn node4(n4: Box<Node4<V, P>>) -> (node: ArtNode<V, P>)
        ensures
            node == ArtNode::Node4(n4),
    {
        ArtNode::Node4(n4)
    }

    pub fn node16(n16: Box<Node16<V, P>>) -> (node: ArtNode<V, P>)
        ensures
            node == ArtNode::Node16(n16),
    {
        ArtNode::Node16(n16)
    }

    pub fn node48(n48: Box<Node48<V, P>>) -> (node: ArtNode<V, P>)
        ensures
            node == ArtNode::Node48(n48),
    {
        ArtNode::Node48(n48)
    }

    pub fn node256(n256: Box<Node256<V, P>>) -> (node: ArtNode<V, P>)
        ensures
            node == ArtNode::Node256(n256),
    {
        ArtNode::Node256(n256)
    }

    /// A slot that holds the entry `(key, val)`.
    pub fn leaf(key: Vec<u8>, val: V) -> (node: ArtNode<V, P>)
        ensures
            node is Leaf,
            node->Leaf_0.key@ == key@,
            node->Leaf_0.val == val,
    {
        ArtNode::Leaf(Box::new(Leaf::new(key, val)))
    }

    /// Empties the slot and returns what it held.
    #[inline]
    pub fn take(&mut self) -> (taken: ArtNode<V, P>)
        ensures
            taken == *old(self),
            *final(self) is Empty,
    {
        let mut taken = ArtNode::Empty;
        std::mem::swap(self, &mut taken);
        taken
    }

    #[inline]
    pub fn is_none(&self) -> (r: bool)
        ensures
            r == (*self is Empty),
    {
        match self {
            ArtNode::Empty => true,
            _ => false,
        }
    }

    #[inline]
    pub fn is_leaf(&self) -> (r: bool)
        ensures
            r == (*self is Leaf),
    {
        match self {
            ArtNode::Leaf(_) => true,
            _ => false,
        }
    }

    /// The size class of an inner node: 1 for a `Node4` up to 4 for a
    /// `Node256`; 0 for what is no inner node.
    pub open spec fn rank(self) -> nat {
        match self {
            ArtNode::Node4(_) => 1,
            ArtNode::Node16(_) => 2,
            ArtNode::Node48(_) => 3,
            ArtNode::Node256(_) => 4,
            _ => 0,
        }
    }

    /// Number of children under key bytes, as the header counts them.
    pub open spec fn count(self) -> nat {
        self.head().non_null_children as nat
    }

    /// Number of children, the prefixed child counted.
    pub open spec fn total(self) -> nat {
        if self.prefixed() is Empty {
            self.count()
        } else {
            self.count() + 1
        }
    }

    /// A consistent `Node256` counts at most 256 children, and where it
    /// counts that many it has a child under every key byte.
    pub proof fn lemma_full_256(self, b: u8)
        requires
            self is Node256,
            self.node_wf(),
        ensures
            self.count() <= 256,
            self.count() == 256 ==> !(self.child(b) is Empty),
    {
        reveal(ArtNode::child);
        reveal(ArtNode::node_wf);
        let n = self->Node256_0;
        crate::counting::lemma_count_bound(crate::node48::occupied(n.children@));
        if self.count() == 256 {
            crate::counting::lemma_count_full(crate::node48::occupied(n.children@));
            assert(crate::node48::occupied(n.children@)[b as int]);
        }
    }

    /// A consistent node counts no more children than its variant can hold.
    pub proof fn lemma_count_capacity(self)
        requires
            self.node_wf(),
        ensures
            self.is_inner() ==> self.count() <= self.capacity(),
    {
        reveal(ArtNode::node_wf);
        if self is Node256 {
            crate::counting::lemma_count_bound(crate::node48::occupied(self->Node256_0.children@));
        }
    }

    /// A consistent node that counts a child has one under some key byte.
    pub proof fn lemma_count_witness(self) -> (b: u8)
        requires
            self.node_wf(),
            self.is_inner(),
            self.count() > 0,
        ensures
            !(self.child(b) is Empty),
    {
        reveal(ArtNode::child);
        reveal(ArtNode::node_wf);
        match self {
            ArtNode::Node4(n) => {
                crate::sorted::lemma_slot_found(n.key@, 0);
                n.key@[0]
            },
            ArtNode::Node16(n) => {
                crate::sorted::lemma_slot_found(n.key@, 0);
                n.key@[0]
            },
            ArtNode::Node48(n) => {
                let m = crate::node48::mapped(n.child_index@);
                crate::counting::lemma_count_zero(m);
                let i = choose|i: int| 0 <= i < m.len() && m[i];
                i as u8
            },
            ArtNode::Node256(n) => {
                let m = crate::node48::occupied(n.children@);
                crate::counting::lemma_count_zero(m);
                let i = choose|i: int| 0 <= i < m.len() && m[i];
                i as u8
            },
            _ => 0u8,
        }
    }

    /// A consistent node that counts two children has them under two key
    /// bytes.
    pub proof fn lemma_count_witnesses(self) -> (found: (u8, u8))
        requires
            self.node_wf(),
            self.is_inner(),
            self.count() >= 2,
        ensures
            found.0 != found.1,
            !(self.child(found.0) is Empty),
            !(self.child(found.1) is Empty),
    {
        reveal(ArtNode::child);
        reveal(ArtNode::node_wf);
        match self {
            ArtNode::Node4(n) => {
                crate::sorted::lemma_slot_found(n.key@, 0);
                crate::sorted::lemma_slot_found(n.key@, 1);
                (n.key@[0], n.key@[1])
            },
            ArtNode::Node16(n) => {
                crate::sorted::lemma_slot_found(n.key@, 0);
                crate::sorted::lemma_slot_found(n.key@, 1);
                (n.key@[0], n.key@[1])
            },
            ArtNode::Node48(n) => {
                let found = crate::counting::lemma_count_two(crate::node48::mapped(n.child_index@));
                (found.0 as u8, found.1 as u8)
            },
            ArtNode::Node256(n) => {
                let found = crate::counting::lemma_count_two(crate::node48::occupied(n.children@));
                (found.0 as u8, found.1 as u8)
            },
            _ => (0u8, 1u8),
        }
    }

    /// The slots of an inner node that can hold a child under a key byte.
    pub open spec fn slots(self) -> Seq<ArtNode<V, P>> {
        match self {
            ArtNode::Node4(n) => n.children@,
            ArtNode::Node16(n) => n.children@,
            ArtNode::Node48(n) => n.children@,
            ArtNode::Node256(n) => n.children@,
            _ => Seq::empty(),
        }
    }

    /// Whether a look at every slot finds as many children as the header
    /// counts. A consistent node passes.
    pub fn assert_size(&self) -> (ok: bool)
        ensures
            ok == (count_true(occupied(self.slots())) == if self.is_inner() {
                self.count()
            } else {
                0
            }),
            self.node_wf() ==> ok,
    {
        let children: &Vec<ArtNode<V, P>> = match self {
            ArtNode::Node4(n4) => &n4.children,
            ArtNode::Node16(n16) => &n16.children,
            ArtNode::Node48(n48) => &n48.children,
            ArtNode::Node256(n256) => &n256.children,
            _ => {
                return true;
            },
        };
        let ghost filled = occupied(children@);
        let mut counted: usize = 0;
        let mut i: usize = 0;
        while i < children.len()
            invariant
                i <= children@.len(),
                filled == occupied(children@),
                counted == count_true(filled.take(i as int)),
                counted <= i,
            decreases children.len() - i,
        {
            proof {
                lemma_count_take(filled, i as int);
            }
            if !children[i].is_none() {
                counted += 1;
            }
            i += 1;
        }
        proof {
            assert(filled.take(i as int) =~= filled);
            reveal(ArtNode::node_wf);
            if self.node_wf() && (*self is Node4 || *self is Node16) {
                assert forall|j: int| 0 <= j < filled.len() implies filled[j] by {
                    assert(!(children@[j] is Empty));
                }
                lemma_count_all(filled);
            }
        }
        counted == self.len()
    }

    /// Number of children under key bytes.
    #[inline]
    pub fn len(&self) -> (n: usize)
        ensures
            self.is_inner() ==> n == self.count(),
            !self.is_inner() ==> n == 0,
    {
        match self {
            ArtNode::Node4(n4) => n4.header.non_null_children as usize,
            ArtNode::Node16(n16) => n16.header.non_null_children as usize,
            ArtNode::Node48(n48) => n48.header.non_null_children as usize,
            ArtNode::Node256(n256) => n256.header.non_null_children as usize,
            _ => 0,
        }
    }

    /// Whether an inner node has no room for another child under a key byte.
    #[inline]
    pub fn is_full(&self) -> (full: bool)
        ensures
            full == (self.is_inner() && self.count() == self.capacity()),
    {
        match self {
            ArtNode::Node4(n4) => n4.is_full(),
            ArtNode::Node16(n16) => n16.is_full(),
            ArtNode::Node48(n48) => n48.is_full(),
            ArtNode::Node256(n256) => n256.is_full(),
            _ => false,
        }
    }

    /// Whether an inner node has too few children for its variant.
    #[inline]
    pub fn is_few(&self) -> (few: bool)
        ensures
            few == (self.is_inner() && !self.occupancy_ok()),
    {
        proof {
            reveal(ArtNode::child);
            reveal(ArtNode::node_wf);
        }
        match self {
            ArtNode::Node4(n4) => n4.is_few(),
            ArtNode::Node16(n16) => n16.is_few(),
            ArtNode::Node48(n48) => n48.is_few(),
            ArtNode::Node256(n256) => n256.is_few(),
            _ => false,
        }
    }

    /// The fewest children that a variant holds at rest: a `Node4` two, the
    /// prefixed child counted; the others one more than the next smaller
    /// variant can hold, under key bytes.
    pub open spec fn occupancy_ok(self) -> bool {
        match self {
            ArtNode::Node4(_) => self.total() >= 2,
            ArtNode::Node16(_) => self.count() >= 5,
            ArtNode::Node48(_) => self.count() >= 17,
            ArtNode::Node256(_) => self.count() >= 49,
            _ => true,
        }
    }

    /// The header of an inner node.
    #[inline]
    pub fn header(&self) -> (header: &Header<P>)
        requires
            self.is_inner(),
        ensures
            *header == self.head(),
    {
        match self {
            ArtNode::Node4(n4) => &n4.header,
            ArtNode::Node16(n16) => &n16.header,
            ArtNode::Node48(n48) => &n48.header,
            ArtNode::Node256(n256) => &n256.header,
            _ => vstd::pervasive::unreached(),
        }
    }

    /// The header of an inner node, to be changed in place. The children stay
    /// as they are.
    pub fn header_mut(&mut self) -> (header: &mut Header<P>)
        requires
            old(self).is_inner(),
        ensures
            *header == old(self).head(),
            final(self).head() == *final(header),
            final(self).same_variant(*old(self)),
            final(self).prefixed() == old(self).prefixed(),
            forall|b: u8| #[trigger] final(self).child(b) == old(self).child(b),
            old(self).node_wf() && final(header).non_null_children == header.non_null_children
                ==> final(self).node_wf(),
    {
        proof {
            reveal(ArtNode::child);
            reveal(ArtNode::node_wf);
        }
        match self {
            ArtNode::Node4(n4) => &mut n4.header,
            ArtNode::Node16(n16) => &mut n16.header,
            ArtNode::Node48(n48) => &mut n48.header,
            ArtNode::Node256(n256) => &mut n256.header,
            _ => vstd::pervasive::unreached(),
        }
    }

    /// The prefixed child of an inner node where there is one, else the
    /// child under the smallest key byte.
    pub fn minimum_node(&self) -> (min: Option<&ArtNode<V, P>>)
        requires
            self.node_wf(),
        ensures
            match min {
                Some(c) => !(c is Empty) && if self.prefixed() is Empty {
                    exists|b: u8|
                        *c == self.child(b) && forall|x: u8| x < b ==> (#[trigger] self.child(x)) is Empty
                } else {
                    *c == self.prefixed()
                },
                None => self.prefixed() is Empty && forall|b: u8| self.child(b) is Empty,
            },
    {
        proof {
            reveal(ArtNode::child);
            reveal(ArtNode::node_wf);
        }
        let min = match self {
            ArtNode::Node4(n4) => n4.minimum_child(),
            ArtNode::Node16(n16) => n16.minimum_child(),
            ArtNode::Node48(n48) => n48.minimum_child(),
            ArtNode::Node256(n256) => n256.minimum_child(),
            _ => None,
        };
        proof {
            if min is Some && self.prefixed() is Empty {
                let c = *min->0;
                let b = match self {
                    ArtNode::Node4(n) => choose|b: u8|
                        c == n.child(b) && forall|x: u8| x < b ==> (#[trigger] n.child(x)) is Empty,
                    ArtNode::Node16(n) => choose|b: u8|
                        c == n.child(b) && forall|x: u8| x < b ==> (#[trigger] n.child(x)) is Empty,
                    ArtNode::Node48(n) => choose|b: u8|
                        c == n.child(b) && forall|x: u8| x < b ==> (#[trigger] n.child(x)) is Empty,
                    ArtNode::Node256(n) => choose|b: u8|
                        c == n.child(b) && forall|x: u8| x < b ==> (#[trigger] n.child(x)) is Empty,
                    _ => 0u8,
                };
                assert(c == self.child(b));
                assert forall|x: u8| x < b implies (#[trigger] self.child(x)) is Empty by {}
            }
        }
        min
    }

    /// The child of an inner node that `valid_key` leads to.
    #[inline]
    pub fn get_child(&self, valid_key: (u8, bool)) -> (found: Option<&ArtNode<V, P>>)
        requires
            self.node_wf(),
        ensures
            match found {
                Some(c) => *c == self.child_at(valid_key) && !(c is Empty),
                None => self.child_at(valid_key) is Empty,
            },
    {
        proof {
            reveal(ArtNode::child);
            reveal(ArtNode::node_wf);
        }
        match self {
            ArtNode::Node4(n4) => n4.get_child(valid_key),
            ArtNode::Node16(n16) => n16.get_child(valid_key),
            ArtNode::Node48(n48) => n48.get_child(valid_key),
            ArtNode::Node256(n256) => n256.get_child(valid_key),
            _ => None,
        }
    }

    /// A mutable reference to the child of an inner node that `valid_key`
    /// leads to. What the caller leaves there is the node's child from then
    /// on.
    #[inline]
    pub fn get_mut_child(&mut self, valid_key: (u8, bool)) -> (found: Option<&mut ArtNode<V, P>>)
        requires
            old(self).node_wf(),
        ensures
            match found {
                Some(c) => {
                    &&& *c == old(self).child_at(valid_key)
                    &&& !(*c is Empty)
                    &&& old(self).is_inner()
                    &&& final(self).same_variant(*old(self))
                    &&& final(self).head() == old(self).head()
                    &&& final(self).child_at(valid_key) == *final(c)
                    &&& valid_key.1 ==> final(self).prefixed() == old(self).prefixed()
                    &&& forall|x: u8|
                        !(valid_key.1 && x == valid_key.0) ==> #[trigger] final(self).child(x)
                            == old(self).child(x)
                    &&& !(*final(c) is Empty) || !valid_key.1 ==> final(self).node_wf()
                },
                None => old(self).child_at(valid_key) is Empty && *final(self) == *old(self),
            },
    {
        proof {
            reveal(ArtNode::child);
            reveal(ArtNode::node_wf);
        }
        match self {
            ArtNode::Node4(n4) => n4.get_mut_child(valid_key),
            ArtNode::Node16(n16) => n16.get_mut_child(valid_key),
            ArtNode::Node48(n48) => n48.get_mut_child(valid_key),
            ArtNode::Node256(n256) => n256.get_mut_child(valid_key),
            _ => None,
        }
    }

    /// Replaces an inner node by the next larger variant with the same
    /// header and children. A `Node256` stays as it is.
    pub fn grow(&mut self)
        requires
            old(self).is_inner(),
            old(self).node_wf(),
        ensures
            final(self).node_wf(),
            final(self).rank() == if *old(self) is Node256 {
                4
            } else {
                old(self).rank() + 1
            },
            final(self).head() == old(self).head(),
            final(self).prefixed() == old(self).prefixed(),
            forall|b: u8| #[trigger] final(self).child(b) == old(self).child(b),
    {
        proof {
            reveal(ArtNode::child);
            reveal(ArtNode::node_wf);
        }
        let taken_node = self.take();
        *self = match taken_node {
            ArtNode::Node4(n4) => ArtNode::node16(Box::new((*n4).grow())),
            ArtNode::Node16(n16) => ArtNode::node48(Box::new((*n16).grow())),
            ArtNode::Node48(n48) => ArtNode::node256(Box::new((*n48).grow())),
            other => other,
        };
    }

    /// Adds `new_child` to an inner node under `valid_key`, where the node
    /// has no child yet. A node without room for another key byte grows
    /// first.
    pub fn insert_child(&mut self, valid_key: (u8, bool), new_child: ArtNode<V, P>)
        requires
            old(self).is_inner(),
            old(self).node_wf(),
            !(new_child is Empty),
            old(self).child_at(valid_key) is Empty,
        ensures
            final(self).node_wf(),
            final(self).rank() == if valid_key.1 && old(self).count() == old(self).capacity() {
                old(self).rank() + 1
            } else {
                old(self).rank()
            },
            final(self).child_at(valid_key) == new_child,
            final(self).head() == if valid_key.1 {
                old(self).head().with_count((old(self).count() + 1) as u16)
            } else {
                old(self).head()
            },
            valid_key.1 ==> final(self).prefixed() == old(self).prefixed(),
            forall|x: u8|
                !(valid_key.1 && x == valid_key.0) ==> #[trigger] final(self).child(x) == old(
                    self,
                ).child(x),
    {
        proof {
            reveal(ArtNode::child);
            reveal(ArtNode::node_wf);
        }
        proof {
            if *self is Node256 {
                self.lemma_full_256(valid_key.0);
            }
        }
        if valid_key.1 && self.is_full() {
            self.grow();
        }
        let ghost roomy = *self;
        proof {
            assert(roomy.child(valid_key.0) == old(self).child(valid_key.0));
            assert(roomy.child_at(valid_key) is Empty);
            assert(valid_key.1 ==> roomy.count() < roomy.capacity());
        }
        match self {
            ArtNode::Node4(n4) => n4.insert_child(valid_key, new_child),
            ArtNode::Node16(n16) => n16.insert_child(valid_key, new_child),
            ArtNode::Node48(n48) => n48.insert_child(valid_key, new_child),
            ArtNode::Node256(n256) => n256.insert_child(valid_key, new_child),
            _ => {},
        }
        proof {
            assert forall|x: u8| !(valid_key.1 && x == valid_key.0) implies #[trigger] self.child(
                x,
            ) == old(self).child(x) by {
                assert(self.child(x) == roomy.child(x));
                assert(roomy.child(x) == old(self).child(x));
            }
        }
    }

    /// Takes out the child of an inner node that `valid_key` leads to. The
    /// node keeps its variant.
    pub fn remove_child(&mut self, valid_key: (u8, bool)) -> (removed: Option<ArtNode<V, P>>)
        requires
            old(self).node_wf(),
        ensures
            match removed {
                Some(c) => {
                    &&& c == old(self).child_at(valid_key)
                    &&& !(c is Empty)
                    &&& old(self).is_inner()
                    &&& final(self).node_wf()
                    &&& final(self).same_variant(*old(self))
                    &&& final(self).child_at(valid_key) is Empty
                    &&& final(self).head() == if valid_key.1 {
                        old(self).head().with_count((old(self).count() - 1) as u16)
                    } else {
                        old(self).head()
                    }
                    &&& valid_key.1 ==> old(self).count() > 0
                    &&& valid_key.1 ==> final(self).prefixed() == old(self).prefixed()
                    &&& forall|x: u8|
                        !(valid_key.1 && x == valid_key.0) ==> #[trigger] final(self).child(x)
                            == old(self).child(x)
                },
                None => old(self).child_at(valid_key) is Empty && *final(self) == *old(self),
            },
    {
        proof {
            reveal(ArtNode::child);
            reveal(ArtNode::node_wf);
        }
        match self {
            ArtNode::Node4(n4) => n4.remove_child(valid_key),
            ArtNode::Node16(n16) => n16.remove_child(valid_key),
            ArtNode::Node48(n48) => n48.remove_child(valid_key),
            ArtNode::Node256(n256) => n256.remove_child(valid_key),
            _ => None,
        }
    }

    /// An inner node from which one child has been taken since it was at
    /// rest has at least this many left.
    pub open spec fn nearly_at_rest(self) -> bool {
        match self {
            ArtNode::Node4(_) => self.total() >= 1,
            ArtNode::Node16(_) => self.count() >= 4,
            ArtNode::Node48(_) => self.count() >= 16,
            ArtNode::Node256(_) => self.count() >= 48,
            _ => true,
        }
    }

    /// The only child of a `Node4` that has one child left, the prefixed
    /// child counted.
    pub open spec fn only_child(self) -> ArtNode<V, P> {
        if self.count() == 0 {
            self.prefixed()
        } else {
            self->Node4_0.children@[0]
        }
    }

    /// The key byte under which the only child of a `Node4` stands.
    pub open spec fn only_byte(self) -> u8 {
        self->Node4_0.key@[0]
    }

    /// The only child of a `Node4` is its child under its only key byte, and
    /// no other byte has a child.
    pub proof fn lemma_only_child(self)
        requires
            self is Node4,
            self.node_wf(),
            self.total() == 1,
        ensures
            self.count() == 1 ==> self.child(self.only_byte()) == self.only_child() && !(
            self.only_child() is Empty) && self.prefixed() is Empty,
            self.count() == 0 ==> !(self.only_child() is Empty),
            forall|b: u8|
                !(self.count() == 1 && b == self.only_byte()) ==> (#[trigger] self.child(b)) is Empty,
    {
        reveal(ArtNode::child);
        reveal(ArtNode::node_wf);
        let n = self->Node4_0;
        if self.count() == 1 {
            crate::sorted::lemma_slot_found(n.key@, 0);
        }
        assert forall|b: u8| !(self.count() == 1 && b == self.only_byte()) implies (
        #[trigger] self.child(b)) is Empty by {
            crate::sorted::lemma_slot_range(n.key@, b);
        }
    }

    /// Brings an inner node that has too few children for its variant to the
    /// next smaller variant, with the same header and children. A `Node4`
    /// gives way to its only child; an inner node that comes up in this way
    /// takes over the path of the node that goes.
    pub fn shrink_to_fit(&mut self)
        requires
            old(self).is_inner(),
            old(self).node_wf(),
            old(self).nearly_at_rest(),
            *old(self) is Node4 && old(self).total() == 1 && old(self).count() == 1 && old(
                self,
            ).only_child().is_inner() ==> old(self).head().partial.len + 1 + old(
                self,
            ).only_child().head().partial.len <= usize::MAX,
        ensures
            old(self).occupancy_ok() ==> *final(self) == *old(self),
            !old(self).occupancy_ok() && !(*old(self) is Node4) ==> {
                &&& final(self).node_wf()
                &&& final(self).rank() == old(self).rank() - 1
                &&& final(self).head() == old(self).head()
                &&& final(self).prefixed() == old(self).prefixed()
                &&& forall|b: u8| #[trigger] final(self).child(b) == old(self).child(b)
            },
            !old(self).occupancy_ok() && *old(self) is Node4 ==> {
                let c = old(self).only_child();
                if c.is_inner() && old(self).count() == 1 {
                    &&& final(self).same_variant(c)
                    &&& final(self).head().path == c.head().path
                    &&& final(self).head().non_null_children == c.head().non_null_children
                    &&& old(self).head().partial.is_merged(
                        old(self).only_byte(),
                        c.head().partial,
                        final(self).head().partial,
                    )
                    &&& final(self).prefixed() == c.prefixed()
                    &&& forall|b: u8| #[trigger] final(self).child(b) == c.child(b)
                    &&& c.node_wf() ==> final(self).node_wf()
                } else {
                    *final(self) == c
                }
            },
    {
        proof {
            reveal(ArtNode::child);
            reveal(ArtNode::node_wf);
        }
        if !self.is_few() {
            return ;
        }
        let taken_node = self.take();
        *self = match taken_node {
            ArtNode::Node4(n4) => (*n4).shrink_to_fit(),
            ArtNode::Node16(n16) => ArtNode::node4(Box::new((*n16).shrink_to_fit())),
            ArtNode::Node48(n48) => ArtNode::node16(Box::new((*n48).shrink_to_fit())),
            ArtNode::Node256(n256) => ArtNode::node48(Box::new((*n256).shrink_to_fit())),
            other => other,
        };
    }

    /// The value of a leaf.
    pub fn take_leaf(self) -> (val: Option<V>)
        ensures
            val == if self is Leaf {
                Some(self->Leaf_0.val)
            } else {
                None
            },
    {
        match self {
            ArtNode::Leaf(leaf) => {
                let leaf = *leaf;
                Some(leaf.val)
            },
            _ => None,
        }
    }
}

} // verus!
