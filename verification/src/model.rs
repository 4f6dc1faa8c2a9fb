use vstd::prelude::*;

use crate::leaf::Leaf;
use crate::node::{key_at, ArtNode};

verus! {

/// Whether `s` starts with `p`.
pub open spec fn is_prefix(p: Seq<u8>, s: Seq<u8>) -> bool {
    &&& p.len() <= s.len()
    &&& forall|i: int| 0 <= i < p.len() ==> #[trigger] p[i] == s[i]
}

impl<V, const P: usize> ArtNode<V, P> {
    /// The bytes that every key below the node starts with: for a leaf its
    /// key, for an inner node the bytes consumed on the way to it followed by
    /// its compressed path.
    pub open spec fn path(self) -> Seq<u8> {
        match self {
            ArtNode::Empty => Seq::empty(),
            ArtNode::Leaf(l) => l.key@,
            _ => self.head().path@,
        }
    }

    /// An inner node that is reached after `depth` key bytes is consistent
    /// in itself: its bookkeeping holds, its compressed path has the length
    /// that the header says and the stored bytes are its first, and the
    /// prefixed child is the leaf whose key ends at the node.
    pub open spec fn shape(self, depth: int) -> bool {
        let h = self.head();
        &&& self.is_inner()
        &&& self.node_wf()
        &&& h.path@.len() == depth + h.partial.len
        &&& h.path@.len() <= usize::MAX
        &&& forall|i: int|
            0 <= i < h.partial.stored() ==> #[trigger] h.partial.data@[i] == h.path@[depth + i]
        &&& (self.prefixed() is Empty || (self.prefixed() is Leaf && self.prefixed()->Leaf_0.key@
            == h.path@))
    }

    /// The subtree that is reached after `depth` key bytes is well formed.
    ///
    /// A leaf is well formed where its key has `depth` bytes at least. An
    /// inner node is well formed where
    /// - it is consistent in itself (see `shape`),
    /// - every child under a key byte is well formed after the node's path
    ///   and that byte, and its keys go on with that byte,
    /// - it has the number of children that its variant asks for (see
    ///   `occupancy_ok`).
    ///
    /// The last point is asked of the node itself only with `at_rest`; it is
    /// asked of every node below in any case.
    pub open spec fn sound(self, depth: int, at_rest: bool) -> bool
        decreases self,
        via Self::sound_decreases
    {
        match self {
            ArtNode::Empty => true,
            ArtNode::Leaf(l) => depth <= l.key@.len(),
            _ => {
                &&& self.shape(depth)
                &&& at_rest ==> self.occupancy_ok()
                &&& forall|b: u8|
                    #![trigger self.child(b)]
                    self.child(b) is Empty || (self.child(b).sound(
                        (self.head().path@.len() + 1) as int,
                        true,
                    ) && is_prefix(self.head().path@.push(b), self.child(b).path()))
            },
        }
    }

    #[via_fn]
    proof fn sound_decreases(self, depth: int, at_rest: bool) {
        assert forall|b: u8| !(self.child(b) is Empty) implies decreases_to!(self => self.child(b)) by {
            self.lemma_child_smaller(b);
        }
    }

    /// The subtree that is reached after `depth` key bytes is well formed:
    /// the invariants of the tree hold in it.
    pub open spec fn wf(self, depth: int) -> bool {
        self.sound(depth, true)
    }

    /// The value that the subtree holds for `key`, where the subtree is
    /// reached after `depth` bytes of the key.
    pub open spec fn lookup(self, key: Seq<u8>, depth: int) -> Option<V>
        decreases self,
        via Self::lookup_decreases
    {
        match self {
            ArtNode::Empty => None,
            ArtNode::Leaf(l) => if l.key@ == key {
                Some(l.val)
            } else {
                None
            },
            _ => {
                let d = depth + self.head().partial.len;
                let c = self.child_at(key_at(key, d));
                if key.len() < d || c is Empty {
                    None
                } else {
                    c.lookup(key, d + 1)
                }
            },
        }
    }

    #[via_fn]
    proof fn lookup_decreases(self, key: Seq<u8>, depth: int) {
        let d = depth + self.head().partial.len;
        self.lemma_child_smaller(key_at(key, d).0);
    }

    /// Whether a leaf of the subtree holds the key `key` with the value
    /// `val`.
    pub open spec fn stores(self, key: Seq<u8>, val: V) -> bool
        decreases self,
        via Self::stores_decreases
    {
        match self {
            ArtNode::Empty => false,
            ArtNode::Leaf(l) => l.key@ == key && l.val == val,
            _ => {
                ||| !(self.prefixed() is Empty) && self.prefixed().stores(key, val)
                ||| exists|b: u8|
                    #![trigger self.child(b)]
                    !(self.child(b) is Empty) && self.child(b).stores(key, val)
            },
        }
    }

    #[via_fn]
    proof fn stores_decreases(self, key: Seq<u8>, val: V) {
        self.lemma_child_smaller(0);
        assert forall|b: u8| !(self.child(b) is Empty) implies decreases_to!(self => self.child(b)) by {
            self.lemma_child_smaller(b);
        }
    }

    /// The smallest key byte under which the node has a child.
    pub open spec fn min_byte(self) -> u8 {
        choose|b: u8| !(self.child(b) is Empty) && forall|x: u8| x < b ==> self.child(x) is Empty
    }

    /// The prefixed child where there is one, else the child under the
    /// smallest key byte.
    pub open spec fn min_child(self) -> ArtNode<V, P> {
        if self.prefixed() is Empty {
            self.child(self.min_byte())
        } else {
            self.prefixed()
        }
    }

    /// The leaf at the end of the walk that takes the minimum child at every
    /// inner node.
    pub open spec fn min_leaf(self) -> Option<Leaf<V>>
        decreases self,
        via Self::min_leaf_decreases
    {
        match self {
            ArtNode::Empty => None,
            ArtNode::Leaf(l) => Some(*l),
            _ => {
                let c = self.min_child();
                if c is Empty {
                    None
                } else {
                    c.min_leaf()
                }
            },
        }
    }

    #[via_fn]
    proof fn min_leaf_decreases(self) {
        self.lemma_child_smaller(self.min_byte());
    }

    /// A well-formed inner node has at least two children, the prefixed child
    /// counted.
    pub proof fn lemma_at_rest_total(self, depth: int)
        requires
            self.sound(depth, true),
            self.is_inner(),
        ensures
            self.total() >= 2,
            self.occupancy_ok(),
    {
    }

    /// A child that stands under a key byte below which there is no child is
    /// the minimum child of a node without prefixed child.
    pub proof fn lemma_min_child(self, b: u8)
        requires
            self.prefixed() is Empty,
            !(self.child(b) is Empty),
            forall|x: u8| x < b ==> (#[trigger] self.child(x)) is Empty,
        ensures
            self.min_byte() == b,
            self.min_child() == self.child(b),
    {
        let m = self.min_byte();
        assert(!(self.child(m) is Empty) && forall|x: u8| x < m ==> self.child(x) is Empty);
        if m < b {
            assert(self.child(m) is Empty);
        } else if b < m {
            assert(self.child(b) is Empty);
        }
    }

    /// Every key that a well-formed subtree holds starts with the subtree's
    /// path.
    pub proof fn lemma_keys_extend_path(self, key: Seq<u8>, depth: int, at_rest: bool)
        requires
            self.sound(depth, at_rest),
            self.lookup(key, depth) is Some,
        ensures
            is_prefix(self.path(), key),
        decreases self,
    {
        match self {
            ArtNode::Empty => {},
            ArtNode::Leaf(l) => {},
            _ => {
                let d = depth + self.head().partial.len;
                let vk = key_at(key, d);
                let c = self.child_at(vk);
                if vk.1 {
                    self.lemma_child_smaller(vk.0);
                    assert(c == self.child(vk.0));
                    c.lemma_keys_extend_path(key, d + 1, true);
                    assert(self.path().push(vk.0)[d] == vk.0);
                    assert forall|i: int| 0 <= i < self.path().len() implies #[trigger] self.path()[i]
                        == key[i] by {
                        assert(self.path().push(vk.0)[i] == self.path()[i]);
                    }
                } else {
                    assert(c.lookup(key, d + 1) is Some);
                }
            },
        }
    }

    /// A well-formed subtree that is not empty holds the key of its minimum
    /// leaf, and that key starts with the subtree's path.
    pub proof fn lemma_min_leaf_found(self, depth: int, at_rest: bool)
        requires
            self.sound(depth, at_rest),
            !(self is Empty),
            self.is_inner() ==> self.total() >= 1,
        ensures
            self.min_leaf() is Some,
            is_prefix(self.path(), self.min_leaf()->0.key@),
            self.lookup(self.min_leaf()->0.key@, depth) == Some(self.min_leaf()->0.val),
        decreases self,
    {
        match self {
            ArtNode::Empty => {},
            ArtNode::Leaf(l) => {},
            _ => {
                let d = depth + self.head().partial.len;
                let path = self.path();
                if self.prefixed() is Empty {
                    let w = self.lemma_count_witness();
                    let b = self.lemma_first_child(w);
                    self.lemma_min_child(b);
                    let c = self.child(b);
                    self.lemma_child_smaller(b);
                    if c.is_inner() {
                        c.lemma_at_rest_total(d + 1);
                    }
                    c.lemma_min_leaf_found(d + 1, true);
                    let k = c.min_leaf()->0.key@;
                    assert(is_prefix(path.push(b), c.path()));
                    assert(is_prefix(c.path(), k));
                    assert(self.min_leaf() == c.min_leaf());
                    assert(path.push(b)[d] == b);
                    assert(k[d] == b);
                    assert(key_at(k, d) == (b, true));
                    assert forall|i: int| 0 <= i < path.len() implies #[trigger] path[i] == k[i] by {
                        assert(path.push(b)[i] == path[i]);
                    }
                } else {
                    let c = self.prefixed();
                    let k = c->Leaf_0.key@;
                    assert(key_at(k, d) == (0u8, false));
                    assert(c.min_leaf() == Some(*c->Leaf_0));
                    assert(c.lookup(k, d + 1) == Some(c->Leaf_0.val));
                }
            },
        }
    }

    /// Where a node has a child under `w`, it has a child under a smallest
    /// key byte.
    pub proof fn lemma_first_child(self, w: u8) -> (b: u8)
        requires
            !(self.child(w) is Empty),
        ensures
            !(self.child(b) is Empty),
            forall|x: u8| x < b ==> (#[trigger] self.child(x)) is Empty,
        decreases w,
    {
        if exists|x: u8| x < w && !(self.child(x) is Empty) {
            let x = choose|x: u8| x < w && !(self.child(x) is Empty);
            self.lemma_first_child(x)
        } else {
            w
        }
    }

    /// An inner node keeps what it holds when its compressed path is cut or
    /// extended at the front and the node is reached after as many bytes
    /// more or fewer, and when it changes its variant.
    pub proof fn lemma_repathed(self, moved: Self, depth: int, new_depth: int, at_rest: bool)
        requires
            self.is_inner(),
            self.sound(depth, at_rest),
            moved.is_inner(),
            at_rest ==> moved.occupancy_ok(),
            moved.node_wf(),
            moved.head().path == self.head().path,
            moved.head().non_null_children == self.head().non_null_children,
            moved.prefixed() == self.prefixed(),
            forall|b: u8| #[trigger] moved.child(b) == self.child(b),
            moved.head().partial.len + new_depth == self.head().path@.len(),
            forall|i: int|
                0 <= i < moved.head().partial.stored() ==> #[trigger] moved.head().partial.data@[i]
                    == self.head().path@[new_depth + i],
        ensures
            moved.sound(new_depth, at_rest),
            moved.path() == self.path(),
            forall|k: Seq<u8>| #[trigger] moved.lookup(k, new_depth) == self.lookup(k, depth),
    {
        assert(moved.shape(new_depth));
        assert forall|b: u8|
            #![trigger moved.child(b)]
            moved.child(b) is Empty || (moved.child(b).sound(
                (moved.head().path@.len() + 1) as int,
                true,
            ) && is_prefix(moved.head().path@.push(b), moved.child(b).path())) by {
            assert(moved.child(b) == self.child(b));
        }
        assert forall|k: Seq<u8>| #[trigger] moved.lookup(k, new_depth) == self.lookup(k, depth) by {
            let d = self.head().path@.len() as int;
            assert(moved.child_at(key_at(k, d)) == self.child_at(key_at(k, d)));
        }
    }

    /// A node with two children, one of them a leaf, is well formed and
    /// holds that leaf's entry beside what the other child holds.
    pub proof fn lemma_branch(
        self,
        depth: int,
        first_edge: (u8, bool),
        first: Self,
        leaf_edge: (u8, bool),
        leaf: Self,
    )
        requires
            self is Node4,
            self.shape(depth),
            leaf is Leaf,
            is_prefix(self.head().path@, leaf->Leaf_0.key@),
            leaf_edge == key_at(leaf->Leaf_0.key@, self.head().path@.len() as int),
            first_edge != leaf_edge,
            !(first is Empty),
            first_edge.1 ==> first.sound(self.head().path@.len() as int + 1, true) && is_prefix(
                self.head().path@.push(first_edge.0),
                first.path(),
            ),
            !first_edge.1 ==> first_edge.0 == 0 && first is Leaf && first->Leaf_0.key@
                == self.head().path@,
            self.child_at(first_edge) == first,
            self.child_at(leaf_edge) == leaf,
            self.total() == 2,
            first_edge.1 && leaf_edge.1 ==> self.prefixed() is Empty,
            forall|b: u8|
                !(first_edge.1 && b == first_edge.0) && !(leaf_edge.1 && b == leaf_edge.0) ==> (
                #[trigger] self.child(b)) is Empty,
        ensures
            self.wf(depth),
            forall|k: Seq<u8>| #[trigger]
                self.lookup(k, depth) == if k == leaf->Leaf_0.key@ {
                    Some(leaf->Leaf_0.val)
                } else if k.len() >= self.head().path@.len() && key_at(
                    k,
                    self.head().path@.len() as int,
                ) == first_edge {
                    first.lookup(k, self.head().path@.len() as int + 1)
                } else {
                    None
                },
    {
        let path = self.head().path@;
        let at = path.len() as int;
        let key = leaf->Leaf_0.key@;
        assert forall|b: u8|
            #![trigger self.child(b)]
            self.child(b) is Empty || (self.child(b).sound(at + 1, true) && is_prefix(
                path.push(b),
                self.child(b).path(),
            )) by {
            if first_edge.1 && b == first_edge.0 {
                assert(self.child(b) == first);
            } else if leaf_edge.1 && b == leaf_edge.0 {
                assert(self.child(b) == leaf);
                assert(key[at] == b);
            }
        }
        assert forall|k: Seq<u8>| #[trigger]
            self.lookup(k, depth) == if k == key {
                Some(leaf->Leaf_0.val)
            } else if k.len() >= at && key_at(k, at) == first_edge {
                first.lookup(k, at + 1)
            } else {
                None
            } by {
            let vk = key_at(k, at);
            let c = self.child_at(vk);
            if k.len() >= at {
                if vk == leaf_edge {
                    assert(c == leaf);
                    assert(c.lookup(k, at + 1) == if k == key {
                        Some(leaf->Leaf_0.val)
                    } else {
                        None
                    });
                } else if vk == first_edge {
                    assert(c == first);
                } else {
                    assert(c is Empty);
                }
            }
        }
    }

    /// Whether `after` is the inner node `self` with another child under
    /// `edge`, a child that fits there.
    pub open spec fn child_swapped(self, after: Self, edge: (u8, bool)) -> bool {
        &&& after.same_variant(self)
        &&& after.node_wf()
        &&& after.head() == self.head()
        &&& edge.1 ==> after.prefixed() == self.prefixed()
        &&& forall|b: u8| !(edge.1 && b == edge.0) ==> #[trigger] after.child(b) == self.child(b)
        &&& !(after.child_at(edge) is Empty)
        &&& edge.1 ==> after.child_at(edge).sound(self.head().path@.len() as int + 1, true)
            && is_prefix(self.head().path@.push(edge.0), after.child_at(edge).path())
        &&& !edge.1 ==> after.child_at(edge) is Leaf && after.child_at(edge)->Leaf_0.key@
            == self.head().path@
    }

    /// An inner node in which one child has given way to another is well
    /// formed as before, and holds what it held but for the keys that lead
    /// to that child: for them it holds what the new child holds.
    pub proof fn lemma_child_replaced(
        self,
        after: Self,
        depth: int,
        edge: (u8, bool),
        at_rest: bool,
    )
        requires
            self.is_inner(),
            self.sound(depth, at_rest),
            !edge.1 ==> edge.0 == 0,
            !(self.child_at(edge) is Empty),
            self.child_swapped(after, edge),
        ensures
            after.sound(depth, at_rest),
            after.path() == self.path(),
            forall|k: Seq<u8>| #[trigger]
                after.lookup(k, depth) == if k.len() >= self.head().path@.len() && key_at(
                    k,
                    self.head().path@.len() as int,
                ) == edge {
                    after.child_at(edge).lookup(k, self.head().path@.len() as int + 1)
                } else {
                    self.lookup(k, depth)
                },
    {
        let path = self.head().path@;
        let at = path.len() as int;
        assert(after.shape(depth));
        assert forall|b: u8|
            #![trigger after.child(b)]
            after.child(b) is Empty || (after.child(b).sound(at + 1, true) && is_prefix(
                path.push(b),
                after.child(b).path(),
            )) by {
            if !(edge.1 && b == edge.0) {
                assert(after.child(b) == self.child(b));
            }
        }
        assert forall|k: Seq<u8>| #[trigger]
            after.lookup(k, depth) == if k.len() >= at && key_at(k, at) == edge {
                after.child_at(edge).lookup(k, at + 1)
            } else {
                self.lookup(k, depth)
            } by {
            let vk = key_at(k, at);
            if k.len() >= at && vk != edge {
                assert(after.child_at(vk) == self.child_at(vk));
            }
        }
    }

    /// An inner node that has taken a leaf under an edge that was free is
    /// well formed and holds the leaf's entry beside what it held.
    pub proof fn lemma_child_added(self, after: Self, depth: int, edge: (u8, bool), leaf: Self)
        requires
            self.is_inner(),
            self.wf(depth),
            leaf is Leaf,
            is_prefix(self.head().path@, leaf->Leaf_0.key@),
            edge == key_at(leaf->Leaf_0.key@, self.head().path@.len() as int),
            self.child_at(edge) is Empty,
            after.node_wf(),
            after.rank() == if edge.1 && self.count() == self.capacity() {
                self.rank() + 1
            } else {
                self.rank()
            },
            after.child_at(edge) == leaf,
            after.head() == if edge.1 {
                self.head().with_count((self.count() + 1) as u16)
            } else {
                self.head()
            },
            edge.1 ==> after.prefixed() == self.prefixed(),
            forall|b: u8| !(edge.1 && b == edge.0) ==> #[trigger] after.child(b) == self.child(b),
        ensures
            after.wf(depth),
            after.path() == self.path(),
            forall|k: Seq<u8>| #[trigger]
                after.lookup(k, depth) == if k == leaf->Leaf_0.key@ {
                    Some(leaf->Leaf_0.val)
                } else {
                    self.lookup(k, depth)
                },
    {
        let path = self.head().path@;
        let at = path.len() as int;
        let key = leaf->Leaf_0.key@;
        if !edge.1 {
            assert(key =~= path);
        }
        self.lemma_count_capacity();
        assert(after.is_inner());
        assert(after.shape(depth));
        assert(after.occupancy_ok());
        assert forall|b: u8|
            #![trigger after.child(b)]
            after.child(b) is Empty || (after.child(b).sound(at + 1, true) && is_prefix(
                path.push(b),
                after.child(b).path(),
            )) by {
            if edge.1 && b == edge.0 {
                assert(after.child(b) == leaf);
                assert(key[at] == b);
            } else {
                assert(after.child(b) == self.child(b));
            }
        }
        assert forall|k: Seq<u8>| #[trigger]
            after.lookup(k, depth) == if k == key {
                Some(leaf->Leaf_0.val)
            } else {
                self.lookup(k, depth)
            } by {
            let vk = key_at(k, at);
            if k.len() >= at {
                if vk == edge {
                    assert(after.child_at(vk) == leaf);
                    assert(leaf.lookup(k, at + 1) == if k == key {
                        Some(leaf->Leaf_0.val)
                    } else {
                        None
                    });
                } else {
                    assert(after.child_at(vk) == self.child_at(vk));
                }
            }
        }
    }

    /// An inner node from which a leaf has been taken is well formed but for
    /// its own number of children, and holds what it held but for the leaf's
    /// entry.
    pub proof fn lemma_child_removed(self, after: Self, depth: int, edge: (u8, bool))
        requires
            self.is_inner(),
            self.wf(depth),
            self.child_at(edge) is Leaf,
            edge == key_at(self.child_at(edge)->Leaf_0.key@, self.head().path@.len() as int),
            edge.1 ==> self.count() > 0,
            after.node_wf(),
            after.same_variant(self),
            after.child_at(edge) is Empty,
            after.head() == if edge.1 {
                self.head().with_count((self.count() - 1) as u16)
            } else {
                self.head()
            },
            edge.1 ==> after.prefixed() == self.prefixed(),
            forall|b: u8| !(edge.1 && b == edge.0) ==> #[trigger] after.child(b) == self.child(b),
        ensures
            after.sound(depth, false),
            after.nearly_at_rest(),
            after.path() == self.path(),
            forall|k: Seq<u8>| #[trigger]
                after.lookup(k, depth) == if k == self.child_at(edge)->Leaf_0.key@ {
                    None
                } else {
                    self.lookup(k, depth)
                },
    {
        let path = self.head().path@;
        let at = path.len() as int;
        let leaf = self.child_at(edge);
        let key = leaf->Leaf_0.key@;
        self.lemma_count_capacity();
        if edge.1 {
            assert(self.child(edge.0).sound(at + 1, true));
        }
        assert(after.shape(depth));
        assert forall|b: u8|
            #![trigger after.child(b)]
            after.child(b) is Empty || (after.child(b).sound(at + 1, true) && is_prefix(
                path.push(b),
                after.child(b).path(),
            )) by {
            if !(edge.1 && b == edge.0) {
                assert(after.child(b) == self.child(b));
            }
        }
        assert forall|k: Seq<u8>| #[trigger]
            after.lookup(k, depth) == if k == key {
                None
            } else {
                self.lookup(k, depth)
            } by {
            let vk = key_at(k, at);
            if k.len() >= at {
                if vk == edge {
                    assert(self.child_at(vk) == leaf);
                    assert(leaf.lookup(k, at + 1) == if k == key {
                        Some(leaf->Leaf_0.val)
                    } else {
                        None
                    });
                } else {
                    assert(after.child_at(vk) == self.child_at(vk));
                }
            }
        }
    }

    /// A `Node4` with one child left can hand its path to that child: the
    /// lengths add up to no more than a key's length.
    pub proof fn lemma_collapse_ready(self, depth: int)
        requires
            self is Node4,
            self.sound(depth, false),
            0 <= depth,
            self.total() == 1,
            self.count() == 1,
            self.only_child().is_inner(),
        ensures
            self.head().partial.len + 1 + self.only_child().head().partial.len <= usize::MAX,
    {
        self.lemma_only_child();
        let c = self.child(self.only_byte());
        assert(c.sound(self.head().path@.len() as int + 1, true));
    }

    /// What `shrink_to_fit` leaves in the place of an inner node is well
    /// formed and holds what the node held.
    pub proof fn lemma_shrunk(self, after: Self, depth: int)
        requires
            self.is_inner(),
            self.sound(depth, false),
            0 <= depth,
            self.nearly_at_rest(),
            self.occupancy_ok() ==> after == self,
            !self.occupancy_ok() && !(self is Node4) ==> {
                &&& after.node_wf()
                &&& after.rank() == self.rank() - 1
                &&& after.head() == self.head()
                &&& after.prefixed() == self.prefixed()
                &&& forall|b: u8| #[trigger] after.child(b) == self.child(b)
            },
            !self.occupancy_ok() && self is Node4 ==> {
                let c = self.only_child();
                if c.is_inner() && self.count() == 1 {
                    &&& after.same_variant(c)
                    &&& after.head().path == c.head().path
                    &&& after.head().non_null_children == c.head().non_null_children
                    &&& self.head().partial.is_merged(
                        self.only_byte(),
                        c.head().partial,
                        after.head().partial,
                    )
                    &&& after.prefixed() == c.prefixed()
                    &&& forall|b: u8| #[trigger] after.child(b) == c.child(b)
                    &&& c.node_wf() ==> after.node_wf()
                } else {
                    after == c
                }
            },
        ensures
            after.wf(depth),
            !(after is Empty),
            is_prefix(self.path(), after.path()),
            forall|k: Seq<u8>| #[trigger] after.lookup(k, depth) == self.lookup(k, depth),
    {
        let path = self.head().path@;
        let at = path.len() as int;
        if self.occupancy_ok() {
        } else if !(self is Node4) {
            self.lemma_count_capacity();
            assert(after.is_inner());
            assert(after.occupancy_ok());
            self.lemma_repathed(after, depth, depth, false);
        } else {
            self.lemma_only_child();
            let c = self.only_child();
            if self.count() == 0 {
                // The prefixed child is left: the leaf whose key ends here.
                assert(c == self.prefixed());
                let key = c->Leaf_0.key@;
                assert forall|k: Seq<u8>| #[trigger] after.lookup(k, depth) == self.lookup(k, depth) by {
                    let vk = key_at(k, at);
                    if k.len() >= at {
                        if vk.1 {
                            assert(self.child(vk.0) is Empty);
                        } else {
                            assert(k.len() == at);
                            assert(c.lookup(k, at + 1) == c.lookup(k, depth));
                        }
                    }
                }
            } else {
                let edge = self.only_byte();
                assert(c == self.child(edge));
                assert(c.sound(at + 1, true));
                assert(is_prefix(path.push(edge), c.path()));
                assert(path.push(edge)[at] == edge);
                assert forall|i: int| 0 <= i < path.len() implies #[trigger] path[i] == c.path()[i] by {
                    assert(path.push(edge)[i] == path[i]);
                }
                if c.is_inner() {
                    let merged = after.head().partial;
                    let all = self.head().partial.bytes().push(edge) + c.head().partial.bytes();
                    assert forall|i: int| 0 <= i < merged.stored() implies #[trigger] merged.data@[i]
                        == c.head().path@[depth + i] by {
                        assert(merged.data@[i] == all[i]);
                        let own = self.head().partial.stored() as int;
                        if i < own {
                            assert(all[i] == self.head().partial.data@[i]);
                            assert(self.head().partial.data@[i] == path[depth + i]);
                        } else if i == own {
                            assert(all[i] == edge);
                        } else {
                            assert(all[i] == c.head().partial.data@[i - own - 1]);
                            assert(c.head().partial.data@[i - own - 1] == c.head().path@[at + 1 + (i
                                - own - 1)]);
                        }
                    }
                    c.lemma_repathed(after, at + 1, depth, true);
                }
                assert forall|k: Seq<u8>| #[trigger] after.lookup(k, depth) == self.lookup(k, depth) by {
                    let vk = key_at(k, at);
                    assert(after.lookup(k, depth) == c.lookup(k, at + 1));
                    if c.lookup(k, at + 1) is Some {
                        c.lemma_keys_extend_path(k, at + 1, true);
                        assert(k[at] == edge);
                    }
                    if k.len() >= at && vk != (edge, true) {
                        if vk.1 {
                            assert(self.child(vk.0) is Empty);
                        }
                    }
                }
            }
        }
    }

    /// Every key of a leaf of a well-formed subtree starts with the
    /// subtree's path.
    pub proof fn lemma_leaves_extend_path(self, key: Seq<u8>, val: V, depth: int, at_rest: bool)
        requires
            self.sound(depth, at_rest),
            self.stores(key, val),
        ensures
            is_prefix(self.path(), key),
        decreases self,
    {
        if self.is_inner() {
            let path = self.path();
            if !(self.prefixed() is Empty) && self.prefixed().stores(key, val) {
                assert(self.prefixed()->Leaf_0.key@ == key);
            } else {
                let b = choose|b: u8|
                    #![trigger self.child(b)]
                    !(self.child(b) is Empty) && self.child(b).stores(key, val);
                self.lemma_child_smaller(b);
                self.child(b).lemma_leaves_extend_path(key, val, path.len() as int + 1, true);
                assert forall|i: int| 0 <= i < path.len() implies #[trigger] path[i] == key[i] by {
                    assert(path.push(b)[i] == path[i]);
                }
            }
        }
    }

    /// A well-formed subtree finds exactly what its leaves hold: the search
    /// for a key ends at the leaf that holds the key, and at no other.
    pub proof fn lemma_lookup_finds_leaves(self, key: Seq<u8>, val: V, depth: int, at_rest: bool)
        requires
            self.sound(depth, at_rest),
        ensures
            self.stores(key, val) <==> self.lookup(key, depth) == Some(val),
        decreases self,
    {
        if self.is_inner() {
            let path = self.path();
            let at = path.len() as int;
            let edge = key_at(key, at);
            self.lemma_child_smaller(edge.0);
            if self.stores(key, val) {
                if !(self.prefixed() is Empty) && self.prefixed().stores(key, val) {
                    let c = self.prefixed();
                    assert(c->Leaf_0.key@ == key);
                    assert(edge == (0u8, false));
                    assert(c.lookup(key, at + 1) == Some(val));
                } else {
                    let b = choose|b: u8|
                        #![trigger self.child(b)]
                        !(self.child(b) is Empty) && self.child(b).stores(key, val);
                    let c = self.child(b);
                    self.lemma_child_smaller(b);
                    c.lemma_leaves_extend_path(key, val, at + 1, true);
                    assert(path.push(b)[at] == b);
                    assert(edge == (b, true));
                    c.lemma_lookup_finds_leaves(key, val, at + 1, true);
                }
            }
            if self.lookup(key, depth) == Some(val) {
                let c = self.child_at(edge);
                if edge.1 {
                    c.lemma_lookup_finds_leaves(key, val, at + 1, true);
                    assert(self.child(edge.0).stores(key, val));
                } else {
                    assert(c.lookup(key, at + 1) == Some(val));
                    assert(c.stores(key, val));
                }
            }
        }
    }

    /// A well-formed subtree holds the key of the minimum leaf of each of
    /// its children, and that key runs over the child's edge.
    pub proof fn lemma_child_key_found(self, depth: int, b: u8)
        requires
            self.is_inner(),
            self.wf(depth),
            !(self.child(b) is Empty),
        ensures
            self.child(b).min_leaf() is Some,
            self.lookup(self.child(b).min_leaf()->0.key@, depth) is Some,
            self.child(b).min_leaf()->0.key@.len() > self.path().len(),
            self.child(b).min_leaf()->0.key@[self.path().len() as int] == b,
    {
        let path = self.path();
        let at = path.len() as int;
        let c = self.child(b);
        if c.is_inner() {
            c.lemma_at_rest_total(at + 1);
        }
        c.lemma_min_leaf_found(at + 1, true);
        let k = c.min_leaf()->0.key@;
        assert(path.push(b)[at] == b);
        assert(k[at] == b);
        assert(key_at(k, at) == (b, true));
    }

    /// No inner node of a well-formed tree stands above a single entry: it
    /// holds at least two keys.
    pub proof fn lemma_inner_holds_two_keys(self, depth: int) -> (keys: (Seq<u8>, Seq<u8>))
        requires
            self.is_inner(),
            self.wf(depth),
        ensures
            keys.0 != keys.1,
            self.lookup(keys.0, depth) is Some,
            self.lookup(keys.1, depth) is Some,
    {
        let path = self.path();
        let at = path.len() as int;
        if self.prefixed() is Empty {
            let (b1, b2) = self.lemma_count_witnesses();
            self.lemma_child_key_found(depth, b1);
            self.lemma_child_key_found(depth, b2);
            (self.child(b1).min_leaf()->0.key@, self.child(b2).min_leaf()->0.key@)
        } else {
            let b = self.lemma_count_witness();
            self.lemma_child_key_found(depth, b);
            assert(key_at(path, at) == (0u8, false));
            assert(self.prefixed().lookup(path, at + 1) is Some);
            (path, self.child(b).min_leaf()->0.key@)
        }
    }
}

} // verus!
