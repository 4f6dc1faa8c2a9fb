use vstd::prelude::*;

use crate::leaf::Leaf;
use crate::model::is_prefix;
use crate::node::{key_at, ArtKeyVerifier, ArtNode};
use crate::Partial;

verus! {

/// Whether `m` is the number of leading bytes that `a` and `b` share.
pub open spec fn is_mismatch(a: Seq<u8>, b: Seq<u8>, m: int) -> bool {
    &&& 0 <= m <= a.len()
    &&& m <= b.len()
    &&& forall|i: int| 0 <= i < m ==> a[i] == b[i]
    &&& m < a.len() && m < b.len() ==> a[m] != b[m]
}

pub struct LazyExpand;

impl LazyExpand {
    /// Number of bytes that the two keys share from `depth` on.
    pub fn longest_common_prefix(leaf_key1: &[u8], leaf_key2: &[u8], depth: usize) -> (shared: usize)
        requires
            depth <= leaf_key1@.len(),
            depth <= leaf_key2@.len(),
        ensures
            is_mismatch(leaf_key1@.skip(depth as int), leaf_key2@.skip(depth as int), shared as int),
            depth + shared <= usize::MAX,
    {
        let len1 = leaf_key1.len() - depth;
        let len2 = leaf_key2.len() - depth;
        let max_len = if len1 < len2 {
            len1
        } else {
            len2
        };
        let mut index: usize = 0;
        while index < max_len
            invariant
                index <= max_len,
                depth + max_len <= leaf_key1@.len() <= usize::MAX,
                depth + max_len <= leaf_key2@.len(),
                max_len == leaf_key1@.len() - depth || max_len == leaf_key2@.len() - depth,
                forall|j: int|
                    0 <= j < index ==> leaf_key1@.skip(depth as int)[j] == leaf_key2@.skip(
                        depth as int,
                    )[j],
            decreases max_len - index,
        {
            assert(leaf_key1@.skip(depth as int)[index as int] == leaf_key1@[depth + index]);
            assert(leaf_key2@.skip(depth as int)[index as int] == leaf_key2@[depth + index]);
            if leaf_key1[depth + index] != leaf_key2[depth + index] {
                return index;
            }
            index += 1;
        }
        max_len
    }

    /// Puts an inner node in the place of a leaf whose key differs from
    /// `key`: the node's compressed path is what the two keys share from
    /// `depth` on, and its two children are the leaf and a new leaf for
    /// `key`.
    pub fn expand<V, const P: usize>(node: ArtNode<V, P>, key: Vec<u8>, val: V, depth: usize) -> (expanded: ArtNode<V, P>)
        requires
            node is Leaf,
            node->Leaf_0.key@ != key@,
            depth <= key@.len(),
            depth <= node->Leaf_0.key@.len(),
            is_prefix(key@.take(depth as int), node->Leaf_0.key@),
        ensures
            expanded is Node4,
            expanded.wf(depth as int),
            is_mismatch(
                node->Leaf_0.key@.skip(depth as int),
                key@.skip(depth as int),
                expanded.head().partial.len as int,
            ),
            expanded.path() == key@.take(depth + expanded.head().partial.len),
            is_prefix(key@.take(depth as int), expanded.path()),
            forall|k: Seq<u8>| #[trigger]
                expanded.lookup(k, depth as int) == if k == key@ {
                    Some(val)
                } else {
                    node.lookup(k, depth as int)
                },
    {
        let ghost old_key = node->Leaf_0.key@;
        let ghost new_key = key@;
        let (shared, old_edge) = match &node {
            ArtNode::Leaf(leaf) => {
                let shared = LazyExpand::longest_common_prefix(
                    leaf.key.as_slice(),
                    key.as_slice(),
                    depth,
                );
                (shared, ArtKeyVerifier::valid(leaf.key.as_slice(), depth + shared))
            },
            _ => (0, (0u8, false)),
        };
        let at = depth + shared;
        let ghost path = new_key.take(at as int);
        proof {
            assert forall|i: int| 0 <= i < at implies #[trigger] new_key[i] == old_key[i] by {
                if i < depth {
                    assert(new_key.take(depth as int)[i] == new_key[i]);
                } else {
                    assert(new_key.skip(depth as int)[i - depth] == new_key[i]);
                    assert(old_key.skip(depth as int)[i - depth] == old_key[i]);
                }
            }
            if at < new_key.len() && at < old_key.len() {
                assert(new_key.skip(depth as int)[shared as int] == new_key[at as int]);
                assert(old_key.skip(depth as int)[shared as int] == old_key[at as int]);
            }
            if at == new_key.len() && at == old_key.len() {
                assert(new_key =~= old_key);
            }
        }
        let partial: Partial<P> = Partial::from_bytes(key.as_slice(), depth, shared);
        let mut expanded: ArtNode<V, P> = ArtNode::inner4(partial, Ghost(path));
        let new_edge = ArtKeyVerifier::valid(key.as_slice(), at);
        expanded.insert_child(old_edge, node);
        let new_leaf: ArtNode<V, P> = ArtNode::leaf(key, val);
        expanded.insert_child(new_edge, new_leaf);
        proof {
            assert(expanded.head().path@ == path);
            assert(expanded.shape(depth as int)) by {
                if !old_edge.1 {
                    assert(old_key =~= path);
                }
                if !new_edge.1 {
                    assert(new_key =~= path);
                }
            }
            expanded.lemma_branch(depth as int, old_edge, node, new_edge, new_leaf);
            assert forall|k: Seq<u8>| #[trigger]
                expanded.lookup(k, depth as int) == if k == new_key {
                    Some(val)
                } else {
                    node.lookup(k, depth as int)
                } by {
                assert(node.lookup(k, at as int + 1) == node.lookup(k, depth as int));
            }
        }
        expanded
    }
}

impl<V, const P: usize> ArtNode<V, P> {
    /// The minimum leaf below a node: the walk takes the prefixed child
    /// where there is one, else the child under the smallest key byte, until
    /// it stands on a leaf. The leaf's key starts with the node's path.
    pub fn minimum_child<'a>(node: &'a ArtNode<V, P>, Ghost(depth): Ghost<int>) -> (min: &'a Leaf<V>)
        requires
            node.is_inner(),
            node.sound(depth, false),
            node.total() >= 1,
        ensures
            node.min_leaf() == Some(*min),
            is_prefix(node.path(), min.key@),
    {
        let mut current: &ArtNode<V, P> = node;
        let ghost mut at: int = depth;
        proof {
            node.lemma_min_leaf_found(depth, false);
        }
        loop
            invariant
                current.is_inner(),
                current.sound(at, false),
                current.total() >= 1,
                current.min_leaf() == node.min_leaf(),
                node.min_leaf() is Some,
                is_prefix(node.path(), node.min_leaf()->0.key@),
            decreases current,
        {
            let child = current.minimum_node();
            proof {
                if current.prefixed() is Empty {
                    if child is Some {
                        let c = *child->0;
                        let b = choose|b: u8|
                            c == current.child(b) && forall|x: u8|
                                x < b ==> (#[trigger] current.child(x)) is Empty;
                        current.lemma_min_child(b);
                    } else {
                        current.lemma_count_witness();
                    }
                }
            }
            match child {
                Some(next) => {
                    proof {
                        assert(*next == current.min_child());
                        assert(current.min_leaf() == next.min_leaf());
                        if current.prefixed() is Empty {
                            current.lemma_child_smaller(current.min_byte());
                            if next.is_inner() {
                                next.lemma_at_rest_total(current.head().path@.len() as int + 1);
                            }
                        } else {
                            current.lemma_child_smaller(0);
                        }
                        at = current.head().path@.len() as int + 1;
                    }
                    match next {
                        ArtNode::Leaf(leaf) => {
                            return &**leaf;
                        },
                        _ => {
                            current = next;
                        },
                    }
                },
                None => {
                    return vstd::pervasive::unreached();
                },
            }
        }
    }

    /// Number of leading bytes of the stored part of the compressed path
    /// that agree with the key from `depth` on.
    pub fn check_prefix_match(&self, key_byte: &[u8], depth: usize) -> (matched: usize)
        requires
            self.is_inner(),
            depth <= key_byte@.len(),
        ensures
            is_mismatch(self.head().partial.bytes(), key_byte@.skip(depth as int), matched as int),
    {
        let header = self.header();
        let stored = header.partial.stored_len();
        let rest = key_byte.len() - depth;
        let max_compare_len = if stored < rest {
            stored
        } else {
            rest
        };
        assert(header.partial.bytes().len() == header.partial.stored());
        let mut i: usize = 0;
        while i < max_compare_len
            invariant
                i <= max_compare_len,
                max_compare_len <= header.partial.stored(),
                max_compare_len <= key_byte@.len() - depth,
                max_compare_len == header.partial.stored() || max_compare_len == key_byte@.len() - depth,
                depth <= key_byte@.len(),
                key_byte@.len() <= usize::MAX,
                *header == self.head(),
                header.partial.bytes().len() == header.partial.stored(),
                header.partial.stored() <= P,
                forall|j: int|
                    0 <= j < i ==> header.partial.bytes()[j] == key_byte@.skip(depth as int)[j],
            decreases max_compare_len - i,
        {
            assert(header.partial.bytes()[i as int] == header.partial.data@[i as int]);
            assert(key_byte@.skip(depth as int)[i as int] == key_byte@[depth + i]);
            if header.partial.data[i] != key_byte[depth + i] {
                return i;
            }
            i += 1;
        }
        max_compare_len
    }

    /// The value stored for `key` in the subtree under `root`, which is
    /// reached after `depth` bytes of the key.
    pub fn get<'a>(root: &'a ArtNode<V, P>, key: &[u8], depth: usize) -> (found: Option<&'a V>)
        requires
            root.wf(depth as int),
            depth <= key@.len(),
        ensures
            match found {
                Some(v) => root.lookup(key@, depth as int) == Some(*v),
                None => root.lookup(key@, depth as int) is None,
            },
    {
        let mut at = depth;
        let mut current: &ArtNode<V, P> = root;
        loop
            invariant
                current.wf(at as int),
                at <= key@.len(),
                root.lookup(key@, depth as int) == current.lookup(key@, at as int),
            decreases current,
        {
            match current {
                ArtNode::Empty => {
                    return None;
                },
                ArtNode::Leaf(leaf) => {
                    // A leaf may stand for a longer path than was walked:
                    // only the whole key decides.
                    if leaf.matches(key) {
                        return Some(&leaf.val);
                    }
                    return None;
                },
                _ => {},
            }
            let header = current.header();
            let ghost node_depth = at as int;
            if header.partial.len > 0 {
                // The stored bytes of the compressed path must agree; the
                // bytes beyond them are checked by the leaf.
                let prefix_matched = current.check_prefix_match(key, at);
                if prefix_matched != header.partial.stored_len() {
                    proof {
                        if current.lookup(key@, node_depth) is Some {
                            current.lemma_keys_extend_path(key@, node_depth, true);
                            let m = prefix_matched as int;
                            assert(header.partial.bytes()[m] == header.partial.data@[m]);
                            assert(header.path@[node_depth + m] == key@[node_depth + m]);
                            assert(key@.skip(node_depth)[m] == key@[node_depth + m]);
                        }
                    }
                    return None;
                }
                if header.partial.len > key.len() - at {
                    return None;
                }
                at += header.partial.len;
            }
            let valid_key = ArtKeyVerifier::valid(key, at);
            match current.get_child(valid_key) {
                Some(child) => {
                    proof {
                        current.lemma_child_smaller(valid_key.0);
                    }
                    assert(current.lookup(key@, node_depth) == child.lookup(key@, at as int + 1));
                    if !valid_key.1 {
                        return match child {
                            ArtNode::Leaf(leaf) => {
                                if leaf.matches(key) {
                                    Some(&leaf.val)
                                } else {
                                    None
                                }
                            },
                            _ => None,
                        };
                    }
                    current = child;
                    at += 1;
                },
                None => {
                    return None;
                },
            }
        }
    }

    /// Number of leading bytes of the whole compressed path that agree with
    /// the key from `depth` on. The bytes that the node does not store are
    /// read from the minimum leaf below it.
    pub fn prefix_mismatch(node: &ArtNode<V, P>, key: &[u8], depth: usize) -> (matched: usize)
        requires
            node.is_inner(),
            node.wf(depth as int),
            depth <= key@.len(),
        ensures
            is_mismatch(node.path().skip(depth as int), key@.skip(depth as int), matched as int),
            matched <= node.head().partial.len,
    {
        let header = node.header();
        let stored = header.partial.stored_len();
        let mut matched_index = node.check_prefix_match(key, depth);
        let ghost path = node.path();
        proof {
            assert forall|i: int| 0 <= i < stored implies header.partial.bytes()[i] == path.skip(
                depth as int,
            )[i] by {
                assert(header.partial.bytes()[i] == header.partial.data@[i]);
            }
        }
        if matched_index < stored || header.partial.len <= P {
            return matched_index;
        }
        proof {
            node.lemma_at_rest_total(depth as int);
        }
        let leaf = ArtNode::minimum_child(node, Ghost(depth as int));
        let leaf_key = leaf.key.as_slice();
        let key_len = key.len();
        let limit = if header.partial.len < key_len - depth {
            header.partial.len
        } else {
            key_len - depth
        };
        while matched_index < limit
            invariant
                matched_index <= limit,
                limit <= header.partial.len,
                limit <= key@.len() - depth,
                limit == header.partial.len || limit == key@.len() - depth,
                depth <= key@.len() <= usize::MAX,
                *header == node.head(),
                path == node.path(),
                path.len() == depth + header.partial.len,
                is_prefix(path, leaf_key@),
                forall|j: int|
                    0 <= j < matched_index ==> path.skip(depth as int)[j] == key@.skip(depth as int)[j],
            decreases limit - matched_index,
        {
            proof {
                let j = matched_index as int;
                assert(path.skip(depth as int)[j] == path[depth + j]);
                assert(path[depth + j] == leaf_key@[depth + j]);
                assert(key@.skip(depth as int)[j] == key@[depth + j]);
            }
            if leaf_key[depth + matched_index] != key[depth + matched_index] {
                return matched_index;
            }
            matched_index += 1;
        }
        matched_index
    }

    /// The parts into which a compressed path falls when it is split at
    /// `pos`: the path before the position, the byte at it, and the path
    /// behind it. Bytes that the node does not store are read from the
    /// minimum leaf below it.
    pub fn split_partial(node: &ArtNode<V, P>, pos: usize, depth: usize) -> (parts: (
        Partial<P>,
        u8,
        Partial<P>,
    ))
        requires
            node.is_inner(),
            node.wf(depth as int),
            pos < node.head().partial.len,
        ensures
            parts.0.len == pos,
            forall|i: int|
                0 <= i < parts.0.stored() ==> #[trigger] parts.0.data@[i] == node.path()[depth + i],
            parts.1 == node.path()[depth + pos],
            parts.2.len == node.head().partial.len - pos - 1,
            forall|i: int|
                0 <= i < parts.2.stored() ==> #[trigger] parts.2.data@[i] == node.path()[depth + pos
                    + 1 + i],
    {
        let ghost path = node.path();
        let header = node.header();
        let at = depth + pos;
        let rest_len = header.partial.len - (pos + 1);
        let stored = header.partial.data.as_slice();
        let front: Partial<P> = Partial::from_bytes(stored, 0, pos);
        proof {
            assert forall|i: int| 0 <= i < front.stored() implies #[trigger] front.data@[i] == path[depth
                + i] by {
                assert(header.partial.data@[i] == path[depth + i]);
            }
        }
        if header.partial.len <= P {
            let rest: Partial<P> = Partial::from_bytes(stored, pos + 1, rest_len);
            proof {
                assert(header.partial.data@[pos as int] == path[depth + pos]);
                assert forall|i: int| 0 <= i < rest.stored() implies #[trigger] rest.data@[i]
                    == path[depth + pos + 1 + i] by {
                    assert(header.partial.data@[pos + 1 + i] == path[depth + (pos + 1 + i)]);
                }
            }
            (front, stored[pos], rest)
        } else {
            proof {
                node.lemma_at_rest_total(depth as int);
            }
            let leaf = ArtNode::minimum_child(node, Ghost(depth as int));
            let leaf_key = leaf.key.as_slice();
            let available = leaf_key.len();
            let rest: Partial<P> = Partial::from_bytes(leaf_key, at + 1, rest_len);
            proof {
                assert(path[at as int] == leaf_key@[at as int]);
                assert forall|i: int| 0 <= i < rest.stored() implies #[trigger] rest.data@[i]
                    == path[depth + pos + 1 + i] by {
                    assert(path[at + 1 + i] == leaf_key@[at + 1 + i]);
                }
            }
            (front, leaf_key[at], rest)
        }
    }

    /// Splits the compressed path of an inner node at the position
    /// `prefix_mismatch_pos`, where `key` leaves it: a new `Node4` takes the
    /// node's place and the part of the path before that position; the node
    /// keeps the part behind it and hangs under the byte at the position,
    /// beside a new leaf for `key`.
    pub fn compression(&mut self, prefix_mismatch_pos: usize, key: Vec<u8>, depth: usize, val: V)
        requires
            old(self).is_inner(),
            old(self).wf(depth as int),
            depth <= key@.len(),
            is_prefix(key@.take(depth as int), old(self).path()),
            is_mismatch(
                old(self).path().skip(depth as int),
                key@.skip(depth as int),
                prefix_mismatch_pos as int,
            ),
            prefix_mismatch_pos < old(self).head().partial.len,
        ensures
            *final(self) is Node4,
            final(self).wf(depth as int),
            final(self).path() == old(self).path().take(depth + prefix_mismatch_pos),
            forall|k: Seq<u8>| #[trigger]
                final(self).lookup(k, depth as int) == if k == key@ {
                    Some(val)
                } else {
                    old(self).lookup(k, depth as int)
                },
    {
        let ghost before = *self;
        let ghost old_path = self.path();
        let ghost new_key = key@;
        let at = depth + prefix_mismatch_pos;
        let ghost path = old_path.take(at as int);
        let (front, edge, rest) = ArtNode::split_partial(self, prefix_mismatch_pos, depth);
        let mut old_node: ArtNode<V, P> = ArtNode::inner4(front, Ghost(path));
        std::mem::swap(self, &mut old_node);
        let header = old_node.header_mut();
        header.partial = rest;
        let ghost moved = old_node;
        proof {
            before.lemma_repathed(moved, depth as int, at as int + 1, true);
        }
        let new_edge = ArtKeyVerifier::valid(key.as_slice(), at);
        self.insert_child((edge, true), old_node);
        let new_leaf: ArtNode<V, P> = ArtNode::leaf(key, val);
        self.insert_child(new_edge, new_leaf);
        proof {
            before.lemma_split(*self, moved, new_leaf, depth as int, prefix_mismatch_pos as int);
        }
    }

    /// Stores `val` for `key` in the subtree under `node`, which is reached
    /// after `depth` bytes of the key, and returns the value that the key had
    /// before.
    pub fn insert(node: &mut ArtNode<V, P>, key: Vec<u8>, val: V, depth: usize) -> (previous: Option<V>)
        requires
            old(node).wf(depth as int),
            depth <= key@.len(),
            !(*old(node) is Empty) ==> is_prefix(key@.take(depth as int), old(node).path()),
        ensures
            final(node).wf(depth as int),
            !(*final(node) is Empty),
            is_prefix(key@.take(depth as int), final(node).path()),
            previous == old(node).lookup(key@, depth as int),
            forall|k: Seq<u8>| #[trigger]
                final(node).lookup(k, depth as int) == if k == key@ {
                    Some(val)
                } else {
                    old(node).lookup(k, depth as int)
                },
        decreases *old(node),
    {
        let ghost before = *node;
        let ghost new_key = key@;
        match node {
            ArtNode::Empty => {
                *node = ArtNode::leaf(key, val);
                return None;
            },
            ArtNode::Leaf(leaf) => {
                if leaf.matches(key.as_slice()) {
                    let mut val = val;
                    std::mem::swap(&mut leaf.val, &mut val);
                    return Some(val);
                }
            },
            _ => {},
        }
        if node.is_leaf() {
            // Another key ends here: an inner node takes the leaf's place.
            let leaf = node.take();
            *node = LazyExpand::expand(leaf, key, val, depth);
            return None;
        }
        let ghost path = before.path();
        let header = *node.header();
        let mut at = depth;
        if header.partial.len > 0 {
            let mismatched_pos = ArtNode::prefix_mismatch(node, key.as_slice(), depth);
            if mismatched_pos < header.partial.len {
                proof {
                    if before.lookup(new_key, depth as int) is Some {
                        before.lemma_keys_extend_path(new_key, depth as int, true);
                        let m = mismatched_pos as int;
                        assert(path.skip(depth as int)[m] == path[depth + m]);
                        assert(new_key.skip(depth as int)[m] == new_key[depth + m]);
                    }
                    assert(is_prefix(new_key.take(depth as int), path.take(depth + mismatched_pos)))
                        by {
                        assert forall|i: int| 0 <= i < depth implies #[trigger] new_key.take(
                            depth as int,
                        )[i] == path.take(depth + mismatched_pos)[i] by {
                            assert(new_key.take(depth as int)[i] == path[i]);
                        }
                    }
                }
                node.compression(mismatched_pos, key, depth, val);
                return None;
            }
            at = depth + header.partial.len;
        }
        proof {
            assert(path.skip(depth as int).len() == path.len() - depth);
            assert forall|i: int| 0 <= i < at implies #[trigger] new_key[i] == path[i] by {
                if i < depth {
                    assert(new_key.take(depth as int)[i] == new_key[i]);
                } else {
                    assert(new_key.skip(depth as int)[i - depth] == new_key[i]);
                    assert(path.skip(depth as int)[i - depth] == path[i]);
                }
            }
            assert(is_prefix(new_key.take(depth as int), path));
        }
        let valid_key = ArtKeyVerifier::valid(key.as_slice(), at);
        match node.get_mut_child(valid_key) {
            Some(child) => {
                let ghost old_child = *child;
                proof {
                    before.lemma_child_smaller(valid_key.0);
                }
                let previous = if valid_key.1 {
                    proof {
                        assert(is_prefix(new_key.take(at as int + 1), old_child.path())) by {
                            assert(is_prefix(path.push(valid_key.0), old_child.path()));
                            assert forall|i: int| 0 <= i < at + 1 implies #[trigger] new_key.take(
                                at as int + 1,
                            )[i] == old_child.path()[i] by {
                                assert(path.push(valid_key.0)[i] == new_key[i]);
                            }
                        }
                    }
                    ArtNode::insert(child, key, val, at + 1)
                } else {
                    // The key ends at this node: its entry is the prefixed
                    // child.
                    match child {
                        ArtNode::Leaf(leaf) => {
                            proof {
                                assert(new_key =~= path);
                            }
                            let mut val = val;
                            std::mem::swap(&mut leaf.val, &mut val);
                            Some(val)
                        },
                        _ => None,
                    }
                };
                proof {
                    let new_child = *final(child);
                    if valid_key.1 {
                        assert(is_prefix(path.push(valid_key.0), new_child.path())) by {
                            assert forall|i: int| 0 <= i < at + 1 implies #[trigger] path.push(
                                valid_key.0,
                            )[i] == new_child.path()[i] by {
                                assert(new_key.take(at as int + 1)[i] == new_key[i]);
                            }
                        }
                    }
                    before.lemma_child_replaced(*final(node), depth as int, valid_key, true);
                    assert forall|k: Seq<u8>| #[trigger]
                        final(node).lookup(k, depth as int) == if k == new_key {
                            Some(val)
                        } else {
                            before.lookup(k, depth as int)
                        } by {
                        if k.len() >= at && key_at(k, at as int) == valid_key {
                            assert(before.lookup(k, depth as int) == old_child.lookup(
                                k,
                                at as int + 1,
                            ));
                            if !valid_key.1 {
                                assert(new_child.lookup(k, at as int + 1) == if k == new_key {
                                    Some(val)
                                } else {
                                    None
                                });
                                assert(old_child.lookup(k, at as int + 1) == if k == new_key {
                                    Some(old_child->Leaf_0.val)
                                } else {
                                    None
                                });
                            }
                        }
                    }
                    assert(before.lookup(new_key, depth as int) == old_child.lookup(
                        new_key,
                        at as int + 1,
                    ));
                }
                return previous;
            },
            None => {},
        }
        let new_leaf: ArtNode<V, P> = ArtNode::leaf(key, val);
        node.insert_child(valid_key, new_leaf);
        proof {
            before.lemma_child_added(*node, depth as int, valid_key, new_leaf);
        }
        None
    }

    /// Takes the entry of `key` out of the subtree under `node`, which is
    /// reached after `depth` bytes of the key, and returns its value. A node
    /// that is left with too few children shrinks, and a `Node4` with one
    /// child left gives way to it.
    pub fn remove(node: &mut ArtNode<V, P>, key: &[u8], depth: usize) -> (removed: Option<V>)
        requires
            old(node).wf(depth as int),
            depth <= key@.len(),
        ensures
            final(node).wf(depth as int),
            removed == old(node).lookup(key@, depth as int),
            forall|k: Seq<u8>| #[trigger]
                final(node).lookup(k, depth as int) == if k == key@ {
                    None
                } else {
                    old(node).lookup(k, depth as int)
                },
            old(node).is_inner() ==> !(*final(node) is Empty) && is_prefix(
                old(node).path(),
                final(node).path(),
            ),
            !old(node).is_inner() ==> *final(node) == if removed is Some {
                ArtNode::Empty
            } else {
                *old(node)
            },
        decreases *old(node),
    {
        let ghost before = *node;
        match node {
            ArtNode::Empty => {
                return None;
            },
            ArtNode::Leaf(leaf) => {
                if !leaf.matches(key) {
                    return None;
                }
            },
            _ => {},
        }
        if node.is_leaf() {
            return node.take().take_leaf();
        }
        let ghost path = before.path();
        let header = *node.header();
        let mut at = depth;
        if header.partial.len > 0 {
            let prefix_matched = node.check_prefix_match(key, depth);
            if prefix_matched != header.partial.stored_len() {
                proof {
                    if before.lookup(key@, depth as int) is Some {
                        before.lemma_keys_extend_path(key@, depth as int, true);
                        let m = prefix_matched as int;
                        assert(header.partial.bytes()[m] == header.partial.data@[m]);
                        assert(path[depth + m] == key@[depth + m]);
                        assert(key@.skip(depth as int)[m] == key@[depth + m]);
                    }
                }
                return None;
            }
            if header.partial.len > key.len() - depth {
                return None;
            }
            at = depth + header.partial.len;
        }
        let valid_key = ArtKeyVerifier::valid(key, at);
        // What the key leads to decides: nothing or a leaf of another key
        // ends the search, the key's own leaf is taken out of this node, and
        // an inner node is searched in turn.
        let (is_leaf, is_target) = match node.get_child(valid_key) {
            None => (true, false),
            Some(child) => match child {
                ArtNode::Leaf(leaf) => (true, leaf.matches(key)),
                _ => (false, false),
            },
        };
        proof {
            before.lemma_child_smaller(valid_key.0);
            let c = before.child_at(valid_key);
            if c is Leaf {
                assert(c.lookup(key@, at as int + 1) == if c->Leaf_0.key@ == key@ {
                    Some(c->Leaf_0.val)
                } else {
                    None
                });
                assert(before.lookup(key@, depth as int) == if c->Leaf_0.key@ == key@ {
                    Some(c->Leaf_0.val)
                } else {
                    None
                });
            }
        }
        if is_leaf && !is_target {
            return None;
        }
        if is_target {
            let removed = match node.remove_child(valid_key) {
                Some(child) => child.take_leaf(),
                None => None,
            };
            proof {
                before.lemma_child_removed(*node, depth as int, valid_key);
                if *node is Node4 && node.total() == 1 && node.count() == 1
                    && node.only_child().is_inner() {
                    node.lemma_collapse_ready(depth as int);
                }
            }
            let ghost loose = *node;
            node.shrink_to_fit();
            proof {
                loose.lemma_shrunk(*node, depth as int);
            }
            return removed;
        }
        match node.get_mut_child(valid_key) {
            Some(child) => {
                let ghost old_child = *child;
                let removed = ArtNode::remove(child, key, at + 1);
                proof {
                    let new_child = *final(child);
                    assert(is_prefix(path.push(valid_key.0), new_child.path()));
                    before.lemma_child_replaced(*final(node), depth as int, valid_key, true);
                    assert(before.lookup(key@, depth as int) == old_child.lookup(
                        key@,
                        at as int + 1,
                    ));
                    assert forall|k: Seq<u8>| #[trigger]
                        final(node).lookup(k, depth as int) == if k == key@ {
                            None
                        } else {
                            before.lookup(k, depth as int)
                        } by {
                        if k.len() >= at && key_at(k, at as int) == valid_key {
                            assert(before.lookup(k, depth as int) == old_child.lookup(
                                k,
                                at as int + 1,
                            ));
                        }
                    }
                }
                removed
            },
            None => None,
        }
    }

    /// A mutable reference to the value stored for `key` in the subtree
    /// under `node`, which is reached after `depth` bytes of the key. What
    /// the caller leaves there is the key's value from then on.
    pub fn get_mut<'a>(node: &'a mut ArtNode<V, P>, key: &[u8], depth: usize) -> (found: Option<
        &'a mut V,
    >)
        requires
            old(node).wf(depth as int),
            depth <= key@.len(),
        ensures
            final(node).wf(depth as int),
            final(node).path() == old(node).path(),
            final(node).same_variant(*old(node)),
            match found {
                Some(v) => old(node).lookup(key@, depth as int) == Some(*v),
                None => old(node).lookup(key@, depth as int) is None,
            },
            forall|k: Seq<u8>| #[trigger]
                final(node).lookup(k, depth as int) == if k == key@ && found is Some {
                    Some(*final(found->0))
                } else {
                    old(node).lookup(k, depth as int)
                },
        decreases *old(node),
    {
        let ghost before = *node;
        if node.is_none() {
            return None;
        }
        if node.is_leaf() {
            return match node {
                ArtNode::Leaf(leaf) => {
                    if leaf.matches(key) {
                        Some(&mut leaf.val)
                    } else {
                        None
                    }
                },
                _ => None,
            };
        }
        let ghost path = before.path();
        let header = *node.header();
        let mut at = depth;
        if header.partial.len > 0 {
            let prefix_matched = node.check_prefix_match(key, depth);
            if prefix_matched != header.partial.stored_len() {
                proof {
                    if before.lookup(key@, depth as int) is Some {
                        before.lemma_keys_extend_path(key@, depth as int, true);
                        let m = prefix_matched as int;
                        assert(header.partial.bytes()[m] == header.partial.data@[m]);
                        assert(path[depth + m] == key@[depth + m]);
                        assert(key@.skip(depth as int)[m] == key@[depth + m]);
                    }
                }
                return None;
            }
            if header.partial.len > key.len() - depth {
                return None;
            }
            at = depth + header.partial.len;
        }
        let valid_key = ArtKeyVerifier::valid(key, at);
        proof {
            // What holds of the node once the caller is done with the
            // reference is shown here, for every node that differs from
            // this one in the child alone.
            before.lemma_child_smaller(valid_key.0);
            let old_child = before.child_at(valid_key);
            assert forall|after: ArtNode<V, P>|
                before.child_swapped(after, valid_key) && !(old_child is Empty) implies #[trigger] after.sound(
                depth as int,
                true,
            ) && after.path() == before.path() && (forall|k: Seq<u8>| #[trigger]
                after.lookup(k, depth as int) == if k.len() >= at && key_at(k, at as int)
                    == valid_key {
                    after.child_at(valid_key).lookup(k, at as int + 1)
                } else {
                    before.lookup(k, depth as int)
                }) by {
                before.lemma_child_replaced(after, depth as int, valid_key, true);
            }
            assert forall|after: ArtNode<V, P>, k: Seq<u8>|
                before.child_swapped(after, valid_key) && !(old_child is Empty) implies #[trigger] after.lookup(
                k,
                depth as int,
            ) == if k.len() >= at && key_at(k, at as int) == valid_key {
                after.child_at(valid_key).lookup(k, at as int + 1)
            } else {
                before.lookup(k, depth as int)
            } by {
                before.lemma_child_replaced(after, depth as int, valid_key, true);
            }
            assert forall|k: Seq<u8>|
                k.len() >= at && key_at(k, at as int) == valid_key && !(old_child is Empty) implies #[trigger] before.lookup(
                k,
                depth as int,
            ) == old_child.lookup(k, at as int + 1) by {}
            if !valid_key.1 && old_child is Leaf {
                assert(old_child->Leaf_0.key@ == path);
            }
        }
        if !valid_key.1 {
            // The key ends at this node: its entry is the prefixed child.
            return match node.get_mut_child(valid_key) {
                Some(child) => match child {
                    ArtNode::Leaf(leaf) => {
                        if leaf.matches(key) {
                            Some(&mut leaf.val)
                        } else {
                            None
                        }
                    },
                    _ => None,
                },
                None => None,
            };
        }
        match node.get_mut_child(valid_key) {
            Some(child) => ArtNode::get_mut(child, key, at + 1),
            None => None,
        }
    }

    /// What `compression` builds is well formed and holds the new entry
    /// beside what the node held.
    pub proof fn lemma_split(self, split: Self, moved: Self, leaf: Self, depth: int, pos: int)
        requires
            self.is_inner(),
            self.wf(depth),
            leaf is Leaf,
            0 <= depth <= leaf->Leaf_0.key@.len(),
            is_prefix(leaf->Leaf_0.key@.take(depth), self.path()),
            is_mismatch(self.path().skip(depth), leaf->Leaf_0.key@.skip(depth), pos),
            pos < self.head().partial.len,
            moved.sound(depth + pos + 1, true),
            moved.path() == self.path(),
            !(moved is Empty),
            forall|k: Seq<u8>| #[trigger] moved.lookup(k, depth + pos + 1) == self.lookup(k, depth),
            split is Node4,
            split.node_wf(),
            split.head().path@ == self.path().take(depth + pos),
            split.head().partial.len == pos,
            forall|i: int|
                0 <= i < split.head().partial.stored() ==> #[trigger] split.head().partial.data@[i]
                    == self.path()[depth + i],
            split.child(self.path()[depth + pos]) == moved,
            split.child_at(key_at(leaf->Leaf_0.key@, depth + pos)) == leaf,
            split.head().non_null_children == if key_at(leaf->Leaf_0.key@, depth + pos).1 {
                2int
            } else {
                1int
            },
            key_at(leaf->Leaf_0.key@, depth + pos).1 ==> split.prefixed() is Empty,
            forall|b: u8|
                b != self.path()[depth + pos] && !(key_at(leaf->Leaf_0.key@, depth + pos).1 && b
                    == key_at(leaf->Leaf_0.key@, depth + pos).0) ==> (#[trigger] split.child(b)) is Empty,
        ensures
            split.wf(depth),
            split.path() == self.path().take(depth + pos),
            forall|k: Seq<u8>| #[trigger]
                split.lookup(k, depth) == if k == leaf->Leaf_0.key@ {
                    Some(leaf->Leaf_0.val)
                } else {
                    self.lookup(k, depth)
                },
    {
        let old_path = self.path();
        let key = leaf->Leaf_0.key@;
        let at = depth + pos;
        let path = old_path.take(at);
        let edge = old_path[at];
        let new_edge = key_at(key, at);
        assert(old_path.skip(depth).len() == old_path.len() - depth);
        assert forall|i: int| 0 <= i < at implies #[trigger] key[i] == old_path[i] by {
            if i < depth {
                assert(key.take(depth)[i] == key[i]);
            } else {
                assert(key.skip(depth)[i - depth] == key[i]);
                assert(old_path.skip(depth)[i - depth] == old_path[i]);
            }
        }
        if at < key.len() {
            assert(key.skip(depth)[pos] == key[at]);
            assert(old_path.skip(depth)[pos] == old_path[at]);
        }
        if !new_edge.1 {
            assert(key =~= path);
        }
        assert(split.shape(depth));
        assert(is_prefix(path.push(edge), old_path));
        split.lemma_branch(depth, (edge, true), moved, new_edge, leaf);
        assert forall|k: Seq<u8>| #[trigger]
            split.lookup(k, depth) == if k == key {
                Some(leaf->Leaf_0.val)
            } else {
                self.lookup(k, depth)
            } by {
            if self.lookup(k, depth) is Some {
                self.lemma_keys_extend_path(k, depth, true);
                assert(k[at] == edge);
            }
            assert(moved.lookup(k, at + 1) == self.lookup(k, depth));
        }
    }
}

} // verus!
