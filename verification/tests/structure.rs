use artful::leaf::Leaf;
use artful::node::{ArtKeyVerifier, ArtNode};
use artful::node16::Node16;
use artful::node256::Node256;
use artful::node4::Node4;
use artful::node48::Node48;
use artful::tree::LazyExpand;
use artful::Partial;
use std::collections::BTreeMap;

struct Lcg(u64);

impl Lcg {
    fn next(&mut self) -> u64 {
        self.0 = self.0.wrapping_mul(6364136223846793005).wrapping_add(1442695040888963407);
        self.0 >> 33
    }

    fn below(&mut self, n: u64) -> u64 {
        self.next() % n
    }
}

/// The children of an inner node under key bytes, in ascending order of the
/// bytes, after a check of the variant's own bookkeeping.
fn children_of<const P: usize>(node: &ArtNode<u32, P>) -> Vec<(u8, &ArtNode<u32, P>)> {
    let mut out = Vec::new();
    match node {
        ArtNode::Node4(n) => {
            assert_eq!(n.key.len(), n.header.non_null_children as usize);
            assert_eq!(n.children.len(), n.key.len());
            assert!(n.key.len() <= 4);
            for i in 0..n.key.len() {
                out.push((n.key[i], &n.children[i]));
            }
        }
        ArtNode::Node16(n) => {
            assert_eq!(n.key.len(), n.header.non_null_children as usize);
            assert_eq!(n.children.len(), n.key.len());
            assert!(n.key.len() >= 5 && n.key.len() <= 16);
            for i in 0..n.key.len() {
                out.push((n.key[i], &n.children[i]));
            }
        }
        ArtNode::Node48(n) => {
            assert_eq!(n.children.len(), 48);
            let mut used = [false; 48];
            for b in 0..256usize {
                let slot = n.child_index[b] as usize;
                assert!(slot <= 48);
                if slot != 48 {
                    assert!(!used[slot]);
                    used[slot] = true;
                    assert!(!n.children[slot].is_none());
                    out.push((b as u8, &n.children[slot]));
                }
            }
            for slot in 0..48 {
                assert_eq!(used[slot], !n.children[slot].is_none());
            }
            assert_eq!(out.len(), n.header.non_null_children as usize);
            assert!(out.len() >= 17 && out.len() <= 48);
        }
        ArtNode::Node256(n) => {
            assert_eq!(n.children.len(), 256);
            for b in 0..256usize {
                if !n.children[b].is_none() {
                    out.push((b as u8, &n.children[b]));
                }
            }
            assert_eq!(out.len(), n.header.non_null_children as usize);
            assert!(out.len() >= 49);
        }
        _ => {}
    }
    for w in out.windows(2) {
        assert!(w[0].0 < w[1].0);
    }
    for (_, c) in out.iter() {
        assert!(!c.is_none());
    }
    out
}

/// Checks the invariants of the subtree that is reached after `depth` key
/// bytes and returns its entries.
fn audit<const P: usize>(node: &ArtNode<u32, P>, depth: usize) -> Vec<(Vec<u8>, u32)> {
    match node {
        ArtNode::Empty => Vec::new(),
        ArtNode::Leaf(leaf) => {
            assert!(leaf.key.len() >= depth);
            vec![(leaf.key.clone(), leaf.val)]
        }
        _ => {
            let header = *node.header();
            let at = depth + header.partial.len;
            let children = children_of(node);
            let mut entries = Vec::new();
            let mut count = children.len();
            let prefixed = match node {
                ArtNode::Node4(n) => &n.prefixed_child,
                ArtNode::Node16(n) => &n.prefixed_child,
                ArtNode::Node48(n) => &n.prefixed_child,
                ArtNode::Node256(n) => &n.prefixed_child,
                _ => unreachable!(),
            };
            match prefixed {
                ArtNode::Empty => {}
                ArtNode::Leaf(leaf) => {
                    assert_eq!(leaf.key.len(), at);
                    entries.push((leaf.key.clone(), leaf.val));
                    count += 1;
                }
                _ => panic!("a prefixed child that is no leaf"),
            }
            assert!(count >= 2);
            assert!(node.assert_size());
            assert!(!node.is_few());
            assert_eq!(node.len(), children.len());
            for (b, child) in children {
                let below = audit(child, at + 1);
                assert!(!below.is_empty());
                if !child.is_leaf() {
                    assert!(below.len() >= 2);
                }
                for (k, _) in below.iter() {
                    assert_eq!(k[at], b);
                }
                entries.extend(below);
            }
            let first = entries[0].0.clone();
            for (k, _) in entries.iter() {
                assert!(k.len() >= at);
                assert_eq!(k[..at], first[..at]);
            }
            let stored = header.partial.len.min(P);
            assert_eq!(header.partial.data[..stored], first[depth..depth + stored]);
            entries
        }
    }
}

fn audited_workload<const P: usize>(seed: u64, alphabet: u64, max_len: u64, steps: u64) {
    let mut rng = Lcg(seed);
    let mut root: ArtNode<u32, P> = ArtNode::none();
    let mut map: BTreeMap<Vec<u8>, u32> = BTreeMap::new();
    for step in 0..steps {
        let len = rng.below(max_len + 1);
        let key: Vec<u8> = (0..len).map(|_| rng.below(alphabet) as u8).collect();
        if rng.below(3) < 2 {
            assert_eq!(
                ArtNode::insert(&mut root, key.clone(), step as u32, 0),
                map.insert(key.clone(), step as u32)
            );
        } else {
            assert_eq!(ArtNode::remove(&mut root, &key, 0), map.remove(&key));
        }
        let mut entries = audit(&root, 0);
        entries.sort();
        let expected: Vec<(Vec<u8>, u32)> = map.iter().map(|(k, v)| (k.clone(), *v)).collect();
        assert_eq!(entries, expected);
        assert_eq!(root.is_none(), map.is_empty());
        assert_eq!(ArtNode::get(&root, &key, 0), map.get(&key));
    }
}

#[test]
fn invariants_hold_after_every_operation() {
    audited_workload::<8>(1, 3, 12, 3000);
}

#[test]
fn invariants_hold_with_short_stored_paths() {
    audited_workload::<2>(2, 2, 16, 3000);
}

#[test]
fn invariants_hold_without_stored_paths() {
    audited_workload::<0>(3, 2, 14, 3000);
}

#[test]
fn invariants_hold_in_wide_nodes() {
    audited_workload::<8>(4, 256, 2, 6000);
}

fn leaf(byte: u8) -> ArtNode<u32, 8> {
    ArtNode::leaf(vec![byte], byte as u32)
}

fn value_of(node: Option<&ArtNode<u32, 8>>) -> Option<u32> {
    match node {
        Some(ArtNode::Leaf(l)) => Some(l.val),
        _ => None,
    }
}

#[test]
fn node4_keeps_its_keys_in_order() {
    let mut n: Node4<u32, 8> = Node4::default();
    assert!(n.is_few());
    assert!(!n.is_full());
    for b in [30u8, 10, 40, 20] {
        assert!(value_of(n.get_child((b, true))).is_none());
        n.insert_child((b, true), leaf(b));
    }
    assert_eq!(n.key, vec![10, 20, 30, 40]);
    assert_eq!(n.header.non_null_children, 4);
    assert!(n.is_full());
    assert!(!n.is_few());
    for b in [10u8, 20, 30, 40] {
        assert_eq!(value_of(n.get_child((b, true))), Some(b as u32));
        assert_eq!(n.find_child_index(b), Some((b / 10 - 1) as usize));
    }
    assert_eq!(n.find_child_index(25), None);
    assert_eq!(value_of(n.minimum_child()), Some(10));
    n.insert_child((0, false), leaf(99));
    assert_eq!(value_of(n.get_child((0, false))), Some(99));
    assert_eq!(value_of(n.minimum_child()), Some(99));
    assert_eq!(n.header.non_null_children, 4);
    let removed = n.remove_child((20, true));
    assert_eq!(value_of(removed.as_ref()), Some(20));
    assert_eq!(n.key, vec![10, 30, 40]);
    assert!(n.remove_child((20, true)).is_none());
    assert_eq!(value_of(n.remove_child((0, false)).as_ref()), Some(99));
    assert!(n.remove_child((0, false)).is_none());
    assert_eq!(n.header.non_null_children, 3);
}

#[test]
fn node4_is_few_counts_the_prefixed_child() {
    let mut n: Node4<u32, 8> = Node4::default();
    n.insert_child((0, false), leaf(1));
    assert!(n.is_few());
    n.insert_child((7, true), leaf(7));
    assert!(!n.is_few());
    n.remove_child((0, false));
    assert!(n.is_few());
    n.insert_child((8, true), leaf(8));
    assert!(!n.is_few());
}

#[test]
fn node16_thresholds_and_search() {
    let mut n: Node16<u32, 8> = Node16::default();
    for (i, b) in (0..16u8).map(|i| 255 - 16 * i).enumerate() {
        assert_eq!(n.is_few(), i < 5);
        assert!(!n.is_full());
        assert_eq!(n.find_less_than_index(b), 0);
        n.insert_child((b, true), leaf(b));
    }
    assert!(n.is_full());
    assert!(!n.is_few());
    for i in 0..16u8 {
        let b = 255 - 16 * i;
        assert_eq!(n.find_child_index(b), Some(15 - i as usize));
        assert_eq!(n.find_child_index(b - 1), None);
        assert_eq!(n.find_less_than_index(b), 15 - i as usize);
        assert_eq!(n.find_less_than_index(b - 1), 15 - i as usize);
        assert_eq!(value_of(n.get_child((b, true))), Some(b as u32));
    }
    assert_eq!(n.find_less_than_index(255), 15);
    assert_eq!(value_of(n.minimum_child()), Some(15));
    let grown = n.grow();
    assert_eq!(grown.header.non_null_children, 16);
    for i in 0..16u8 {
        let b = 255 - 16 * i;
        assert_eq!(value_of(grown.get_child((b, true))), Some(b as u32));
        assert!(grown.get_child((b - 1, true)).is_none());
        // the children lie in the order of their key bytes
        assert_eq!(grown.child_index[b as usize], 15 - i);
    }
    for slot in 0..48 {
        assert_eq!(grown.children[slot].is_none(), slot >= 16);
    }
    assert!(grown.is_few());
    let back = grown.shrink_to_fit();
    assert_eq!(back.key, (0..16u8).map(|i| 15 + 16 * i).collect::<Vec<u8>>());
}

#[test]
fn node48_thresholds_and_slots() {
    let mut n: Node48<u32, 8> = Node48::default();
    for b in 0..48u8 {
        assert_eq!(n.is_few(), b < 17);
        assert!(!n.is_full());
        n.insert_child((b * 5, true), leaf(b * 5));
    }
    assert!(n.is_full());
    assert!(!n.is_few());
    assert_eq!(n.find_child_index(10), Some(2));
    assert_eq!(n.find_child_index(11), None);
    // a removal opens a gap that the next insertion fills
    assert_eq!(value_of(n.remove_child((10, true)).as_ref()), Some(10));
    assert_eq!(n.child_index[10], 48);
    assert_eq!(n.header.non_null_children, 47);
    n.insert_child((11, true), leaf(11));
    assert_eq!(n.find_child_index(11), Some(2));
    assert_eq!(value_of(n.get_child((11, true))), Some(11));
    assert_eq!(value_of(n.minimum_child()), Some(0));
    let grown: Node256<u32, 8> = n.grow();
    assert_eq!(grown.header.non_null_children, 48);
    assert!(grown.is_few());
    assert_eq!(value_of(grown.get_child((11, true))), Some(11));
    assert!(grown.get_child((10, true)).is_none());
    assert_eq!(value_of(grown.get_child((235, true))), Some(235));
    let back: Node48<u32, 8> = grown.shrink_to_fit();
    assert_eq!(back.header.non_null_children, 48);
    assert_eq!(value_of(back.get_child((11, true))), Some(11));
    // the slots are filled in the order of the key bytes: 0, 5, 11, 15, ..
    assert_eq!(back.child_index[0], 0);
    assert_eq!(back.child_index[5], 1);
    assert_eq!(back.child_index[11], 2);
    assert_eq!(back.child_index[15], 3);
    assert_eq!(back.child_index[235], 47);
    assert_eq!(back.child_index[10], 48);
}

#[test]
fn node256_thresholds() {
    let mut n: Node256<u32, 8> = Node256::default();
    for b in 0..=255u8 {
        assert_eq!(n.is_few(), (b as usize) < 49);
        assert!(!n.is_full());
        n.insert_child((b, true), leaf(b));
    }
    assert!(n.is_full());
    assert_eq!(n.header.non_null_children, 256);
    n.insert_child((0, false), leaf(77));
    assert_eq!(n.header.non_null_children, 256);
    assert_eq!(value_of(n.get_child((0, false))), Some(77));
    assert_eq!(value_of(n.remove_child((200, true)).as_ref()), Some(200));
    assert!(n.get_child((200, true)).is_none());
    assert_eq!(n.header.non_null_children, 255);
}

#[test]
fn inner_nodes_grow_and_shrink_with_their_children() {
    let mut root: ArtNode<u32, 8> = ArtNode::none();
    let rank = |n: &ArtNode<u32, 8>| match n {
        ArtNode::Empty => 0,
        ArtNode::Leaf(_) => 1,
        ArtNode::Node4(_) => 4,
        ArtNode::Node16(_) => 16,
        ArtNode::Node48(_) => 48,
        ArtNode::Node256(_) => 256,
    };
    for b in 0..=255u8 {
        ArtNode::insert(&mut root, vec![b], b as u32, 0);
        let n = b as usize + 1;
        let expected = match n {
            1 => 1,
            2..=4 => 4,
            5..=16 => 16,
            17..=48 => 48,
            _ => 256,
        };
        assert_eq!(rank(&root), expected);
    }
    // a full Node256 takes the key that ends at it
    assert_eq!(ArtNode::insert(&mut root, vec![], 1000, 0), None);
    assert_eq!(rank(&root), 256);
    assert_eq!(ArtNode::remove(&mut root, &[], 0), Some(1000));
    for b in (0..=255u8).rev() {
        assert_eq!(ArtNode::remove(&mut root, &[b], 0), Some(b as u32));
        let n = b as usize;
        let expected = match n {
            0 => 0,
            1 => 1,
            2..=4 => 4,
            5..=16 => 16,
            17..=48 => 48,
            _ => 256,
        };
        assert_eq!(rank(&root), expected);
    }
}

#[test]
fn a_full_node4_takes_the_key_that_ends_at_it() {
    let mut root: ArtNode<u32, 8> = ArtNode::none();
    for b in 0..4u8 {
        ArtNode::insert(&mut root, vec![9, b], b as u32, 0);
    }
    assert!(root.is_full());
    ArtNode::insert(&mut root, vec![9], 100, 0);
    assert!(matches!(root, ArtNode::Node4(_)));
    assert_eq!(ArtNode::get(&root, &[9], 0), Some(&100));
    assert_eq!(root.len(), 4);
}

#[test]
fn collapse_merges_the_paths() {
    let mut root: ArtNode<u32, 4> = ArtNode::none();
    ArtNode::insert(&mut root, b"abcdefgh1".to_vec(), 1, 0);
    ArtNode::insert(&mut root, b"abcdefgh2".to_vec(), 2, 0);
    ArtNode::insert(&mut root, b"abX".to_vec(), 3, 0);
    // the root is split at "ab"; the node below holds "defgh"
    assert_eq!(root.header().partial.len, 2);
    assert_eq!(root.header().partial.data[..2], *b"ab");
    match root.get_child((b'c', true)) {
        Some(below) => {
            assert_eq!(below.header().partial.len, 5);
            assert_eq!(below.header().partial.data, *b"defg");
        }
        None => panic!("no child under c"),
    }
    assert_eq!(ArtNode::remove(&mut root, b"abX", 0), Some(3));
    // the node below has come up: "ab", then "c", then "defgh"
    assert_eq!(root.header().partial.len, 8);
    assert_eq!(root.header().partial.data, *b"abcd");
    assert_eq!(root.len(), 2);
    assert_eq!(ArtNode::get(&root, b"abcdefgh1", 0), Some(&1));
    assert_eq!(ArtNode::get(&root, b"abcdefgh2", 0), Some(&2));
    assert_eq!(ArtNode::remove(&mut root, b"abcdefgh1", 0), Some(1));
    assert!(root.is_leaf());
    assert_eq!(ArtNode::remove(&mut root, b"abcdefgh2", 0), Some(2));
    assert!(root.is_none());
}

#[test]
fn lazy_expansion_stores_the_shared_bytes() {
    let old: ArtNode<u32, 4> = ArtNode::leaf(b"romane".to_vec(), 1);
    let node = LazyExpand::expand(old, b"romanus".to_vec(), 2, 0);
    assert!(matches!(node, ArtNode::Node4(_)));
    assert_eq!(node.header().partial.len, 5);
    assert_eq!(node.header().partial.data, *b"roma");
    assert_eq!(node.len(), 2);
    assert_eq!(ArtNode::get(&node, b"romane", 0), Some(&1));
    assert_eq!(ArtNode::get(&node, b"romanus", 0), Some(&2));
    assert_eq!(ArtNode::get(&node, b"roman", 0), None);

    let old: ArtNode<u32, 4> = ArtNode::leaf(b"rom".to_vec(), 1);
    let node = LazyExpand::expand(old, b"romanus".to_vec(), 2, 1);
    assert_eq!(node.header().partial.len, 2);
    assert_eq!(node.header().partial.data[..2], *b"om");
    assert_eq!(node.len(), 1);
    assert!(matches!(node.get_child((0, false)), Some(ArtNode::Leaf(_))));
}

#[test]
fn shared_prefix_lengths() {
    assert_eq!(LazyExpand::longest_common_prefix(b"abcd", b"abxd", 0), 2);
    assert_eq!(LazyExpand::longest_common_prefix(b"abcd", b"abxd", 1), 1);
    assert_eq!(LazyExpand::longest_common_prefix(b"abcd", b"abxd", 2), 0);
    assert_eq!(LazyExpand::longest_common_prefix(b"abcd", b"abxd", 3), 1);
    assert_eq!(LazyExpand::longest_common_prefix(b"abcd", b"ab", 0), 2);
    assert_eq!(LazyExpand::longest_common_prefix(b"abcd", b"abcd", 0), 4);
    assert_eq!(LazyExpand::longest_common_prefix(b"", b"", 0), 0);
}

#[test]
fn prefix_checks() {
    let mut root: ArtNode<u32, 4> = ArtNode::none();
    ArtNode::insert(&mut root, b"abcdefgh1".to_vec(), 1, 0);
    ArtNode::insert(&mut root, b"abcdefgh2".to_vec(), 2, 0);
    assert_eq!(root.header().partial.len, 8);
    // the stored bytes alone
    assert_eq!(root.check_prefix_match(b"abcdefgh1", 0), 4);
    assert_eq!(root.check_prefix_match(b"abcdXXXX", 0), 4);
    assert_eq!(root.check_prefix_match(b"abXd", 0), 2);
    assert_eq!(root.check_prefix_match(b"ab", 0), 2);
    assert_eq!(root.check_prefix_match(b"", 0), 0);
    // the whole path, read from the minimum leaf
    assert_eq!(ArtNode::prefix_mismatch(&root, b"abcdefgh1", 0), 8);
    assert_eq!(ArtNode::prefix_mismatch(&root, b"abcdefXh", 0), 6);
    assert_eq!(ArtNode::prefix_mismatch(&root, b"abcdef", 0), 6);
    assert_eq!(ArtNode::prefix_mismatch(&root, b"abXdefgh", 0), 2);
    let (front, edge, rest) = ArtNode::split_partial(&root, 5, 0);
    assert_eq!(front.len, 5);
    assert_eq!(front.data, *b"abcd");
    assert_eq!(edge, b'f');
    assert_eq!(rest.len, 2);
    assert_eq!(rest.data[..2], *b"gh");
    root.compression(6, b"abcdefXh".to_vec(), 0, 3);
    assert_eq!(root.header().partial.len, 6);
    assert_eq!(ArtNode::get(&root, b"abcdefXh", 0), Some(&3));
    assert_eq!(ArtNode::get(&root, b"abcdefgh1", 0), Some(&1));
    assert_eq!(ArtNode::get(&root, b"abcdefgh2", 0), Some(&2));
    match root.get_child((b'g', true)) {
        Some(below) => {
            assert_eq!(below.header().partial.len, 1);
            assert_eq!(below.header().partial.data[0], b'h');
        }
        None => panic!("no child under g"),
    }
}

#[test]
fn valid_key_bytes() {
    assert_eq!(ArtKeyVerifier::valid(b"ab", 0), (b'a', true));
    assert_eq!(ArtKeyVerifier::valid(b"ab", 1), (b'b', true));
    assert_eq!(ArtKeyVerifier::valid(b"ab", 2), (0, false));
    assert_eq!(ArtKeyVerifier::valid(b"", 0), (0, false));
}

#[test]
fn partial_paths() {
    let p: Partial<4> = Partial::from_bytes(b"0123456789", 2, 3);
    assert_eq!(p.len, 3);
    assert_eq!(p.stored_len(), 3);
    assert_eq!(p.data[..3], *b"234");
    let q: Partial<4> = Partial::from_bytes(b"0123456789", 1, 9);
    assert_eq!(q.len, 9);
    assert_eq!(q.stored_len(), 4);
    assert_eq!(q.data, *b"1234");
    let short: Partial<4> = Partial::from_bytes(b"ab", 0, 1);
    let merged = short.merge(b'-', &q);
    assert_eq!(merged.len, 11);
    assert_eq!(merged.data, *b"a-12");
    let merged = q.merge(b'-', &short);
    assert_eq!(merged.len, 11);
    assert_eq!(merged.data, *b"1234");
    let empty: Partial<4> = Partial::default();
    let merged = empty.merge(b'x', &p);
    assert_eq!(merged.len, 4);
    assert_eq!(merged.data, *b"x234");
}

#[test]
fn leaves_compare_whole_keys() {
    let l: Leaf<u32> = Leaf::new(b"abc".to_vec(), 1);
    assert!(l.matches(b"abc"));
    assert!(!l.matches(b"ab"));
    assert!(!l.matches(b"abcd"));
    assert!(!l.matches(b"abd"));
    assert!(!l.matches(b""));
}

#[test]
fn slots_are_taken() {
    let mut n: ArtNode<u32, 8> = ArtNode::leaf(vec![1], 5);
    let taken = n.take();
    assert!(n.is_none());
    assert!(taken.is_leaf());
    assert_eq!(taken.take_leaf(), Some(5));
    let none: ArtNode<u32, 8> = ArtNode::default();
    assert!(none.is_none());
    assert_eq!(none.take_leaf(), None);
}

#[test]
fn a_scan_finds_the_counted_children() {
    let mut n: Node48<u32, 8> = Node48::default();
    for b in 0..20u8 {
        n.insert_child((b, true), leaf(b));
    }
    n.insert_child((0, false), leaf(100));
    let mut node = ArtNode::node48(Box::new(n));
    assert!(node.assert_size());
    assert_eq!(node.len(), 20);
    // a header that counts a child too many does not pass
    node.header_mut().non_null_children = 21;
    assert!(!node.assert_size());
    node.header_mut().non_null_children = 20;
    assert!(node.assert_size());
    let none: ArtNode<u32, 8> = ArtNode::none();
    assert!(none.assert_size());
    assert!(leaf(1).assert_size());
}
