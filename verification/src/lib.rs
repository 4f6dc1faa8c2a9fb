//! An adaptive radix tree: an in-memory map from byte-string keys to values
//! whose lookups cost time proportional to the key's length, whatever the
//! number of entries.
//!
//! Inner nodes come in four sizes (4, 16, 48 and 256 children) and change size
//! as children come and go. Paths with a single branch are compressed into the
//! node below them; only the first `P` bytes of such a path are kept in the
//! node, the rest is recovered from a leaf when it is needed.
use vstd::prelude::*;

pub mod art;
pub mod counting;
pub mod key;
pub mod laws;
pub mod leaf;
pub mod model;
pub mod node;
pub mod node16;
pub mod node256;
pub mod node4;
pub mod node48;
pub mod sorted;
pub mod tree;

pub use art::Art;
pub use key::ArtKey;

verus! {

/// The compressed path that leads into an inner node.
///
/// `len` is the logical length of the path; `data` holds its first
/// `min(len, P)` bytes. Where `len` exceeds `P` the remaining bytes are not
/// stored: every key below the node carries them.
#[derive(Clone, Copy)]
pub struct Partial<const P: usize> {
    pub data: [u8; P],
    pub len: usize,
}

/// What every inner node carries besides its children.
#[derive(Clone, Copy)]
pub struct Header<const P: usize> {
    pub partial: Partial<P>,
    /// Number of children reached through a key byte; the prefixed child is
    /// not counted.
    pub non_null_children: u16,
    /// The bytes that every key below this node starts with: the bytes
    /// consumed on the way to the node followed by its whole compressed path.
    pub path: Ghost<Seq<u8>>,
}

impl<const P: usize> Default for Partial<P> {
    /// An empty path.
    fn default() -> (p: Partial<P>)
        ensures
            p.len == 0,
            forall|i: int| 0 <= i < P ==> #[trigger] p.data@[i] == 0,
    {
        Partial { data: [0u8; P], len: 0 }
    }
}

impl<const P: usize> Partial<P> {
    /// Number of path bytes that are stored in `data`.
    pub open spec fn stored(&self) -> nat {
        if self.len <= P {
            self.len as nat
        } else {
            P as nat
        }
    }

    /// The bytes of the path that are stored in the node.
    pub open spec fn bytes(&self) -> Seq<u8> {
        self.data@.take(self.stored() as int)
    }

    /// A path of `len` bytes whose stored part is read from `src` at
    /// `start`.
    pub fn from_bytes(src: &[u8], start: usize, len: usize) -> (p: Self)
        requires
            start + (if len <= P { len } else { P }) <= src@.len(),
        ensures
            p.len == len,
            forall|i: int| 0 <= i < p.stored() ==> #[trigger] p.data@[i] == src@[start + i],
            forall|i: int| p.stored() <= i < P ==> #[trigger] p.data@[i] == 0,
    {
        let mut p: Partial<P> = Partial { data: [0u8; P], len: len };
        let stored = p.stored_len();
        let available = src.len();
        let mut i: usize = 0;
        while i < stored
            invariant
                i <= stored,
                available == src@.len(),
                stored == p.stored(),
                stored <= P,
                p.len == len,
                start + stored <= src@.len(),
                forall|j: int| 0 <= j < i ==> #[trigger] p.data@[j] == src@[start + j],
                forall|j: int| i <= j < P ==> #[trigger] p.data@[j] == 0,
            decreases stored - i,
        {
            p.data[i] = src[start + i];
            i += 1;
        }
        p
    }

    /// Whether `merged` is the path that runs through `self`, then over the
    /// byte `edge`, then through `below`: the lengths add up, and `merged`
    /// stores the first bytes of what the three store, in that order. What
    /// lies behind the stored bytes is left as it is in `self`.
    pub open spec fn is_merged(self, edge: u8, below: Self, merged: Self) -> bool {
        &&& merged.len == self.len + 1 + below.len
        &&& forall|i: int|
            0 <= i < merged.stored() ==> #[trigger] merged.data@[i] == (self.bytes().push(edge)
                + below.bytes())[i]
        &&& forall|i: int| merged.stored() <= i < P ==> #[trigger] merged.data@[i] == self.data@[i]
    }

    /// The path that runs through `self`, then over the byte `edge`, then
    /// through `below`.
    pub fn merge(&self, edge: u8, below: &Self) -> (merged: Self)
        requires
            self.len + 1 + below.len <= usize::MAX,
        ensures
            self.is_merged(edge, *below, merged),
    {
        let mut merged: Partial<P> = Partial { data: self.data, len: self.len + 1 + below.len };
        let ghost all = self.bytes().push(edge) + below.bytes();
        let mut prefix_len = self.stored_len();
        if prefix_len < P {
            merged.data[prefix_len] = edge;
            prefix_len += 1;
            let below_stored = below.stored_len();
            let room = P - prefix_len;
            let copied = if below_stored < room {
                below_stored
            } else {
                room
            };
            let mut i: usize = 0;
            while i < copied
                invariant
                    i <= copied,
                    prefix_len + copied <= P,
                    copied <= below.stored(),
                    prefix_len == self.stored() + 1,
                    all == self.bytes().push(edge) + below.bytes(),
                    merged.len == self.len + 1 + below.len,
                    forall|j: int| 0 <= j < prefix_len + i ==> #[trigger] merged.data@[j] == all[j],
                    forall|j: int|
                        prefix_len + i <= j < P ==> #[trigger] merged.data@[j] == self.data@[j],
                decreases copied - i,
            {
                assert(all[prefix_len + i] == below.bytes()[i as int]);
                merged.data[prefix_len + i] = below.data[i];
                i += 1;
            }
        }
        merged
    }

    /// Number of path bytes that are stored in `data`.
    #[inline]
    pub fn stored_len(&self) -> (n: usize)
        ensures
            n == self.stored(),
            n <= P,
            n <= self.len,
    {
        if self.len <= P {
            self.len
        } else {
            P
        }
    }
}

impl<const P: usize> Header<P> {
    /// The header of a node without children whose keys all start with `path`
    /// and whose compressed path is empty.
    pub fn new(Ghost(path): Ghost<Seq<u8>>) -> (h: Self)
        ensures
            h.partial.len == 0,
            h.non_null_children == 0,
            h.path@ == path,
    {
        Header { partial: Partial::default(), non_null_children: 0, path: Ghost(path) }
    }

    /// This header with another child count.
    pub open spec fn with_count(self, n: u16) -> Self {
        Header { non_null_children: n, ..self }
    }
}

} // verus!
