use vstd::prelude::*;
use vstd::slice::slice_to_vec;

verus! {

/// A stored entry: the key's bytes and the value.
pub struct Leaf<V> {
    pub key: Vec<u8>,
    pub val: V,
}

impl<V> Leaf<V> {
    pub fn new(key: Vec<u8>, val: V) -> (leaf: Leaf<V>)
        ensures
            leaf.key@ == key@,
            leaf.val == val,
    {
        Leaf { key, val }
    }

    /// Whether the leaf's key is exactly `key`, in length and content.
    #[inline]
    pub fn matches(&self, key: &[u8]) -> (same: bool)
        ensures
            same == (self.key@ == key@),
    {
        bytes_eq(self.key.as_slice(), key)
    }
}

/// Whether two byte strings are equal.
#[inline]
pub fn bytes_eq(a: &[u8], b: &[u8]) -> (same: bool)
    ensures
        same == (a@ == b@),
{
    if a.len() != b.len() {
        return false;
    }
    let mut i: usize = 0;
    while i < a.len()
        invariant
            a.len() == b.len(),
            i <= a.len(),
            forall|j: int| 0 <= j < i ==> a@[j] == b@[j],
        decreases a.len() - i,
    {
        if a[i] != b[i] {
            return false;
        }
        i += 1;
    }
    assert(a@ =~= b@);
    true
}

/// An owned copy of a byte string.
#[inline]
pub fn bytes_to_vec(a: &[u8]) -> (v: Vec<u8>)
    ensures
        v@ == a@,
{
    slice_to_vec(a)
}

} // verus!
