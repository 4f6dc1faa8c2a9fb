use vstd::prelude::*;
use vstd::bytes::{spec_u16_to_le_bytes, spec_u32_to_le_bytes, spec_u64_to_le_bytes};
use vstd::bytes::{u16_to_le_bytes, u32_to_le_bytes, u64_to_le_bytes};
use vstd::slice::slice_to_vec;
use vstd::utf8::encode_utf8;

verus! {

/// A type whose values can serve as keys of the tree.
///
/// The tree orders and compares keys by their bytes alone: two keys with the
/// same bytes are the same key. Integers give their little-endian bytes,
/// strings their UTF-8 encoding.
pub trait ArtKey {
    /// The byte string that stands for the key. Every implementation says
    /// what it is.
    open spec fn key_bytes(&self) -> Seq<u8> {
        arbitrary()
    }

    /// Returns the key's bytes.
    fn get_bytes(&self) -> (bytes: Vec<u8>)
        ensures
            bytes@ == self.key_bytes(),
    ;
}

impl ArtKey for u8 {
    open spec fn key_bytes(&self) -> Seq<u8> {
        seq![*self]
    }

    #[inline]
    fn get_bytes(&self) -> (bytes: Vec<u8>) {
        let mut bytes: Vec<u8> = Vec::with_capacity(1);
        bytes.push(*self);
        assert(bytes@ =~= seq![*self]);
        bytes
    }
}

impl ArtKey for i8 {
    open spec fn key_bytes(&self) -> Seq<u8> {
        seq![*self as u8]
    }

    #[inline]
    fn get_bytes(&self) -> (bytes: Vec<u8>) {
        let mut bytes: Vec<u8> = Vec::with_capacity(1);
        bytes.push(*self as u8);
        assert(bytes@ =~= seq![*self as u8]);
        bytes
    }
}

impl ArtKey for u16 {
    open spec fn key_bytes(&self) -> Seq<u8> {
        spec_u16_to_le_bytes(*self)
    }

    #[inline]
    fn get_bytes(&self) -> (bytes: Vec<u8>) {
        u16_to_le_bytes(*self)
    }
}

impl ArtKey for i16 {
    open spec fn key_bytes(&self) -> Seq<u8> {
        spec_u16_to_le_bytes(*self as u16)
    }

    #[inline]
    fn get_bytes(&self) -> (bytes: Vec<u8>) {
        u16_to_le_bytes(*self as u16)
    }
}

impl ArtKey for u32 {
    open spec fn key_bytes(&self) -> Seq<u8> {
        spec_u32_to_le_bytes(*self)
    }

    #[inline]
    fn get_bytes(&self) -> (bytes: Vec<u8>) {
        u32_to_le_bytes(*self)
    }
}

impl ArtKey for i32 {
    open spec fn key_bytes(&self) -> Seq<u8> {
        spec_u32_to_le_bytes(*self as u32)
    }

    #[inline]
    fn get_bytes(&self) -> (bytes: Vec<u8>) {
        u32_to_le_bytes(*self as u32)
    }
}

impl ArtKey for u64 {
    open spec fn key_bytes(&self) -> Seq<u8> {
        spec_u64_to_le_bytes(*self)
    }

    #[inline]
    fn get_bytes(&self) -> (bytes: Vec<u8>) {
        u64_to_le_bytes(*self)
    }
}

impl ArtKey for i64 {
    open spec fn key_bytes(&self) -> Seq<u8> {
        spec_u64_to_le_bytes(*self as u64)
    }

    #[inline]
    fn get_bytes(&self) -> (bytes: Vec<u8>) {
        u64_to_le_bytes(*self as u64)
    }
}

impl ArtKey for String {
    open spec fn key_bytes(&self) -> Seq<u8> {
        encode_utf8(self@)
    }

    #[inline]
    fn get_bytes(&self) -> (bytes: Vec<u8>) {
        slice_to_vec(self.as_str().as_bytes())
    }
}

} // verus!
