//! Fixed-width values that can be written to and read from a node.

use vstd::prelude::*;
use vstd::bytes::{
    lemma_auto_spec_u64_to_from_le_bytes, spec_u64_from_le_bytes, spec_u64_to_le_bytes,
};
use crate::codec::{get_u64_le, put_u64_le};
use crate::error::Error;

verus! {

/// A value with a fixed-width, little-endian encoding.
pub trait Serializable: Copy + Sized {
    /// The width of one encoded value, in bytes.
    spec fn spec_size() -> nat;

    /// The bytes that stand for `self`.
    spec fn encoding(self) -> Seq<u8>;

    /// What `spec_size()` bytes stand for, if anything.
    spec fn decoding(bytes: Seq<u8>) -> Result<Self, Error>;

    /// The width is positive and small.
    proof fn lemma_size()
        ensures
            0 < Self::spec_size() <= 64,
    ;

    /// Every value has the fixed width and decodes to itself.
    proof fn lemma_encoding(self)
        ensures
            self.encoding().len() == Self::spec_size(),
            Self::decoding(self.encoding()) == Ok::<Self, Error>(self),
    ;

    /// The width of one encoded value, in bytes.
    fn size() -> (n: usize)
        ensures
            n == Self::spec_size(),
    ;

    /// Appends the encoding of `self` to `bytes`.
    fn to_bytes(&self, bytes: &mut Vec<u8>)
        requires
            old(bytes)@.len() + Self::spec_size() <= usize::MAX,
        ensures
            final(bytes)@ == old(bytes)@ + self.encoding(),
    ;

    /// Decodes the value stored in `bytes[pos..pos + size]`.
    fn from_bytes(bytes: &[u8], pos: usize) -> (r: Result<Self, Error>)
        requires
            pos + Self::spec_size() <= bytes@.len(),
        ensures
            r == Self::decoding(bytes@.subrange(pos as int, pos + Self::spec_size())),
    ;
}

impl Serializable for u64 {
    open spec fn spec_size() -> nat {
        8
    }

    open spec fn encoding(self) -> Seq<u8> {
        spec_u64_to_le_bytes(self)
    }

    open spec fn decoding(bytes: Seq<u8>) -> Result<u64, Error> {
        Ok(spec_u64_from_le_bytes(bytes))
    }

    proof fn lemma_size() {
    }

    proof fn lemma_encoding(self) {
        lemma_auto_spec_u64_to_from_le_bytes();
    }

    fn size() -> (n: usize) {
        8
    }

    fn to_bytes(&self, bytes: &mut Vec<u8>) {
        put_u64_le(bytes, *self);
    }

    fn from_bytes(bytes: &[u8], pos: usize) -> (r: Result<u64, Error>) {
        Ok(get_u64_le(bytes, pos))
    }
}

} // verus!
