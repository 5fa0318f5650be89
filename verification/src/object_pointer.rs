//! Pointers to immutable objects on the block device.

use vstd::prelude::*;
use vstd::slice::slice_subrange;
use vstd::bytes::{
    lemma_auto_spec_u64_to_from_le_bytes, spec_u64_from_le_bytes, spec_u64_to_le_bytes,
};
use crate::codec::{get_u64_le, get_u8, put_u64_le, put_u8};
use crate::error::Error;
use crate::serial::Serializable;

verus! {

/// The number of bytes of an encoded [`ObjectPointer`].
pub const POINTER_SIZE: usize = 17;

/// The kind of object that a pointer refers to.
#[derive(Debug, Clone, Copy, PartialEq, Eq, Structural)]
pub enum ObjectType {
    InternalNode,
    LeafNode,
}

impl ObjectType {
    /// The kind byte of `self`: 0 for an internal node, 1 for a leaf.
    pub open spec fn spec_to_u8(self) -> u8 {
        match self {
            ObjectType::InternalNode => 0,
            ObjectType::LeafNode => 1,
        }
    }

    /// The kind that the byte `n` stands for, if any.
    pub open spec fn spec_from_u8(n: u8) -> Option<ObjectType> {
        if n == 0 {
            Some(ObjectType::InternalNode)
        } else if n == 1 {
            Some(ObjectType::LeafNode)
        } else {
            None
        }
    }

    /// The kind byte of `self`.
    pub fn to_u8(&self) -> (n: u8)
        ensures
            n == self.spec_to_u8(),
    {
        match self {
            ObjectType::InternalNode => 0,
            ObjectType::LeafNode => 1,
        }
    }

    /// The kind that the byte `n` stands for; `None` for any byte but 0 and 1.
    pub fn from_u8(n: u8) -> (kind: Option<ObjectType>)
        ensures
            kind == Self::spec_from_u8(n),
    {
        if n == 0 {
            Some(ObjectType::InternalNode)
        } else if n == 1 {
            Some(ObjectType::LeafNode)
        } else {
            None
        }
    }
}

/// The address of an immutable object: where it starts, how many bytes it
/// spans and what kind of object it is.
#[derive(Debug, Clone, Copy, PartialEq, Eq, Structural)]
pub struct ObjectPointer {
    pub offset: u64,
    pub len: u64,
    pub object_type: ObjectType,
}

impl ObjectPointer {
    /// The first byte past the object.
    pub open spec fn end(self) -> int {
        self.offset + self.len
    }

    /// The 17 bytes that stand for `self`: offset, length, kind.
    pub open spec fn spec_to_bytes(self) -> Seq<u8> {
        spec_u64_to_le_bytes(self.offset) + spec_u64_to_le_bytes(self.len) + seq![
            self.object_type.spec_to_u8(),
        ]
    }

    /// What the first 17 bytes of `bytes` stand for: `ShortRead` when there are
    /// fewer, `UnknownObjectKind` when the kind byte is neither 0 nor 1.
    pub open spec fn spec_from_bytes(bytes: Seq<u8>) -> Result<ObjectPointer, Error> {
        if bytes.len() < 17 {
            Err(Error::ShortRead)
        } else {
            match ObjectType::spec_from_u8(bytes[16]) {
                Some(object_type) => Ok(
                    ObjectPointer {
                        offset: spec_u64_from_le_bytes(bytes.subrange(0, 8)),
                        len: spec_u64_from_le_bytes(bytes.subrange(8, 16)),
                        object_type,
                    },
                ),
                None => Err(Error::UnknownObjectKind),
            }
        }
    }

    /// Encoding a pointer and decoding the bytes gives the pointer back.
    pub proof fn lemma_round_trip(self)
        ensures
            self.spec_to_bytes().len() == 17,
            Self::spec_from_bytes(self.spec_to_bytes()) == Ok::<ObjectPointer, Error>(self),
    {
        lemma_auto_spec_u64_to_from_le_bytes();
        let bytes = self.spec_to_bytes();
        assert(bytes.subrange(0, 8) == spec_u64_to_le_bytes(self.offset));
        assert(bytes.subrange(8, 16) == spec_u64_to_le_bytes(self.len));
        assert(bytes[16] == self.object_type.spec_to_u8());
    }

    pub fn new(offset: u64, len: u64, object_type: ObjectType) -> (pointer: ObjectPointer)
        ensures
            pointer == (ObjectPointer { offset, len, object_type }),
    {
        ObjectPointer { offset, len, object_type }
    }

    /// Decodes the pointer that `bytes` starts with.
    pub fn from_bytes(bytes: &[u8]) -> (r: Result<ObjectPointer, Error>)
        ensures
            r == Self::spec_from_bytes(bytes@),
    {
        if bytes.len() < POINTER_SIZE {
            return Err(Error::ShortRead);
        }
        let offset = get_u64_le(bytes, 0);
        let len = get_u64_le(bytes, 8);
        let kind = get_u8(bytes, 16);
        match ObjectType::from_u8(kind) {
            Some(object_type) => Ok(ObjectPointer { offset, len, object_type }),
            None => Err(Error::UnknownObjectKind),
        }
    }

    /// Appends the 17 bytes of `self` to `bytes`.
    pub fn to_bytes(&self, bytes: &mut Vec<u8>)
        requires
            old(bytes)@.len() + 17 <= usize::MAX,
        ensures
            final(bytes)@ == old(bytes)@ + self.spec_to_bytes(),
    {
        proof {
            lemma_auto_spec_u64_to_from_le_bytes();
        }
        put_u64_le(bytes, self.offset);
        put_u64_le(bytes, self.len);
        put_u8(bytes, self.object_type.to_u8());
        assert(bytes@ == old(bytes)@ + self.spec_to_bytes());
    }
}

impl Serializable for ObjectPointer {
    open spec fn spec_size() -> nat {
        17
    }

    open spec fn encoding(self) -> Seq<u8> {
        self.spec_to_bytes()
    }

    open spec fn decoding(bytes: Seq<u8>) -> Result<ObjectPointer, Error> {
        ObjectPointer::spec_from_bytes(bytes)
    }

    proof fn lemma_size() {
    }

    proof fn lemma_encoding(self) {
        self.lemma_round_trip();
    }

    fn size() -> (n: usize) {
        POINTER_SIZE
    }

    fn to_bytes(&self, bytes: &mut Vec<u8>) {
        ObjectPointer::to_bytes(self, bytes);
    }

    fn from_bytes(bytes: &[u8], pos: usize) -> (r: Result<ObjectPointer, Error>) {
        let end = bytes.len();
        ObjectPointer::from_bytes(slice_subrange(bytes, pos, pos + POINTER_SIZE))
    }
}

} // verus!
