//! The object store: nodes read through their pointers and appended at the
//! free-space offset.

use vstd::prelude::*;
use crate::device::{
    lemma_overwritten_from, overwritten, same_below, same_from, BlockDevice, Request,
};
use crate::error::Error;
use crate::node::{
    lemma_node_encoding_len, node_decoding, node_encoding, InternalNode, InternalNodeEntry,
    LeafNode, LeafNodeEntry, Node,
};
use crate::object_pointer::{ObjectPointer, ObjectType};
use crate::serial::Serializable;

verus! {

/// A node as read from the device: a leaf or an internal node.
#[derive(Debug, PartialEq, Eq)]
pub enum AnyObject {
    LeafNode(LeafNode),
    InternalNode(InternalNode),
}

/// The entries of a node of either kind.
pub enum NodeView {
    Leaf(Seq<LeafNodeEntry>),
    Internal(Seq<InternalNodeEntry>),
}

impl View for AnyObject {
    type V = NodeView;

    open spec fn view(&self) -> NodeView {
        match self {
            AnyObject::LeafNode(node) => NodeView::Leaf(node@),
            AnyObject::InternalNode(node) => NodeView::Internal(node@),
        }
    }
}

/// The bytes of `device` that `pointer` addresses.
pub open spec fn object_bytes(device: Seq<u8>, pointer: ObjectPointer) -> Seq<u8> {
    device.subrange(pointer.offset as int, pointer.end())
}

/// The node that `pointer` addresses on `device`: `OutOfRange` when the
/// pointer reaches beyond the device, else what its bytes decode to as a node
/// of the pointer's kind.
pub open spec fn object_at(device: Seq<u8>, pointer: ObjectPointer) -> Result<NodeView, Error> {
    if pointer.end() > device.len() {
        Err(Error::OutOfRange)
    } else {
        match pointer.object_type {
            ObjectType::LeafNode => match node_decoding::<u64>(object_bytes(device, pointer)) {
                Ok(entries) => Ok(NodeView::Leaf(entries)),
                Err(e) => Err(e),
            },
            ObjectType::InternalNode => match node_decoding::<ObjectPointer>(
                object_bytes(device, pointer),
            ) {
                Ok(entries) => Ok(NodeView::Internal(entries)),
                Err(e) => Err(e),
            },
        }
    }
}

impl NodeView {
    /// The number of entries.
    pub open spec fn len(self) -> nat {
        match self {
            NodeView::Leaf(entries) => entries.len(),
            NodeView::Internal(entries) => entries.len(),
        }
    }

    /// The key of entry `i`.
    pub open spec fn key(self, i: int) -> u64 {
        match self {
            NodeView::Leaf(entries) => entries[i].key,
            NodeView::Internal(entries) => entries[i].key,
        }
    }

    /// The kind of node.
    pub open spec fn kind(self) -> ObjectType {
        match self {
            NodeView::Leaf(_) => ObjectType::LeafNode,
            NodeView::Internal(_) => ObjectType::InternalNode,
        }
    }

    /// The bytes of the node.
    pub open spec fn encoding(self) -> Seq<u8> {
        match self {
            NodeView::Leaf(entries) => node_encoding::<u64>(entries),
            NodeView::Internal(entries) => node_encoding::<ObjectPointer>(entries),
        }
    }

    /// The number of bytes of the node: 16 for each entry of a leaf, 25 for
    /// each entry of an internal node.
    pub open spec fn byte_len(self) -> nat {
        match self {
            NodeView::Leaf(entries) => 16 * entries.len(),
            NodeView::Internal(entries) => 25 * entries.len(),
        }
    }

    /// The encoding of a node has 16 bytes for each entry of a leaf and 25 for
    /// each entry of an internal node.
    pub proof fn lemma_byte_len(self)
        ensures
            self.encoding().len() == self.byte_len(),
    {
        match self {
            NodeView::Leaf(entries) => {
                lemma_node_encoding_len::<u64>(entries);
                assert(entries.len() * 16 == 16 * entries.len()) by (nonlinear_arith);
            },
            NodeView::Internal(entries) => {
                lemma_node_encoding_len::<ObjectPointer>(entries);
                assert(entries.len() * 25 == 25 * entries.len()) by (nonlinear_arith);
            },
        }
    }

    /// The first `n` entries.
    pub open spec fn take(self, n: int) -> NodeView {
        match self {
            NodeView::Leaf(entries) => NodeView::Leaf(entries.take(n)),
            NodeView::Internal(entries) => NodeView::Internal(entries.take(n)),
        }
    }

    /// The entries from `n` on.
    pub open spec fn skip(self, n: int) -> NodeView {
        match self {
            NodeView::Leaf(entries) => NodeView::Leaf(entries.skip(n)),
            NodeView::Internal(entries) => NodeView::Internal(entries.skip(n)),
        }
    }

    /// The entries of `self` followed by those of `other`, when both are of
    /// the same kind.
    pub open spec fn join(self, other: NodeView) -> NodeView {
        match (self, other) {
            (NodeView::Leaf(e1), NodeView::Leaf(e2)) => NodeView::Leaf(e1 + e2),
            (NodeView::Internal(e1), NodeView::Internal(e2)) => NodeView::Internal(e1 + e2),
            _ => self,
        }
    }
}

impl AnyObject {
    /// The number of entries of the node.
    pub fn len(&self) -> (n: usize)
        ensures
            n == self@.len(),
    {
        match self {
            AnyObject::LeafNode(node) => node.entries.len(),
            AnyObject::InternalNode(node) => node.entries.len(),
        }
    }

    /// The key of the first entry.
    pub fn first_key(&self) -> (key: u64)
        requires
            self@.len() > 0,
        ensures
            key == self@.key(0),
    {
        match self {
            AnyObject::LeafNode(node) => node.entries[0].key,
            AnyObject::InternalNode(node) => node.entries[0].key,
        }
    }

    /// Cuts the node in two at entry `at`.
    pub fn split(self, at: usize) -> (parts: (AnyObject, AnyObject))
        requires
            at <= self@.len(),
        ensures
            parts.0@ == self@.take(at as int),
            parts.1@ == self@.skip(at as int),
    {
        match self {
            AnyObject::LeafNode(node) => {
                let mut front = node;
                let back = front.entries.split_off(at);
                (AnyObject::LeafNode(front), AnyObject::LeafNode(Node::with_entries(back)))
            },
            AnyObject::InternalNode(node) => {
                let mut front = node;
                let back = front.entries.split_off(at);
                (AnyObject::InternalNode(front), AnyObject::InternalNode(Node::with_entries(back)))
            },
        }
    }

    /// Joins two nodes of the same kind into one; two nodes of different
    /// kinds are a `LogicError`.
    pub fn join(self, other: AnyObject) -> (r: Result<AnyObject, Error>)
        ensures
            match r {
                Ok(joined) => self@.kind() == other@.kind() && joined@ == self@.join(other@),
                Err(e) => self@.kind() != other@.kind() && e == Error::LogicError,
            },
    {
        match (self, other) {
            (AnyObject::LeafNode(front), AnyObject::LeafNode(back)) => {
                let mut front = front;
                let mut back = back;
                front.entries.append(&mut back.entries);
                Ok(AnyObject::LeafNode(front))
            },
            (AnyObject::InternalNode(front), AnyObject::InternalNode(back)) => {
                let mut front = front;
                let mut back = back;
                front.entries.append(&mut back.entries);
                Ok(AnyObject::InternalNode(front))
            },
            _ => Err(Error::LogicError),
        }
    }

    /// Appends the node at the free-space offset; see [`Node::cow`].
    pub fn cow<D: BlockDevice>(&self, dev: &mut D, fso: &mut u64) -> (r: Result<
        ObjectPointer,
        Error,
    >)
        requires
            self@.byte_len() <= usize::MAX,
        ensures
            final(dev).view().len() == old(dev).view().len(),
            final(dev).faultless() == old(dev).faultless(),
            same_below(old(dev).view(), final(dev).view(), *old(fso) as int),
            r is Ok ==> same_from(old(dev).view(), final(dev).view(), *final(fso) as int),
            final(dev).requests() == old(dev).requests().push(
                write_of(*old(fso) as int, self@.byte_len() as int),
            ),
            self@.encoding().len() == self@.byte_len(),
            match r {
                Ok(pointer) => {
                    &&& pointer == (ObjectPointer {
                        offset: *old(fso),
                        len: self@.byte_len() as u64,
                        object_type: self@.kind(),
                    })
                    &&& *final(fso) == *old(fso) + self@.byte_len()
                    &&& *final(fso) <= old(dev).view().len()
                    &&& final(dev).view() == overwritten(
                        old(dev).view(),
                        *old(fso) as int,
                        self@.encoding(),
                    )
                },
                Err(e) => {
                    &&& *final(fso) == *old(fso)
                    &&& old(dev).faultless() ==> {
                        &&& e == Error::OutOfRange
                        &&& *old(fso) + self@.byte_len() > old(dev).view().len()
                        &&& final(dev).view() == old(dev).view()
                    }
                },
            },
    {
        proof {
            self@.lemma_byte_len();
        }
        match self {
            AnyObject::LeafNode(node) => node.cow(dev, fso, ObjectType::LeafNode),
            AnyObject::InternalNode(node) => node.cow(dev, fso, ObjectType::InternalNode),
        }
    }
}

/// The one read that fetches the node under `pointer`.
pub open spec fn read_of(pointer: ObjectPointer) -> Request {
    Request::Read { offset: pointer.offset as int, length: pointer.len as int }
}

/// The one write that puts a node of `length` bytes at `offset`.
pub open spec fn write_of(offset: int, length: int) -> Request {
    Request::Write { offset, length }
}

impl ObjectPointer {
    /// Reads the node that the pointer addresses.
    ///
    /// One read of `len` bytes at `offset`, decoded as the kind of node that the
    /// pointer names. A device that fails the read hands its error through.
    pub fn async_read_object<D: BlockDevice>(&self, dev: &mut D) -> (r: Result<AnyObject, Error>)
        ensures
            final(dev).view() == old(dev).view(),
            final(dev).faultless() == old(dev).faultless(),
            final(dev).requests() == old(dev).requests().push(read_of(*self)),
            match r {
                Ok(object) => object_at(old(dev).view(), *self) == Ok::<NodeView, Error>(object@),
                Err(e) => old(dev).faultless() ==> object_at(old(dev).view(), *self) == Err::<
                    NodeView,
                    Error,
                >(e),
            },
    {
        let mem = match dev.read(self.offset, self.len) {
            Ok(mem) => mem,
            Err(e) => {
                return Err(e);
            },
        };
        match self.object_type {
            ObjectType::LeafNode => match LeafNode::from_bytes(mem.as_slice()) {
                Ok(node) => Ok(AnyObject::LeafNode(node)),
                Err(e) => Err(e),
            },
            ObjectType::InternalNode => match InternalNode::from_bytes(mem.as_slice()) {
                Ok(node) => Ok(AnyObject::InternalNode(node)),
                Err(e) => Err(e),
            },
        }
    }
}

impl<V: Serializable> Node<V> {
    /// The number of bytes that the node takes on the device.
    pub open spec fn spec_byte_len(&self) -> nat {
        node_encoding(self@).len()
    }

    /// Writes the encoding of the node at `offset` and returns its length.
    pub fn async_write_at<D: BlockDevice>(&self, dev: &mut D, offset: u64) -> (r: Result<
        u64,
        Error,
    >)
        requires
            self.spec_byte_len() <= usize::MAX,
        ensures
            final(dev).view().len() == old(dev).view().len(),
            final(dev).faultless() == old(dev).faultless(),
            same_below(old(dev).view(), final(dev).view(), offset as int),
            final(dev).requests() == old(dev).requests().push(
                write_of(offset as int, self.spec_byte_len() as int),
            ),
            match r {
                Ok(written) => {
                    &&& written == self.spec_byte_len()
                    &&& offset + written <= old(dev).view().len()
                    &&& offset + written <= u64::MAX
                    &&& final(dev).view() == overwritten(
                        old(dev).view(),
                        offset as int,
                        node_encoding(self@),
                    )
                },
                Err(e) => {
                    &&& forall|i: int|
                        0 <= i < old(dev).view().len() && !(offset <= i < offset
                            + self.spec_byte_len()) ==> final(dev).view()[i] == old(dev).view()[i]
                    &&& old(dev).faultless() ==> {
                        &&& e == Error::OutOfRange
                        &&& offset + self.spec_byte_len() > old(dev).view().len()
                        &&& final(dev).view() == old(dev).view()
                    }
                },
            },
    {
        proof {
            lemma_node_encoding_len(self@);
        }
        dev.write(self.to_mem(), offset)
    }

    /// Appends the node at the free-space offset.
    ///
    /// On success the node stands at the old `*fso`, which has moved past it,
    /// and the pointer returned names it with `kind`. On failure `*fso` has not
    /// moved.
    pub fn cow<D: BlockDevice>(&self, dev: &mut D, fso: &mut u64, kind: ObjectType) -> (r: Result<
        ObjectPointer,
        Error,
    >)
        requires
            self.spec_byte_len() <= usize::MAX,
        ensures
            final(dev).view().len() == old(dev).view().len(),
            final(dev).faultless() == old(dev).faultless(),
            same_below(old(dev).view(), final(dev).view(), *old(fso) as int),
            r is Ok ==> same_from(old(dev).view(), final(dev).view(), *final(fso) as int),
            final(dev).requests() == old(dev).requests().push(
                write_of(*old(fso) as int, self.spec_byte_len() as int),
            ),
            match r {
                Ok(pointer) => {
                    &&& pointer == (ObjectPointer {
                        offset: *old(fso),
                        len: self.spec_byte_len() as u64,
                        object_type: kind,
                    })
                    &&& *final(fso) == *old(fso) + self.spec_byte_len()
                    &&& *final(fso) <= old(dev).view().len()
                    &&& final(dev).view() == overwritten(
                        old(dev).view(),
                        *old(fso) as int,
                        node_encoding(self@),
                    )
                },
                Err(e) => {
                    &&& *final(fso) == *old(fso)
                    &&& old(dev).faultless() ==> {
                        &&& e == Error::OutOfRange
                        &&& *old(fso) + self.spec_byte_len() > old(dev).view().len()
                        &&& final(dev).view() == old(dev).view()
                    }
                },
            },
    {
        let offset = *fso;
        let len = match self.async_write_at(dev, offset) {
            Ok(len) => len,
            Err(e) => {
                return Err(e);
            },
        };
        *fso = offset + len;
        proof {
            lemma_overwritten_from(old(dev).view(), offset as int, node_encoding(self@));
        }
        Ok(ObjectPointer { offset, len, object_type: kind })
    }
}

} // verus!
