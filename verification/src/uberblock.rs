//! The uberblock ring: ten superblocks at the start of the device, of which
//! the one with the highest transaction group names the current root.

use vstd::prelude::*;
use vstd::bytes::{
    lemma_auto_spec_u64_to_from_le_bytes, spec_u64_from_le_bytes, spec_u64_to_le_bytes,
};
use vstd::slice::slice_subrange;
use crate::codec::{copy_to_vec, get_u64_le, put_slice, put_u64_le};
use crate::device::{overwritten, same_below, BlockDevice, Request};
use crate::error::Error;
use crate::node::{LeafNode, LeafNodeEntry};
use crate::object::NodeView;
use crate::object_pointer::{ObjectPointer, ObjectType};
use crate::tree::{btree_at, btree_map, is_btree, stored, Tree};

verus! {

/// The eight bytes that every uberblock starts with: `ReactFS0`.
pub const MAGIC_NUMBER: [u8; 8] = [82, 101, 97, 99, 116, 70, 83, 48];

/// The size of one slot of the ring, in bytes.
pub const BLOCK_SIZE: usize = 4096;

/// The number of slots of the ring.
pub const UBERBLOCK_COUNT: usize = 10;

/// The number of bytes of a slot that carry the uberblock; the rest is
/// padding.
pub const UBERBLOCK_SIZE: usize = 41;

/// A superblock: the transaction group that wrote it, the free-space offset
/// and the root of the tree as of that transaction group.
#[derive(Debug, Clone, Copy, PartialEq, Eq, Structural)]
pub struct Uberblock {
    pub tgx: u64,
    pub free_space_offset: u64,
    pub tree_root_pointer: ObjectPointer,
}

/// The magic number as a sequence of bytes.
pub open spec fn magic() -> Seq<u8> {
    seq![82u8, 101u8, 97u8, 99u8, 116u8, 70u8, 83u8, 48u8]
}

impl Uberblock {
    /// The 41 bytes that stand for `self`: the magic number, the transaction
    /// group, the free-space offset and the root pointer.
    pub open spec fn spec_to_bytes(self) -> Seq<u8> {
        magic() + spec_u64_to_le_bytes(self.tgx) + spec_u64_to_le_bytes(self.free_space_offset)
            + self.tree_root_pointer.spec_to_bytes()
    }

    /// What the first 41 bytes of `bytes` stand for: `ShortRead` when there are
    /// fewer, `CorruptMagic` when they do not start with the magic number,
    /// `UnknownObjectKind` when the kind byte of the root pointer is neither 0
    /// nor 1.
    pub open spec fn spec_from_bytes(bytes: Seq<u8>) -> Result<Uberblock, Error> {
        if bytes.len() < 41 {
            Err(Error::ShortRead)
        } else if bytes.subrange(0, 8) != magic() {
            Err(Error::CorruptMagic)
        } else {
            match ObjectPointer::spec_from_bytes(bytes.subrange(24, 41)) {
                Ok(tree_root_pointer) => Ok(
                    Uberblock {
                        tgx: spec_u64_from_le_bytes(bytes.subrange(8, 16)),
                        free_space_offset: spec_u64_from_le_bytes(bytes.subrange(16, 24)),
                        tree_root_pointer,
                    },
                ),
                Err(e) => Err(e),
            }
        }
    }

    /// Encoding an uberblock and decoding the bytes gives the uberblock back.
    pub proof fn lemma_round_trip(self)
        ensures
            self.spec_to_bytes().len() == 41,
            Self::spec_from_bytes(self.spec_to_bytes()) == Ok::<Uberblock, Error>(self),
    {
        lemma_auto_spec_u64_to_from_le_bytes();
        self.tree_root_pointer.lemma_round_trip();
        let bytes = self.spec_to_bytes();
        assert(bytes.subrange(0, 8) == magic());
        assert(bytes.subrange(8, 16) == spec_u64_to_le_bytes(self.tgx));
        assert(bytes.subrange(16, 24) == spec_u64_to_le_bytes(self.free_space_offset));
        assert(bytes.subrange(24, 41) == self.tree_root_pointer.spec_to_bytes());
    }

    pub fn new(tgx: u64, tree_root_pointer: ObjectPointer, free_space_offset: u64) -> (uberblock:
        Uberblock)
        ensures
            uberblock == (Uberblock { tgx, free_space_offset, tree_root_pointer }),
    {
        Uberblock { tgx, free_space_offset, tree_root_pointer }
    }

    /// Decodes the uberblock that `bytes` starts with.
    pub fn from_bytes(bytes: &[u8]) -> (r: Result<Uberblock, Error>)
        ensures
            r == Self::spec_from_bytes(bytes@),
    {
        if bytes.len() < UBERBLOCK_SIZE {
            return Err(Error::ShortRead);
        }
        let found = copy_to_vec(bytes, 0, 8);
        let expected = MAGIC_NUMBER;
        let mut i: usize = 0;
        while i < 8
            invariant
                i <= 8,
                found@ == bytes@.subrange(0, 8),
                bytes@.len() >= 41,
                expected@ == magic(),
                forall|j: int| 0 <= j < i ==> found@[j] == magic()[j],
            decreases 8 - i,
        {
            if found[i] != expected[i] {
                proof {
                    assert(found@[i as int] != magic()[i as int]);
                }
                return Err(Error::CorruptMagic);
            }
            i += 1;
        }
        assert(found@ == magic());
        let tgx = get_u64_le(bytes, 8);
        let free_space_offset = get_u64_le(bytes, 16);
        let tree_root_pointer = match ObjectPointer::from_bytes(
            slice_subrange(bytes, 24, UBERBLOCK_SIZE),
        ) {
            Ok(pointer) => pointer,
            Err(e) => {
                return Err(e);
            },
        };
        Ok(Uberblock { tgx, free_space_offset, tree_root_pointer })
    }

    /// Appends the 41 bytes of `self` to `bytes`.
    pub fn to_bytes(&self, bytes: &mut Vec<u8>)
        requires
            old(bytes)@.len() + 41 <= usize::MAX,
        ensures
            final(bytes)@ == old(bytes)@ + self.spec_to_bytes(),
    {
        proof {
            lemma_auto_spec_u64_to_from_le_bytes();
            self.tree_root_pointer.lemma_round_trip();
        }
        let magic_number = MAGIC_NUMBER;
        put_slice(bytes, magic_number.as_slice());
        put_u64_le(bytes, self.tgx);
        put_u64_le(bytes, self.free_space_offset);
        self.tree_root_pointer.to_bytes(bytes);
        assert(bytes@ == old(bytes)@ + self.spec_to_bytes());
    }

    /// The 41 bytes of `self`.
    pub fn to_mem(&self) -> (mem: Vec<u8>)
        ensures
            mem@ == self.spec_to_bytes(),
    {
        let mut mem: Vec<u8> = Vec::new();
        self.to_bytes(&mut mem);
        assert(Seq::<u8>::empty() + self.spec_to_bytes() == self.spec_to_bytes());
        mem
    }

    /// Writes the 41 bytes of `self` at `offset` and returns how many bytes
    /// were written.
    pub fn async_write_at<D: BlockDevice>(&self, dev: &mut D, offset: u64) -> (r: Result<
        u64,
        Error,
    >)
        ensures
            final(dev).view().len() == old(dev).view().len(),
            final(dev).faultless() == old(dev).faultless(),
            same_below(old(dev).view(), final(dev).view(), offset as int),
            final(dev).requests() == old(dev).requests().push(
                Request::Write { offset: offset as int, length: 41 },
            ),
            match r {
                Ok(written) => {
                    &&& written == 41
                    &&& offset + 41 <= old(dev).view().len()
                    &&& final(dev).view() == overwritten(
                        old(dev).view(),
                        offset as int,
                        self.spec_to_bytes(),
                    )
                },
                Err(e) => {
                    &&& forall|i: int|
                        0 <= i < old(dev).view().len() && !(offset <= i < offset + 41)
                            ==> final(dev).view()[i] == old(dev).view()[i]
                    &&& old(dev).faultless() ==> {
                        &&& e == Error::OutOfRange
                        &&& offset + 41 > old(dev).view().len()
                        &&& final(dev).view() == old(dev).view()
                    }
                },
            },
    {
        proof {
            self.lemma_round_trip();
        }
        dev.write(self.to_mem(), offset)
    }
}

/// The one read that fetches the ring.
pub open spec fn ring_read() -> Request {
    Request::Read { offset: 0, length: 40960 }
}

/// The one write that puts an uberblock into slot `i`.
pub open spec fn slot_write(i: int) -> Request {
    Request::Write { offset: i * 4096, length: 41 }
}

/// The bytes of slot `i` of the ring that carry its uberblock.
pub open spec fn slot_bytes(device: Seq<u8>, i: int) -> Seq<u8> {
    device.subrange(i * 4096, i * 4096 + 41)
}

/// What slot `i` of the ring holds.
pub open spec fn slot(device: Seq<u8>, i: int) -> Result<Uberblock, Error> {
    Uberblock::spec_from_bytes(slot_bytes(device, i))
}

/// Slot `i` holds the latest uberblock: it decodes, no slot that decodes has
/// a higher transaction group, and none before it has the same.
pub open spec fn is_latest(device: Seq<u8>, i: int) -> bool {
    &&& 0 <= i < 10
    &&& slot(device, i) is Ok
    &&& forall|j: int|
        0 <= j < 10 && (#[trigger] slot(device, j)) is Ok ==> {
            &&& slot(device, j)->Ok_0.tgx <= slot(device, i)->Ok_0.tgx
            &&& slot(device, j)->Ok_0.tgx == slot(device, i)->Ok_0.tgx ==> i <= j
        }
}

/// Slot `i` holds the oldest uberblock: it decodes, no slot that decodes has
/// a lower transaction group, and none before it has the same.
pub open spec fn is_oldest(device: Seq<u8>, i: int) -> bool {
    &&& 0 <= i < 10
    &&& slot(device, i) is Ok
    &&& forall|j: int|
        0 <= j < 10 && (#[trigger] slot(device, j)) is Ok ==> {
            &&& slot(device, i)->Ok_0.tgx <= slot(device, j)->Ok_0.tgx
            &&& slot(device, j)->Ok_0.tgx == slot(device, i)->Ok_0.tgx ==> i <= j
        }
}

/// Why the ring could not be used on a device that serves every request
/// within it: the device is too small to hold the ring, or no slot decodes,
/// and `e` is what the first slot failed with.
pub open spec fn ring_failure(device: Seq<u8>, e: Error) -> bool {
    if device.len() < 40960 {
        e == Error::OutOfRange
    } else {
        &&& forall|j: int| 0 <= j < 10 ==> (#[trigger] slot(device, j)) is Err
        &&& slot(device, 0) == Err::<Uberblock, Error>(e)
    }
}

/// The pointer to the empty leaf that a fresh store starts with.
pub open spec fn empty_root() -> ObjectPointer {
    ObjectPointer { offset: 40960, len: 0, object_type: ObjectType::LeafNode }
}

/// The device holds a fresh store: slot `i` of the ring holds the uberblock
/// of transaction group `i`, and all of them name the same empty tree.
pub open spec fn formatted(device: Seq<u8>) -> bool {
    &&& forall|i: int|
        0 <= i < 10 ==> #[trigger] slot(device, i) == Ok::<Uberblock, Error>(
            Uberblock {
                tgx: i as u64,
                free_space_offset: 40960,
                tree_root_pointer: empty_root(),
            },
        )
    &&& is_btree(device, empty_root(), 40960)
    &&& btree_map(device, empty_root()) == Map::<u64, u64>::empty()
}

/// No byte differs but in the 41 bytes of slot `i` that carry its uberblock.
pub open spec fn same_but_slot(before: Seq<u8>, after: Seq<u8>, i: int) -> bool {
    &&& after.len() == before.len()
    &&& forall|j: int|
        0 <= j < before.len() && !(i * 4096 <= j < i * 4096 + 41) ==> after[j] == before[j]
}

/// The bytes from the start of the region for nodes on are the same.
pub open spec fn same_nodes(before: Seq<u8>, after: Seq<u8>) -> bool {
    &&& after.len() == before.len()
    &&& forall|i: int| 40960 <= i < before.len() ==> after[i] == before[i]
}

/// After an uberblock is written to slot `i`, that slot holds it, and every
/// other slot holds what it held.
pub proof fn lemma_slot_written(device: Seq<u8>, i: int, uberblock: Uberblock, j: int)
    requires
        0 <= i < 10,
        0 <= j < 10,
        device.len() >= 40960,
    ensures
        slot(overwritten(device, i * 4096, uberblock.spec_to_bytes()), j) == if j == i {
            Ok(uberblock)
        } else {
            slot(device, j)
        },
        same_nodes(device, overwritten(device, i * 4096, uberblock.spec_to_bytes())),
{
    uberblock.lemma_round_trip();
    let after = overwritten(device, i * 4096, uberblock.spec_to_bytes());
    if j == i {
        assert(slot_bytes(after, j) == uberblock.spec_to_bytes());
    } else {
        assert(slot_bytes(after, j) == slot_bytes(device, j));
    }
}

/// An empty leaf at the start of the region for nodes is a sound B-tree that
/// holds nothing.
pub proof fn lemma_empty_tree(device: Seq<u8>)
    requires
        device.len() >= 40960,
    ensures
        is_btree(device, empty_root(), 40960),
        btree_map(device, empty_root()) == Map::<u64, u64>::empty(),
{
    let tree = Tree::Leaf { entries: Seq::<LeafNodeEntry>::empty() };
    assert(crate::object::object_bytes(device, empty_root()) == Seq::<u8>::empty());
    assert(stored(device, empty_root(), tree));
    assert(btree_at(device, empty_root(), tree, 0));
    crate::storage_proofs::lemma_btree_of(device, empty_root(), tree);
    assert(tree.map() =~= Map::<u64, u64>::empty());
}

/// Decodes the uberblock of slot `i` from the bytes of the ring.
fn decode_slot(ring: &[u8], i: usize) -> (r: Result<Uberblock, Error>)
    requires
        ring@.len() >= 40960,
        i < 10,
    ensures
        r == slot(ring@, i as int),
{
    Uberblock::from_bytes(slice_subrange(ring, i * BLOCK_SIZE, i * BLOCK_SIZE + UBERBLOCK_SIZE))
}

/// Reads the ring and returns the uberblock with the highest transaction
/// group; of several with the same, the one in the first slot. Slots that do
/// not decode are passed over.
pub fn find_latest_uberblock<D: BlockDevice>(dev: &mut D) -> (r: Result<Uberblock, Error>)
    ensures
        final(dev).view() == old(dev).view(),
        final(dev).faultless() == old(dev).faultless(),
        final(dev).requests() == old(dev).requests().push(ring_read()),
        match r {
            Ok(uberblock) => exists|i: int|
                #[trigger] is_latest(old(dev).view(), i) && slot(old(dev).view(), i) == Ok::<
                    Uberblock,
                    Error,
                >(uberblock),
            Err(e) => old(dev).faultless() ==> ring_failure(old(dev).view(), e),
        },
{
    let uberblocks = match dev.read(0, 40960) {
        Ok(data) => data,
        Err(e) => {
            return Err(e);
        },
    };
    let ghost device = dev.view();
    let mut latest: Option<Uberblock> = None;
    let mut first_error: Option<Error> = None;
    let ghost mut at: int = 0;
    let mut i: usize = 0;
    while i < UBERBLOCK_COUNT
        invariant
            i <= 10,
            device.len() >= 40960,
            uberblocks@ == device.subrange(0, 40960),
            i == 0 ==> first_error is None,
            match latest {
                Some(uberblock) => {
                    &&& 0 <= at < i
                    &&& slot(device, at) == Ok::<Uberblock, Error>(uberblock)
                    &&& forall|j: int|
                        0 <= j < i && (#[trigger] slot(device, j)) is Ok ==> {
                            &&& slot(device, j)->Ok_0.tgx <= uberblock.tgx
                            &&& slot(device, j)->Ok_0.tgx == uberblock.tgx ==> at <= j
                        }
                },
                None => {
                    &&& forall|j: int| 0 <= j < i ==> (#[trigger] slot(device, j)) is Err
                    &&& i > 0 ==> first_error is Some && slot(device, 0) == Err::<
                        Uberblock,
                        Error,
                    >(first_error->Some_0)
                },
            },
        decreases 10 - i,
    {
        let decoded = decode_slot(uberblocks.as_slice(), i);
        proof {
            assert(slot_bytes(uberblocks@, i as int) == slot_bytes(device, i as int));
            assert(decoded == slot(device, i as int));
        }
        match decoded {
            Ok(uberblock) => {
                let newer = match latest {
                    Some(found) => uberblock.tgx > found.tgx,
                    None => true,
                };
                if newer {
                    latest = Some(uberblock);
                    proof {
                        at = i as int;
                    }
                }
            },
            Err(e) => {
                if first_error.is_none() {
                    first_error = Some(e);
                }
            },
        }
        i += 1;
    }
    match latest {
        Some(uberblock) => {
            assert(is_latest(device, at));
            Ok(uberblock)
        },
        None => match first_error {
            Some(e) => Err(e),
            None => Err(Error::LogicError),
        },
    }
}

/// Writes `uberblock` over the oldest uberblock of the ring: the one with the
/// lowest transaction group; of several with the same, the one in the first
/// slot. Slots that do not decode are passed over, and no other slot is
/// touched: where the write fails, no byte has changed but in the 41 bytes of
/// that slot.
pub fn write_new_uberblock<D: BlockDevice>(dev: &mut D, uberblock: Uberblock) -> (r: Result<
    (),
    Error,
>)
    ensures
        same_nodes(old(dev).view(), final(dev).view()),
        final(dev).faultless() == old(dev).faultless(),
        match r {
            Ok(()) => exists|i: int|
                #[trigger] is_oldest(old(dev).view(), i) && final(dev).view() == overwritten(
                    old(dev).view(),
                    i * 4096,
                    uberblock.spec_to_bytes(),
                ) && final(dev).requests() == old(dev).requests().push(ring_read()).push(
                    slot_write(i),
                ),
            Err(e) => {
                &&& old(dev).faultless() ==> final(dev).view() == old(dev).view()
                    && ring_failure(old(dev).view(), e)
                &&& (final(dev).view() == old(dev).view() && final(dev).requests()
                    == old(dev).requests().push(ring_read())) || exists|i: int|
                    #[trigger] is_oldest(old(dev).view(), i) && same_but_slot(
                        old(dev).view(),
                        final(dev).view(),
                        i,
                    ) && final(dev).requests() == old(dev).requests().push(ring_read()).push(
                        slot_write(i),
                    )
            },
        },
{
    // first we find the oldest uberblock offset
    let data = match dev.read(0, 40960) {
        Ok(data) => data,
        Err(e) => {
            return Err(e);
        },
    };
    let ghost device = dev.view();
    let mut oldest: Option<(usize, u64)> = None;
    let mut first_error: Option<Error> = None;
    let mut i: usize = 0;
    while i < UBERBLOCK_COUNT
        invariant
            i <= 10,
            device.len() >= 40960,
            data@ == device.subrange(0, 40960),
            i == 0 ==> first_error is None,
            match oldest {
                Some((at, tgx)) => {
                    &&& 0 <= at < i
                    &&& slot(device, at as int) is Ok
                    &&& slot(device, at as int)->Ok_0.tgx == tgx
                    &&& forall|j: int|
                        0 <= j < i && (#[trigger] slot(device, j)) is Ok ==> {
                            &&& tgx <= slot(device, j)->Ok_0.tgx
                            &&& slot(device, j)->Ok_0.tgx == tgx ==> at <= j
                        }
                },
                None => {
                    &&& forall|j: int| 0 <= j < i ==> (#[trigger] slot(device, j)) is Err
                    &&& i > 0 ==> first_error is Some && slot(device, 0) == Err::<
                        Uberblock,
                        Error,
                    >(first_error->Some_0)
                },
            },
        decreases 10 - i,
    {
        let decoded = decode_slot(data.as_slice(), i);
        proof {
            assert(slot_bytes(data@, i as int) == slot_bytes(device, i as int));
            assert(decoded == slot(device, i as int));
        }
        match decoded {
            Ok(found) => {
                let older = match oldest {
                    Some((_, tgx)) => found.tgx < tgx,
                    None => true,
                };
                if older {
                    oldest = Some((i, found.tgx));
                }
            },
            Err(e) => {
                if first_error.is_none() {
                    first_error = Some(e);
                }
            },
        }
        i += 1;
    }
    let at = match oldest {
        Some((at, _)) => at,
        None => match first_error {
            Some(e) => {
                return Err(e);
            },
            None => {
                return Err(Error::LogicError);
            },
        },
    };
    assert(is_oldest(device, at as int));

    // now write the new uberblock in place of the oldest
    let written = uberblock.async_write_at(dev, (at * BLOCK_SIZE) as u64);
    proof {
        uberblock.lemma_round_trip();
        assert(same_nodes(device, dev.view()));
        if written is Err {
            assert(same_but_slot(device, dev.view(), at as int));
        }
    }
    match written {
        Ok(_) => Ok(()),
        Err(e) => Err(e),
    }
}

/// Makes a fresh store: an empty leaf at the start of the region for nodes,
/// and in slot `i` of the ring the uberblock of transaction group `i` that
/// names it.
pub fn format<D: BlockDevice>(dev: &mut D) -> (r: Result<(), Error>)
    ensures
        same_nodes(old(dev).view(), final(dev).view()),
        final(dev).faultless() == old(dev).faultless(),
        match r {
            Ok(()) => {
                &&& formatted(final(dev).view())
                &&& final(dev).requests() == old(dev).requests().push(
                    Request::Write { offset: 40960, length: 0 },
                ) + Seq::new(10, |i: int| slot_write(i))
            },
            Err(e) => old(dev).faultless() ==> e == Error::OutOfRange && old(dev).view().len()
                < 40960,
        },
{
    let mut free_space_offset: u64 = 40960;

    // write tree
    let tree = LeafNode::new();
    let tree_offset = free_space_offset;
    proof {
        NodeView::Leaf(tree@).lemma_byte_len();
    }
    let tree_len = match tree.async_write_at(dev, free_space_offset) {
        Ok(len) => len,
        Err(e) => {
            return Err(e);
        },
    };
    free_space_offset = free_space_offset + tree_len;

    // create pointer to tree
    let op = ObjectPointer::new(tree_offset, tree_len, ObjectType::LeafNode);

    // write all uberblocks
    let mut i: usize = 0;
    while i < UBERBLOCK_COUNT
        invariant
            i <= 10,
            dev.view().len() >= 40960,
            same_nodes(old(dev).view(), dev.view()),
            dev.faultless() == old(dev).faultless(),
            op == empty_root(),
            free_space_offset == 40960,
            dev.requests() == old(dev).requests().push(
                Request::Write { offset: 40960, length: 0 },
            ) + Seq::new(i as nat, |j: int| slot_write(j)),
            forall|j: int|
                0 <= j < i ==> #[trigger] slot(dev.view(), j) == Ok::<Uberblock, Error>(
                    Uberblock {
                        tgx: j as u64,
                        free_space_offset: 40960,
                        tree_root_pointer: empty_root(),
                    },
                ),
        decreases 10 - i,
    {
        let ghost before = dev.view();
        let ghost leaf = old(dev).requests().push(Request::Write { offset: 40960, length: 0 });
        let uberblock = Uberblock::new(i as u64, op, free_space_offset);
        let written = uberblock.async_write_at(dev, (i * BLOCK_SIZE) as u64);
        proof {
            uberblock.lemma_round_trip();
            assert(same_nodes(before, dev.view()));
            assert((leaf + Seq::new(i as nat, |j: int| slot_write(j))).push(slot_write(i as int))
                =~= leaf + Seq::new((i + 1) as nat, |j: int| slot_write(j)));
        }
        match written {
            Ok(_) => {},
            Err(e) => {
                return Err(e);
            },
        }
        proof {
            assert forall|j: int| 0 <= j < i + 1 implies #[trigger] slot(dev.view(), j) == Ok::<
                Uberblock,
                Error,
            >(
                Uberblock {
                    tgx: j as u64,
                    free_space_offset: 40960,
                    tree_root_pointer: empty_root(),
                },
            ) by {
                lemma_slot_written(before, i as int, uberblock, j);
            }
            lemma_slot_written(before, i as int, uberblock, 0);
        }
        i += 1;
    }
    proof {
        lemma_empty_tree(dev.view());
    }
    Ok(())
}

} // verus!
