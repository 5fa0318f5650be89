use reactfs::{
    get, insert_in_btree, read_btree, remove, AnyObject, BlockDevice, Error, InternalNode,
    InternalNodeEntry, LeafNode, LeafNodeEntry, MemDevice, Node, ObjectPointer, ObjectType,
};

#[test]
fn mem_device_starts_zeroed() {
    let mut dev = MemDevice::new(64);
    assert_eq!(dev.size(), 64);
    assert_eq!(dev.read(0, 64), Ok(vec![0u8; 64]));
    assert_eq!(dev.read(64, 0), Ok(vec![]));
}

#[test]
fn mem_device_reads_what_was_written() {
    let mut dev = MemDevice::new(32);
    assert_eq!(dev.write(vec![1, 2, 3, 4], 10), Ok(4));
    assert_eq!(dev.read(8, 8), Ok(vec![0, 0, 1, 2, 3, 4, 0, 0]));
    assert_eq!(dev.write(vec![9, 9], 12), Ok(2));
    assert_eq!(dev.read(10, 4), Ok(vec![1, 2, 9, 9]));
    assert_eq!(dev.write(vec![], 32), Ok(0));
    assert_eq!(dev.write(vec![7], 31), Ok(1));
    assert_eq!(dev.read(31, 1), Ok(vec![7]));
    assert_eq!(dev.flush(), Ok(()));
    assert_eq!(dev.size(), 32);
}

#[test]
fn mem_device_rejects_requests_beyond_its_end() {
    let mut dev = MemDevice::new(32);
    assert_eq!(dev.read(30, 3), Err(Error::OutOfRange));
    assert_eq!(dev.read(33, 0), Err(Error::OutOfRange));
    assert_eq!(dev.read(u64::MAX, 2), Err(Error::OutOfRange));
    assert_eq!(dev.read(2, u64::MAX), Err(Error::OutOfRange));
    assert_eq!(dev.write(vec![1, 2, 3], 30), Err(Error::OutOfRange));
    assert_eq!(dev.write(vec![1], u64::MAX), Err(Error::OutOfRange));
    assert_eq!(dev.read(0, 32), Ok(vec![0u8; 32]));
}

#[test]
fn read_object_decodes_by_kind() {
    let mut dev = MemDevice::new(42000);
    let leaf = LeafNode::with_entries(vec![LeafNodeEntry::new(1, 2), LeafNodeEntry::new(3, 4)]);
    assert_eq!(leaf.async_write_at(&mut dev, 40960), Ok(32));
    let pointer = ObjectPointer::new(40960, 32, ObjectType::LeafNode);
    assert_eq!(pointer.async_read_object(&mut dev), Ok(AnyObject::LeafNode(leaf)));
    let internal = InternalNode::with_entries(vec![InternalNodeEntry::new(1, pointer)]);
    assert_eq!(internal.async_write_at(&mut dev, 41000), Ok(25));
    let above = ObjectPointer::new(41000, 25, ObjectType::InternalNode);
    assert_eq!(above.async_read_object(&mut dev), Ok(AnyObject::InternalNode(internal)));
    // the same bytes read as the other kind: the first entry ends in a
    // byte that is no kind
    let wrong = ObjectPointer::new(40960, 32, ObjectType::InternalNode);
    assert_eq!(wrong.async_read_object(&mut dev), Err(Error::UnknownObjectKind));
    // with a byte that is a kind, seven bytes are left over
    let other = LeafNode::with_entries(vec![LeafNodeEntry::new(1, 2), LeafNodeEntry::new(3, 1)]);
    assert_eq!(other.async_write_at(&mut dev, 41500), Ok(32));
    let wrong = ObjectPointer::new(41500, 32, ObjectType::InternalNode);
    assert_eq!(wrong.async_read_object(&mut dev), Err(Error::ShortRead));
    let beyond = ObjectPointer::new(41990, 32, ObjectType::LeafNode);
    assert_eq!(beyond.async_read_object(&mut dev), Err(Error::OutOfRange));
}

#[test]
fn cow_appends_at_the_free_space_offset() {
    let mut dev = MemDevice::new(41100);
    let mut fso = 40960u64;
    let leaf = LeafNode::with_entries(vec![LeafNodeEntry::new(1, 2)]);
    let first = leaf.cow(&mut dev, &mut fso, ObjectType::LeafNode).unwrap();
    assert_eq!(first, ObjectPointer::new(40960, 16, ObjectType::LeafNode));
    assert_eq!(fso, 40976);
    let internal = InternalNode::with_entries(vec![InternalNodeEntry::new(1, first)]);
    let second = internal.cow(&mut dev, &mut fso, ObjectType::InternalNode).unwrap();
    assert_eq!(second, ObjectPointer::new(40976, 25, ObjectType::InternalNode));
    assert_eq!(fso, 41001);
    let empty: LeafNode = Node::new();
    let third = empty.cow(&mut dev, &mut fso, ObjectType::LeafNode).unwrap();
    assert_eq!(third, ObjectPointer::new(41001, 0, ObjectType::LeafNode));
    assert_eq!(fso, 41001);
    assert_eq!(read_btree(&mut dev, second).unwrap(), vec![LeafNodeEntry::new(1, 2)]);
}

#[test]
fn cow_on_a_full_device_leaves_the_offset() {
    let mut dev = MemDevice::new(40970);
    let mut fso = 40960u64;
    let leaf = LeafNode::with_entries(vec![LeafNodeEntry::new(1, 2)]);
    assert_eq!(leaf.cow(&mut dev, &mut fso, ObjectType::LeafNode), Err(Error::OutOfRange));
    assert_eq!(fso, 40960);
    assert_eq!(dev.read(40960, 10).unwrap(), vec![0u8; 10]);
}

#[test]
fn insertion_fails_when_the_device_is_full_and_keeps_the_old_tree() {
    let mut dev = MemDevice::new(40960 + 16 + 32 + 40);
    reactfs::uberblock::format(&mut dev).unwrap();
    let root = ObjectPointer::new(40960, 0, ObjectType::LeafNode);
    let (op, fso, _) = insert_in_btree(&mut dev, root, 40960, LeafNodeEntry::new(1, 1)).unwrap();
    let (op, fso, _) = insert_in_btree(&mut dev, op, fso, LeafNodeEntry::new(2, 2)).unwrap();
    assert_eq!(fso, 40960 + 48);
    let before = dev.read(0, fso).unwrap();
    assert_eq!(
        insert_in_btree(&mut dev, op, fso, LeafNodeEntry::new(3, 3)),
        Err(Error::OutOfRange)
    );
    assert_eq!(remove(&mut dev, op, fso, 2), Ok((ObjectPointer::new(fso, 16, ObjectType::LeafNode), fso + 16, Some(2))));
    assert_eq!(dev.read(0, fso).unwrap(), before);
    assert_eq!(get(&mut dev, op, 2), Ok(Some(2)));
}

/// A device that serves `budget` requests and fails every one after that.
struct FailingDevice {
    inner: MemDevice,
    budget: usize,
}

impl FailingDevice {
    fn spend(&mut self) -> Result<(), Error> {
        if self.budget == 0 {
            return Err(Error::IoFailure);
        }
        self.budget -= 1;
        Ok(())
    }
}

impl BlockDevice for FailingDevice {
    fn read(&mut self, offset: u64, length: u64) -> Result<Vec<u8>, Error> {
        self.spend()?;
        self.inner.read(offset, length)
    }

    fn write(&mut self, data: Vec<u8>, offset: u64) -> Result<u64, Error> {
        self.spend()?;
        self.inner.write(data, offset)
    }

    fn flush(&mut self) -> Result<(), Error> {
        self.spend()?;
        self.inner.flush()
    }
}

#[test]
fn device_failures_are_handed_through() {
    let mut inner = MemDevice::new(4096 * 100);
    reactfs::uberblock::format(&mut inner).unwrap();
    let mut op = ObjectPointer::new(40960, 0, ObjectType::LeafNode);
    let mut fso = 40960;
    for key in 0..40u64 {
        let res = insert_in_btree(&mut inner, op, fso, LeafNodeEntry::new(key, key)).unwrap();
        op = res.0;
        fso = res.1;
    }
    let committed = inner.read(0, fso).unwrap();
    for budget in 0..12 {
        let mut dev = FailingDevice { inner: MemDevice::new(0), budget };
        std::mem::swap(&mut dev.inner, &mut inner);
        let res = insert_in_btree(&mut dev, op, fso, LeafNodeEntry::new(100, 100));
        if let Err(e) = res {
            assert_eq!(e, Error::IoFailure);
        }
        dev.budget = budget;
        let res = remove(&mut dev, op, fso, 20);
        if let Err(e) = res {
            assert_eq!(e, Error::IoFailure);
        }
        dev.budget = budget;
        if budget < 3 {
            assert_eq!(get(&mut dev, op, 20), Err(Error::IoFailure));
        } else {
            assert_eq!(get(&mut dev, op, 20), Ok(Some(20)));
        }
        dev.budget = usize::MAX;
        // what was committed stands, whatever failed
        assert_eq!(dev.read(0, fso).unwrap(), committed);
        assert_eq!(read_btree(&mut dev, op).unwrap().len(), 40);
        std::mem::swap(&mut dev.inner, &mut inner);
    }
    let mut dev = FailingDevice { inner: MemDevice::new(4096 * 11), budget: 3 };
    assert_eq!(reactfs::uberblock::format(&mut dev), Err(Error::IoFailure));
    dev.budget = 0;
    assert_eq!(reactfs::find_latest_uberblock(&mut dev), Err(Error::IoFailure));
}

#[test]
fn broken_trees_are_logic_errors() {
    let mut dev = MemDevice::new(4096 * 20);
    // an internal node whose only entry points at the node itself
    let own = ObjectPointer::new(40960, 25, ObjectType::InternalNode);
    let node = InternalNode::with_entries(vec![InternalNodeEntry::new(1, own)]);
    node.async_write_at(&mut dev, 40960).unwrap();
    assert_eq!(get(&mut dev, own, 5), Err(Error::LogicError));
    assert_eq!(read_btree(&mut dev, own), Err(Error::LogicError));
    assert_eq!(
        insert_in_btree(&mut dev, own, 41000, LeafNodeEntry::new(5, 5)),
        Err(Error::LogicError)
    );
    assert_eq!(remove(&mut dev, own, 41000, 5), Err(Error::LogicError));
    // an internal node without entries
    let empty = ObjectPointer::new(50000, 0, ObjectType::InternalNode);
    assert_eq!(get(&mut dev, empty, 5), Err(Error::LogicError));
    assert_eq!(
        insert_in_btree(&mut dev, empty, 50000, LeafNodeEntry::new(5, 5)),
        Err(Error::LogicError)
    );
    // a node with more entries than a node may have
    let crowded = LeafNode::with_entries((0..6).map(|k| LeafNodeEntry::new(k, k)).collect());
    crowded.async_write_at(&mut dev, 60000).unwrap();
    let pointer = ObjectPointer::new(60000, 96, ObjectType::LeafNode);
    assert_eq!(
        insert_in_btree(&mut dev, pointer, 61000, LeafNodeEntry::new(9, 9)),
        Err(Error::LogicError)
    );
    // a child with a single sibling of the other kind
    let leaf = LeafNode::with_entries(vec![LeafNodeEntry::new(1, 1), LeafNodeEntry::new(2, 2)]);
    leaf.async_write_at(&mut dev, 62000).unwrap();
    let inner = InternalNode::with_entries(vec![
        InternalNodeEntry::new(5, ObjectPointer::new(62000, 32, ObjectType::LeafNode)),
        InternalNodeEntry::new(6, ObjectPointer::new(62000, 32, ObjectType::LeafNode)),
    ]);
    inner.async_write_at(&mut dev, 62100).unwrap();
    let mixed = InternalNode::with_entries(vec![
        InternalNodeEntry::new(1, ObjectPointer::new(62000, 32, ObjectType::LeafNode)),
        InternalNodeEntry::new(5, ObjectPointer::new(62100, 50, ObjectType::InternalNode)),
    ]);
    mixed.async_write_at(&mut dev, 62200).unwrap();
    let pointer = ObjectPointer::new(62200, 50, ObjectType::InternalNode);
    assert_eq!(remove(&mut dev, pointer, 63000, 1), Err(Error::LogicError));
}

#[test]
fn a_root_that_does_not_decode_is_handed_through_and_nothing_is_written() {
    let mut dev = MemDevice::new(4096 * 20);
    dev.write(vec![7u8; 64], 40960).unwrap();
    let before = dev.read(0, 4096 * 20).unwrap();
    // seven bytes over three leaf entries
    let ragged = ObjectPointer::new(40960, 55, ObjectType::LeafNode);
    // an entry of an internal node whose kind byte is 7
    let unkind = ObjectPointer::new(40960, 25, ObjectType::InternalNode);
    // a node that reaches beyond the device
    let beyond = ObjectPointer::new(4096 * 20 - 8, 16, ObjectType::LeafNode);
    for (pointer, error) in [
        (ragged, Error::ShortRead),
        (unkind, Error::UnknownObjectKind),
        (beyond, Error::OutOfRange),
    ] {
        assert_eq!(get(&mut dev, pointer, 5), Err(error));
        assert_eq!(read_btree(&mut dev, pointer), Err(error));
        assert_eq!(insert_in_btree(&mut dev, pointer, 50000, LeafNodeEntry::new(5, 5)), Err(error));
        assert_eq!(remove(&mut dev, pointer, 50000, 5), Err(error));
    }
    assert_eq!(dev.read(0, 4096 * 20).unwrap(), before);
}

#[test]
fn a_root_with_too_many_entries_is_a_logic_error_and_nothing_is_written() {
    let mut dev = MemDevice::new(4096 * 20);
    let crowded = LeafNode::with_entries((0..6).map(|k| LeafNodeEntry::new(k, k)).collect());
    crowded.async_write_at(&mut dev, 60000).unwrap();
    let before = dev.read(0, 4096 * 20).unwrap();
    let pointer = ObjectPointer::new(60000, 96, ObjectType::LeafNode);
    assert_eq!(
        insert_in_btree(&mut dev, pointer, 61000, LeafNodeEntry::new(9, 9)),
        Err(Error::LogicError)
    );
    assert_eq!(remove(&mut dev, pointer, 61000, 3), Err(Error::LogicError));
    assert_eq!(dev.read(0, 4096 * 20).unwrap(), before);
}
