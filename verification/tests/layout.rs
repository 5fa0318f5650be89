use reactfs::{
    find_latest_uberblock, insert_in_btree, remove, write_new_uberblock, AnyObject, BlockDevice,
    Error, InternalNode, InternalNodeEntry, LeafNode, LeafNodeEntry, MemDevice, ObjectPointer,
    ObjectType, Uberblock,
};

const DATA_START: u64 = 40960;

fn leaf_at(dev: &mut MemDevice, fso: &mut u64, keys: &[u64]) -> ObjectPointer {
    let entries = keys.iter().map(|&k| LeafNodeEntry::new(k, k + 1000)).collect();
    LeafNode::with_entries(entries).cow(dev, fso, ObjectType::LeafNode).unwrap()
}

fn root_over(dev: &mut MemDevice, fso: &mut u64, links: &[(u64, ObjectPointer)]) -> ObjectPointer {
    let entries = links.iter().map(|&(k, p)| InternalNodeEntry::new(k, p)).collect();
    InternalNode::with_entries(entries).cow(dev, fso, ObjectType::InternalNode).unwrap()
}

fn links_of(dev: &mut MemDevice, op: ObjectPointer) -> Vec<(u64, ObjectPointer)> {
    match op.async_read_object(dev).unwrap() {
        AnyObject::InternalNode(node) => node.entries.iter().map(|e| (e.key, e.value)).collect(),
        AnyObject::LeafNode(_) => panic!("a leaf has no links"),
    }
}

fn six_keys() -> (MemDevice, ObjectPointer, u64) {
    let mut dev = MemDevice::new(4096 * 20);
    let mut op = ObjectPointer::new(DATA_START, 0, ObjectType::LeafNode);
    let mut fso = DATA_START;
    for k in [10u64, 20, 30, 40, 50, 60] {
        let done = insert_in_btree(&mut dev, op, fso, LeafNodeEntry::new(k, k + 1000)).unwrap();
        op = done.0;
        fso = done.1;
    }
    (dev, op, fso)
}

#[test]
fn the_fifth_key_leaves_a_leaf_at_the_free_space_offset() {
    let mut dev = MemDevice::new(4096 * 20);
    let mut op = ObjectPointer::new(DATA_START, 0, ObjectType::LeafNode);
    let mut fso = DATA_START;
    for k in [10u64, 20, 30, 40] {
        let done = insert_in_btree(&mut dev, op, fso, LeafNodeEntry::new(k, k + 1000)).unwrap();
        op = done.0;
        fso = done.1;
    }
    assert_eq!(op, ObjectPointer::new(41056, 64, ObjectType::LeafNode));
    assert_eq!(fso, 41120);
    let done = insert_in_btree(&mut dev, op, fso, LeafNodeEntry::new(50, 1050)).unwrap();
    assert_eq!(done, (ObjectPointer::new(41120, 80, ObjectType::LeafNode), 41200, None));
}

#[test]
fn a_root_split_writes_the_right_half_the_left_half_and_the_root() {
    let (mut dev, op, fso) = six_keys();
    assert_eq!(op, ObjectPointer::new(41296, 50, ObjectType::InternalNode));
    assert_eq!(fso, 41346);
    assert_eq!(
        links_of(&mut dev, op),
        vec![
            (10, ObjectPointer::new(41248, 48, ObjectType::LeafNode)),
            (40, ObjectPointer::new(41200, 48, ObjectType::LeafNode)),
        ]
    );
}

#[test]
fn a_split_below_the_root_gives_the_node_one_entry_more() {
    let (mut dev, mut op, mut fso) = six_keys();
    for k in [70u64, 80] {
        let done = insert_in_btree(&mut dev, op, fso, LeafNodeEntry::new(k, k + 1000)).unwrap();
        op = done.0;
        fso = done.1;
    }
    // the right leaf holds 40..80 and is full
    let before = links_of(&mut dev, op);
    assert_eq!(before.len(), 2);
    assert_eq!(before[1].1.len, 5 * 16);
    let (root, new_fso, old) =
        insert_in_btree(&mut dev, op, fso, LeafNodeEntry::new(45, 1045)).unwrap();
    assert_eq!(old, None);
    let after = links_of(&mut dev, root);
    // the left entry is as it was; the right one became two: the full leaf
    // was cut after its third entry, and the pair went into the left half
    assert_eq!(after.len(), 3);
    assert_eq!(after[0], before[0]);
    assert_eq!(after[1], (40, ObjectPointer::new(fso, 4 * 16, ObjectType::LeafNode)));
    assert_eq!(after[2], (70, ObjectPointer::new(fso + 64, 2 * 16, ObjectType::LeafNode)));
    assert_eq!(root, ObjectPointer::new(fso + 64 + 32, 3 * 25, ObjectType::InternalNode));
    assert_eq!(new_fso, fso + 64 + 32 + 75);
}

#[test]
fn an_insertion_into_a_child_with_room_replaces_one_entry() {
    let (mut dev, op, fso) = six_keys();
    let before = links_of(&mut dev, op);
    let (root, new_fso, _) = insert_in_btree(&mut dev, op, fso, LeafNodeEntry::new(25, 1025)).unwrap();
    let after = links_of(&mut dev, root);
    assert_eq!(after.len(), 2);
    assert_eq!(after[0], (10, ObjectPointer::new(fso, 4 * 16, ObjectType::LeafNode)));
    assert_eq!(after[1], before[1]);
    assert_eq!(root, ObjectPointer::new(fso + 64, 50, ObjectType::InternalNode));
    assert_eq!(new_fso, fso + 64 + 50);
}

#[test]
fn entries_moved_from_the_right_neighbour_are_written_child_neighbour_root() {
    let mut dev = MemDevice::new(4096 * 20);
    let mut fso = DATA_START;
    let left = leaf_at(&mut dev, &mut fso, &[10, 20]);
    let right = leaf_at(&mut dev, &mut fso, &[40, 50, 60, 70]);
    let root = root_over(&mut dev, &mut fso, &[(10, left), (40, right)]);
    assert_eq!(fso, 41106);
    let done = remove(&mut dev, root, fso, 20).unwrap();
    assert_eq!(done, (ObjectPointer::new(41186, 50, ObjectType::InternalNode), 41236, Some(1020)));
    assert_eq!(
        links_of(&mut dev, done.0),
        vec![
            (10, ObjectPointer::new(41106, 48, ObjectType::LeafNode)),
            (60, ObjectPointer::new(41154, 32, ObjectType::LeafNode)),
        ]
    );
}

#[test]
fn entries_moved_from_the_left_neighbour_are_written_child_neighbour_root() {
    let mut dev = MemDevice::new(4096 * 20);
    let mut fso = DATA_START;
    let left = leaf_at(&mut dev, &mut fso, &[5, 10, 20, 30]);
    let right = leaf_at(&mut dev, &mut fso, &[40, 50]);
    let root = root_over(&mut dev, &mut fso, &[(5, left), (40, right)]);
    assert_eq!(fso, 41106);
    let done = remove(&mut dev, root, fso, 50).unwrap();
    assert_eq!(done, (ObjectPointer::new(41186, 50, ObjectType::InternalNode), 41236, Some(1050)));
    // the child that took the entries comes first on the device, then the
    // neighbour that gave them
    assert_eq!(
        links_of(&mut dev, done.0),
        vec![
            (5, ObjectPointer::new(41154, 32, ObjectType::LeafNode)),
            (20, ObjectPointer::new(41106, 48, ObjectType::LeafNode)),
        ]
    );
}

#[test]
fn joined_children_are_written_once_and_the_root_after_them() {
    let mut dev = MemDevice::new(4096 * 20);
    let mut fso = DATA_START;
    let a = leaf_at(&mut dev, &mut fso, &[10, 20, 30]);
    let b = leaf_at(&mut dev, &mut fso, &[40, 50]);
    let c = leaf_at(&mut dev, &mut fso, &[60, 70, 80]);
    let root = root_over(&mut dev, &mut fso, &[(10, a), (40, b), (60, c)]);
    let start = fso;
    let done = remove(&mut dev, root, fso, 50).unwrap();
    assert_eq!(
        done,
        (ObjectPointer::new(start + 64, 50, ObjectType::InternalNode), start + 64 + 50, Some(1050))
    );
    assert_eq!(
        links_of(&mut dev, done.0),
        vec![(10, ObjectPointer::new(start, 64, ObjectType::LeafNode)), (60, c)]
    );
}

#[test]
fn a_root_of_two_joined_children_hands_back_the_child() {
    let mut dev = MemDevice::new(4096 * 20);
    let mut fso = DATA_START;
    let a = leaf_at(&mut dev, &mut fso, &[10, 20, 30]);
    let b = leaf_at(&mut dev, &mut fso, &[40, 50]);
    let root = root_over(&mut dev, &mut fso, &[(10, a), (40, b)]);
    let start = fso;
    let done = remove(&mut dev, root, fso, 50).unwrap();
    assert_eq!(done, (ObjectPointer::new(start, 64, ObjectType::LeafNode), start + 64, Some(1050)));
}

#[test]
fn the_root_is_the_last_node_written_and_nothing_lies_beyond_it() {
    let size = 4096 * 40;
    let mut dev = MemDevice::new(size);
    // mark the whole region for nodes
    dev.write(vec![0xab; size - DATA_START as usize], DATA_START).unwrap();
    let mut op = ObjectPointer::new(DATA_START, 0, ObjectType::LeafNode);
    let mut fso = DATA_START;
    let mut state = 7u64;
    for step in 0..300u64 {
        state = state.wrapping_mul(6364136223846793005).wrapping_add(1442695040888963407);
        let key = (state >> 33) % 64;
        let before = dev.read(0, size as u64).unwrap();
        let done = if step % 3 == 2 {
            remove(&mut dev, op, fso, key).unwrap()
        } else {
            insert_in_btree(&mut dev, op, fso, LeafNodeEntry::new(key, step)).unwrap()
        };
        let after = dev.read(0, size as u64).unwrap();
        assert!(done.1 >= fso);
        if done.1 == fso {
            assert_eq!(after, before);
        } else {
            assert_eq!(done.0.offset + done.0.len, done.1);
        }
        assert_eq!(after[..fso as usize], before[..fso as usize]);
        assert_eq!(after[done.1 as usize..], before[done.1 as usize..]);
        assert!(after[done.1 as usize..].iter().all(|&b| b == 0xab));
        op = done.0;
        fso = done.1;
    }
}

#[test]
fn a_removal_below_the_first_key_writes_nothing() {
    let (mut dev, op, fso) = six_keys();
    let before = dev.read(0, dev.size() as u64).unwrap();
    assert_eq!(remove(&mut dev, op, fso, 5).unwrap(), (op, fso, None));
    assert_eq!(dev.read(0, dev.size() as u64).unwrap(), before);
}

/// A device that fails every write and leaves what it holds as it is.
struct ReadOnly {
    inner: MemDevice,
}

impl BlockDevice for ReadOnly {
    fn read(&mut self, offset: u64, length: u64) -> Result<Vec<u8>, Error> {
        self.inner.read(offset, length)
    }

    fn write(&mut self, _data: Vec<u8>, _offset: u64) -> Result<u64, Error> {
        Err(Error::IoFailure)
    }

    fn flush(&mut self) -> Result<(), Error> {
        self.inner.flush()
    }
}

#[test]
fn a_commit_that_fails_leaves_the_ring_readable() {
    let mut inner = MemDevice::new(4096 * 20);
    reactfs::uberblock::format(&mut inner).unwrap();
    let root = ObjectPointer::new(DATA_START, 0, ObjectType::LeafNode);
    write_new_uberblock(&mut inner, Uberblock::new(10, root, DATA_START)).unwrap();
    let before = inner.read(0, DATA_START).unwrap();
    let mut dev = ReadOnly { inner };
    assert_eq!(
        write_new_uberblock(&mut dev, Uberblock::new(11, root, DATA_START)),
        Err(Error::IoFailure)
    );
    assert_eq!(dev.inner.read(0, DATA_START).unwrap(), before);
    assert_eq!(find_latest_uberblock(&mut dev).unwrap().tgx, 10);
}
