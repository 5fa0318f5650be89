use reactfs::{
    find_latest_uberblock, read_btree, write_new_uberblock, BlockDevice, Error, MemDevice,
    ObjectPointer, ObjectType, Uberblock, BLOCK_SIZE,
};

fn slots(dev: &mut MemDevice) -> Vec<Result<Uberblock, Error>> {
    let ring = dev.read(0, 10 * BLOCK_SIZE as u64).unwrap();
    ring.chunks(BLOCK_SIZE).map(|chunk| Uberblock::from_bytes(&chunk[0..41])).collect()
}

fn formatted() -> MemDevice {
    let mut dev = MemDevice::new(4096 * 1000);
    reactfs::uberblock::format(&mut dev).unwrap();
    dev
}

#[test]
fn format_writes_ten_uberblocks_over_an_empty_leaf() {
    let mut dev = formatted();
    let root = ObjectPointer::new(10 * 4096, 0, ObjectType::LeafNode);
    let found = slots(&mut dev);
    assert_eq!(found.len(), 10);
    for (i, slot) in found.iter().enumerate() {
        assert_eq!(*slot, Ok(Uberblock::new(i as u64, root, 10 * 4096)));
    }
    assert_eq!(read_btree(&mut dev, root).unwrap(), vec![]);
    let latest = find_latest_uberblock(&mut dev).unwrap();
    assert_eq!(latest.tgx, 9);
    assert_eq!(latest.free_space_offset, 40960);
    assert_eq!(latest.tree_root_pointer, root);
}

#[test]
fn format_leaves_the_node_region_alone() {
    let mut dev = MemDevice::new(4096 * 11);
    dev.write(vec![0xab; 4096], 40960).unwrap();
    reactfs::uberblock::format(&mut dev).unwrap();
    assert_eq!(dev.read(40960, 4096).unwrap(), vec![0xab; 4096]);
}

#[test]
fn format_needs_room_for_the_ring() {
    let mut dev = MemDevice::new(40959);
    assert_eq!(reactfs::uberblock::format(&mut dev), Err(Error::OutOfRange));
    assert_eq!(dev.read(0, 40959).unwrap(), vec![0u8; 40959]);
    let mut dev = MemDevice::new(40960);
    assert_eq!(reactfs::uberblock::format(&mut dev), Ok(()));
    assert_eq!(find_latest_uberblock(&mut dev).unwrap().tgx, 9);
}

#[test]
fn format_read_and_write_uberblock() {
    for n in 0usize..20 {
        let mut dev = formatted();
        for _ in 0..n {
            let mut u = find_latest_uberblock(&mut dev).unwrap();
            u.tgx += 1;
            write_new_uberblock(&mut dev, u).unwrap();
        }
        let r = find_latest_uberblock(&mut dev);
        assert!(r.unwrap().tgx == 9 + n as u64);
    }
}

#[test]
fn twenty_commits_rotate_through_the_ring() {
    let mut dev = formatted();
    for k in 1..=20u64 {
        let before = slots(&mut dev);
        let mut u = find_latest_uberblock(&mut dev).unwrap();
        u.tgx += 1;
        u.free_space_offset += 100;
        write_new_uberblock(&mut dev, u).unwrap();
        let after = slots(&mut dev);
        assert_eq!(find_latest_uberblock(&mut dev).unwrap().tgx, 9 + k);
        assert_eq!(find_latest_uberblock(&mut dev).unwrap(), u);
        assert!(after.iter().filter(|slot| slot.is_ok()).count() >= 9);
        // the slot that held the oldest uberblock holds the new one
        let oldest = (0..10).min_by_key(|i| before[*i].unwrap().tgx).unwrap();
        assert_eq!(oldest as u64, (k - 1) % 10);
        for i in 0..10 {
            if i == oldest {
                assert_eq!(after[i], Ok(u));
            } else {
                assert_eq!(after[i], before[i]);
            }
        }
    }
}

#[test]
fn latest_of_equal_transaction_groups_is_the_first() {
    let mut dev = formatted();
    let root = ObjectPointer::new(40960, 0, ObjectType::LeafNode);
    Uberblock::new(50, root, 111).async_write_at(&mut dev, 3 * 4096).unwrap();
    Uberblock::new(50, root, 222).async_write_at(&mut dev, 7 * 4096).unwrap();
    assert_eq!(find_latest_uberblock(&mut dev).unwrap(), Uberblock::new(50, root, 111));
}

#[test]
fn oldest_of_equal_transaction_groups_is_the_first() {
    let mut dev = formatted();
    let root = ObjectPointer::new(40960, 0, ObjectType::LeafNode);
    for i in 0..10u64 {
        Uberblock::new(5, root, i).async_write_at(&mut dev, i * 4096).unwrap();
    }
    Uberblock::new(4, root, 44).async_write_at(&mut dev, 2 * 4096).unwrap();
    Uberblock::new(4, root, 66).async_write_at(&mut dev, 6 * 4096).unwrap();
    let new = Uberblock::new(6, root, 1000);
    write_new_uberblock(&mut dev, new).unwrap();
    let found = slots(&mut dev);
    assert_eq!(found[2], Ok(new));
    assert_eq!(found[6], Ok(Uberblock::new(4, root, 66)));
    assert_eq!(find_latest_uberblock(&mut dev).unwrap(), new);
}

#[test]
fn undecodable_slots_are_passed_over() {
    let mut dev = formatted();
    // the latest slot and two others lose their magic number
    for i in [9u64, 4, 0] {
        dev.write(vec![0u8; 8], i * 4096).unwrap();
    }
    assert_eq!(find_latest_uberblock(&mut dev).unwrap().tgx, 8);
    let new = Uberblock::new(100, ObjectPointer::new(40960, 0, ObjectType::LeafNode), 40960);
    write_new_uberblock(&mut dev, new).unwrap();
    let found = slots(&mut dev);
    // slot 1 held the oldest uberblock that decodes
    assert_eq!(found[1], Ok(new));
    assert_eq!(found[0], Err(Error::CorruptMagic));
    assert_eq!(found[4], Err(Error::CorruptMagic));
    assert_eq!(found[9], Err(Error::CorruptMagic));
    assert_eq!(find_latest_uberblock(&mut dev).unwrap(), new);
}

#[test]
fn a_ring_without_uberblocks_fails_with_the_error_of_the_first_slot() {
    let mut dev = MemDevice::new(4096 * 20);
    assert_eq!(find_latest_uberblock(&mut dev), Err(Error::CorruptMagic));
    let new = Uberblock::new(1, ObjectPointer::new(40960, 0, ObjectType::LeafNode), 40960);
    assert_eq!(write_new_uberblock(&mut dev, new), Err(Error::CorruptMagic));
    assert_eq!(dev.read(0, 4096 * 20).unwrap(), vec![0u8; 4096 * 20]);
    // the first slot has the magic number and a root of no known kind
    let mut broken = new.to_mem();
    broken[40] = 3;
    dev.write(broken, 0).unwrap();
    assert_eq!(find_latest_uberblock(&mut dev), Err(Error::UnknownObjectKind));
}

#[test]
fn a_device_smaller_than_the_ring_is_out_of_range() {
    let mut dev = MemDevice::new(4096 * 9);
    assert_eq!(find_latest_uberblock(&mut dev), Err(Error::OutOfRange));
    let new = Uberblock::new(1, ObjectPointer::new(40960, 0, ObjectType::LeafNode), 40960);
    assert_eq!(write_new_uberblock(&mut dev, new), Err(Error::OutOfRange));
}

#[test]
fn uberblock_write_reports_its_length() {
    let mut dev = MemDevice::new(100);
    let uberblock = Uberblock::new(1, ObjectPointer::new(40960, 0, ObjectType::LeafNode), 40960);
    assert_eq!(uberblock.async_write_at(&mut dev, 10), Ok(41));
    assert_eq!(dev.read(10, 41).unwrap(), uberblock.to_mem());
    assert_eq!(uberblock.async_write_at(&mut dev, 60), Err(Error::OutOfRange));
    assert_eq!(uberblock.async_write_at(&mut dev, 59), Ok(41));
}
