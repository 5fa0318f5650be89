use reactfs::{
    apply_operations, find_latest_uberblock, raw_to_vec_of_operation, raw_to_vec_of_tuple_u16,
    raw_to_vec_of_tuple_u64, read_btree, Error, MemDevice, Operation,
};

#[test]
fn operations_are_three_bytes_each() {
    let decoded = raw_to_vec_of_operation(&[0, 1, 0, 0, 2, 0, 1, 1, 0]);
    assert_eq!(
        decoded,
        Some(vec![Operation::Insert(1, 0), Operation::Insert(2, 1), Operation::Remove(1)])
    );
}

#[test]
fn operation_keys_are_little_endian() {
    let decoded = raw_to_vec_of_operation(&[0, 0x34, 0x12, 1, 0xff, 0xff]);
    assert_eq!(decoded, Some(vec![Operation::Insert(0x1234, 0), Operation::Remove(0xffff)]));
}

#[test]
fn an_insertion_carries_the_count_of_operations_before_it() {
    let decoded = raw_to_vec_of_operation(&[1, 5, 0, 1, 6, 0, 0, 7, 0]);
    assert_eq!(
        decoded,
        Some(vec![Operation::Remove(5), Operation::Remove(6), Operation::Insert(7, 2)])
    );
}

#[test]
fn an_unknown_tag_gives_no_operations() {
    assert_eq!(raw_to_vec_of_operation(&[2, 0, 0]), None);
    assert_eq!(raw_to_vec_of_operation(&[0, 1, 0, 255, 0, 0]), None);
    assert_eq!(raw_to_vec_of_operation(&[0, 1, 0, 7]), None);
}

#[test]
fn a_cut_off_operation_ends_the_list() {
    assert_eq!(raw_to_vec_of_operation(&[]), Some(vec![]));
    assert_eq!(raw_to_vec_of_operation(&[0]), Some(vec![]));
    assert_eq!(raw_to_vec_of_operation(&[1, 9]), Some(vec![]));
    assert_eq!(raw_to_vec_of_operation(&[1, 9, 0, 0, 3]), Some(vec![Operation::Remove(9)]));
}

#[test]
fn pairs_of_eight_byte_numbers() {
    let mut data = Vec::new();
    data.extend_from_slice(&0x0102030405060708u64.to_le_bytes());
    data.extend_from_slice(&u64::MAX.to_le_bytes());
    data.extend_from_slice(&7u64.to_le_bytes());
    data.extend_from_slice(&9u64.to_le_bytes());
    data.extend_from_slice(&[1, 2, 3, 4, 5, 6, 7, 8, 9, 10, 11, 12, 13, 14, 15]);
    assert_eq!(raw_to_vec_of_tuple_u64(&data), vec![(0x0102030405060708, u64::MAX), (7, 9)]);
    assert_eq!(raw_to_vec_of_tuple_u64(&data[..15]), vec![]);
    assert_eq!(raw_to_vec_of_tuple_u64(&[]), vec![]);
}

#[test]
fn pairs_of_two_byte_numbers() {
    let data = [0x34, 0x12, 0xff, 0xff, 1, 0, 0, 1, 9, 9, 9];
    assert_eq!(raw_to_vec_of_tuple_u16(&data), vec![(0x1234, 0xffff), (1, 256)]);
    assert_eq!(raw_to_vec_of_tuple_u16(&data[..3]), vec![]);
    assert_eq!(raw_to_vec_of_tuple_u16(&[]), vec![]);
}

#[test]
fn decoded_operations_run_against_a_store() {
    let mut dev = MemDevice::new(1 << 16);
    reactfs::uberblock::format(&mut dev).unwrap();
    let uberblock = find_latest_uberblock(&mut dev).unwrap();
    let operations = raw_to_vec_of_operation(&[0, 1, 0, 0, 2, 0, 1, 1, 0, 0, 2, 0]).unwrap();
    let (root, fso) = apply_operations(
        &mut dev,
        uberblock.tree_root_pointer,
        uberblock.free_space_offset,
        &operations,
    )
    .unwrap();
    assert!(fso > uberblock.free_space_offset);
    let entries = read_btree(&mut dev, root).unwrap();
    assert_eq!(entries.len(), 1);
    assert_eq!((entries[0].key, entries[0].value), (2, 3));
}

#[test]
fn a_run_that_does_not_fit_is_out_of_range() {
    let mut dev = MemDevice::new(40960 + 16);
    reactfs::uberblock::format(&mut dev).unwrap();
    let uberblock = find_latest_uberblock(&mut dev).unwrap();
    let operations = vec![Operation::Insert(1, 1), Operation::Insert(2, 2)];
    let done = apply_operations(
        &mut dev,
        uberblock.tree_root_pointer,
        uberblock.free_space_offset,
        &operations,
    );
    assert_eq!(done.err(), Some(Error::OutOfRange));
}

#[test]
fn a_run_fails_exactly_when_its_last_byte_does_not_fit() {
    let operations = raw_to_vec_of_operation(&[
        0, 1, 0, 0, 2, 0, 0, 3, 0, 0, 4, 0, 0, 5, 0, 0, 6, 0, 1, 2, 0, 0, 7, 0, 1, 6, 0, 1, 5, 0,
    ])
    .unwrap();
    let mut wide = MemDevice::new(1 << 16);
    reactfs::uberblock::format(&mut wide).unwrap();
    let start = find_latest_uberblock(&mut wide).unwrap();
    let (root, needed) = apply_operations(
        &mut wide,
        start.tree_root_pointer,
        start.free_space_offset,
        &operations,
    )
    .unwrap();
    assert_eq!(root.offset + root.len, needed);

    let mut fitting = MemDevice::new(needed as usize);
    reactfs::uberblock::format(&mut fitting).unwrap();
    let done = apply_operations(
        &mut fitting,
        start.tree_root_pointer,
        start.free_space_offset,
        &operations,
    );
    assert_eq!(done, Ok((root, needed)));
    assert_eq!(read_btree(&mut fitting, root), read_btree(&mut wide, root));

    let mut narrow = MemDevice::new(needed as usize - 1);
    reactfs::uberblock::format(&mut narrow).unwrap();
    let done = apply_operations(
        &mut narrow,
        start.tree_root_pointer,
        start.free_space_offset,
        &operations,
    );
    assert_eq!(done, Err(Error::OutOfRange));
}
