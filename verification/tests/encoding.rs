use byteorder::{ByteOrder, LittleEndian};

use reactfs::{
    is_sorted, Error, InternalNode, InternalNodeEntry, LeafNode, LeafNodeEntry, Node, NodeEntry,
    ObjectPointer, ObjectType, Serializable, Uberblock, MAGIC_NUMBER,
};

fn pointer_bytes(offset: u64, len: u64, kind: u8) -> Vec<u8> {
    let mut bytes = vec![0u8; 17];
    LittleEndian::write_u64(&mut bytes[0..8], offset);
    LittleEndian::write_u64(&mut bytes[8..16], len);
    bytes[16] = kind;
    bytes
}

#[test]
fn object_type_kind_bytes() {
    assert_eq!(ObjectType::InternalNode.to_u8(), 0);
    assert_eq!(ObjectType::LeafNode.to_u8(), 1);
    assert_eq!(ObjectType::from_u8(0), Some(ObjectType::InternalNode));
    assert_eq!(ObjectType::from_u8(1), Some(ObjectType::LeafNode));
    assert_eq!(ObjectType::from_u8(2), None);
    assert_eq!(ObjectType::from_u8(255), None);
}

#[test]
fn object_pointer_is_seventeen_little_endian_bytes() {
    let pointer = ObjectPointer::new(0x0102030405060708, 0x1112131415161718, ObjectType::LeafNode);
    let mut bytes = Vec::new();
    pointer.to_bytes(&mut bytes);
    assert_eq!(bytes, pointer_bytes(0x0102030405060708, 0x1112131415161718, 1));
    assert_eq!(&bytes[0..8], &[8, 7, 6, 5, 4, 3, 2, 1]);
    assert_eq!(bytes[16], 1);
    // appended after what was there
    let mut longer = vec![9u8, 9];
    ObjectPointer::new(1, 2, ObjectType::InternalNode).to_bytes(&mut longer);
    assert_eq!(longer.len(), 19);
    assert_eq!(&longer[0..2], &[9, 9]);
    assert_eq!(&longer[2..], &pointer_bytes(1, 2, 0)[..]);
}

#[test]
fn object_pointer_round_trip() {
    for pointer in [
        ObjectPointer::new(0, 0, ObjectType::InternalNode),
        ObjectPointer::new(40960, 80, ObjectType::LeafNode),
        ObjectPointer::new(u64::MAX, u64::MAX - 1, ObjectType::InternalNode),
    ] {
        let mut bytes = Vec::new();
        pointer.to_bytes(&mut bytes);
        assert_eq!(ObjectPointer::from_bytes(&bytes), Ok(pointer));
    }
}

#[test]
fn object_pointer_decoding_reads_the_first_seventeen_bytes() {
    let mut bytes = pointer_bytes(0xdead_beef, 0xfeed, 0);
    bytes.extend_from_slice(&[0xff; 10]);
    assert_eq!(
        ObjectPointer::from_bytes(&bytes),
        Ok(ObjectPointer::new(0xdead_beef, 0xfeed, ObjectType::InternalNode))
    );
}

#[test]
fn object_pointer_rejects_unknown_kind() {
    assert_eq!(
        ObjectPointer::from_bytes(&pointer_bytes(1, 2, 2)),
        Err(Error::UnknownObjectKind)
    );
    assert_eq!(
        ObjectPointer::from_bytes(&pointer_bytes(1, 2, 0x80)),
        Err(Error::UnknownObjectKind)
    );
}

#[test]
fn object_pointer_rejects_short_input() {
    assert_eq!(ObjectPointer::from_bytes(&[]), Err(Error::ShortRead));
    assert_eq!(ObjectPointer::from_bytes(&pointer_bytes(1, 2, 1)[..16]), Err(Error::ShortRead));
}

#[test]
fn serializable_sizes() {
    assert_eq!(<u64 as Serializable>::size(), 8);
    assert_eq!(<ObjectPointer as Serializable>::size(), 17);
    let mut bytes = vec![0xaa];
    Serializable::to_bytes(&0x0102u64, &mut bytes);
    assert_eq!(bytes, vec![0xaa, 2, 1, 0, 0, 0, 0, 0, 0]);
    assert_eq!(<u64 as Serializable>::from_bytes(&bytes, 1), Ok(0x0102));
    let pointer = ObjectPointer::new(3, 4, ObjectType::LeafNode);
    Serializable::to_bytes(&pointer, &mut bytes);
    assert_eq!(<ObjectPointer as Serializable>::from_bytes(&bytes, 9), Ok(pointer));
}

#[test]
fn leaf_node_encoding_is_sixteen_bytes_per_entry() {
    let node = LeafNode::with_entries(vec![
        LeafNodeEntry::new(1, 0x0a0b),
        LeafNodeEntry::new(0x0102030405060708, u64::MAX),
    ]);
    let mem = node.to_mem();
    assert_eq!(mem.len(), 32);
    let mut expected = vec![0u8; 32];
    LittleEndian::write_u64(&mut expected[0..8], 1);
    LittleEndian::write_u64(&mut expected[8..16], 0x0a0b);
    LittleEndian::write_u64(&mut expected[16..24], 0x0102030405060708);
    LittleEndian::write_u64(&mut expected[24..32], u64::MAX);
    assert_eq!(mem, expected);
    assert_eq!(LeafNode::from_bytes(&mem), Ok(node));
}

#[test]
fn internal_node_encoding_is_twenty_five_bytes_per_entry() {
    let node = InternalNode::with_entries(vec![
        InternalNodeEntry::new(10, ObjectPointer::new(40960, 48, ObjectType::LeafNode)),
        InternalNodeEntry::new(40, ObjectPointer::new(41008, 75, ObjectType::InternalNode)),
    ]);
    let mem = node.to_mem();
    assert_eq!(mem.len(), 50);
    let mut expected = vec![0u8; 8];
    LittleEndian::write_u64(&mut expected[0..8], 10);
    expected.extend(pointer_bytes(40960, 48, 1));
    let mut second = vec![0u8; 8];
    LittleEndian::write_u64(&mut second[0..8], 40);
    expected.extend(second);
    expected.extend(pointer_bytes(41008, 75, 0));
    assert_eq!(mem, expected);
    assert_eq!(InternalNode::from_bytes(&mem), Ok(node));
}

#[test]
fn empty_node_round_trip() {
    let node: LeafNode = Node::new();
    assert_eq!(node.to_mem(), Vec::<u8>::new());
    assert_eq!(LeafNode::from_bytes(&[]), Ok(Node::new()));
    assert_eq!(InternalNode::from_bytes(&[]), Ok(Node::new()));
}

#[test]
fn node_decoding_rejects_leftover_bytes() {
    let node = LeafNode::with_entries(vec![LeafNodeEntry::new(1, 2)]);
    let mut mem = node.to_mem();
    mem.push(0);
    assert_eq!(LeafNode::from_bytes(&mem), Err(Error::ShortRead));
    assert_eq!(LeafNode::from_bytes(&mem[..15]), Err(Error::ShortRead));
    assert_eq!(InternalNode::from_bytes(&[0u8; 24]), Err(Error::ShortRead));
    assert_eq!(InternalNode::from_bytes(&[0u8; 26]), Err(Error::ShortRead));
}

#[test]
fn node_decoding_reports_the_first_bad_pointer() {
    let mut mem = vec![0u8; 8];
    mem.extend(pointer_bytes(1, 2, 7));
    // a second entry that would be a short read
    mem.extend_from_slice(&[0u8; 5]);
    assert_eq!(InternalNode::from_bytes(&mem), Err(Error::UnknownObjectKind));
    let mut good = vec![0u8; 8];
    good.extend(pointer_bytes(1, 2, 1));
    good.extend_from_slice(&[0u8; 5]);
    assert_eq!(InternalNode::from_bytes(&good), Err(Error::ShortRead));
}

#[test]
fn node_to_bytes_appends() {
    let node = LeafNode::with_entries(vec![LeafNodeEntry::new(3, 4)]);
    let mut bytes = vec![7u8];
    node.to_bytes(&mut bytes);
    assert_eq!(bytes.len(), 17);
    assert_eq!(bytes[0], 7);
    assert_eq!(LittleEndian::read_u64(&bytes[1..9]), 3);
    assert_eq!(LittleEndian::read_u64(&bytes[9..17]), 4);
}

#[test]
fn node_search_finds_keys_and_insertion_points() {
    let node = LeafNode::with_entries(vec![
        NodeEntry::new(10, 0),
        NodeEntry::new(20, 0),
        NodeEntry::new(30, 0),
        NodeEntry::new(40, 0),
    ]);
    assert_eq!(node.search(10), Ok(0));
    assert_eq!(node.search(30), Ok(2));
    assert_eq!(node.search(40), Ok(3));
    assert_eq!(node.search(5), Err(0));
    assert_eq!(node.search(25), Err(2));
    assert_eq!(node.search(45), Err(4));
    let empty: LeafNode = Node::new();
    assert_eq!(empty.search(1), Err(0));
}

#[test]
fn node_insert_keeps_the_keys_sorted() {
    let mut node: LeafNode = Node::new();
    assert_eq!(node.insert(NodeEntry::new(20, 1)), None);
    assert_eq!(node.insert(NodeEntry::new(10, 2)), None);
    assert_eq!(node.insert(NodeEntry::new(30, 3)), None);
    assert_eq!(node.insert(NodeEntry::new(20, 4)), Some(1));
    let pairs: Vec<(u64, u64)> = node.entries.iter().map(|e| (e.key, e.value)).collect();
    assert_eq!(pairs, vec![(10, 2), (20, 4), (30, 3)]);
}

#[test]
fn is_sorted_is_strict() {
    assert!(is_sorted(&[]));
    assert!(is_sorted(&[5]));
    assert!(is_sorted(&[1, 2, 3, 10]));
    assert!(!is_sorted(&[1, 2, 2, 3]));
    assert!(!is_sorted(&[1, 3, 2]));
    assert!(!is_sorted(&[5, 6, 7, 6]));
}

#[test]
fn uberblock_is_forty_one_bytes() {
    let uberblock = Uberblock::new(
        0x0102030405060708,
        ObjectPointer::new(40960, 80, ObjectType::LeafNode),
        41040,
    );
    let mem = uberblock.to_mem();
    assert_eq!(mem.len(), 41);
    assert_eq!(&mem[0..8], b"ReactFS0");
    assert_eq!(&mem[0..8], &MAGIC_NUMBER);
    assert_eq!(LittleEndian::read_u64(&mem[8..16]), 0x0102030405060708);
    assert_eq!(LittleEndian::read_u64(&mem[16..24]), 41040);
    assert_eq!(&mem[24..41], &pointer_bytes(40960, 80, 1)[..]);
    assert_eq!(Uberblock::from_bytes(&mem), Ok(uberblock));
}

#[test]
fn uberblock_decoding_ignores_padding() {
    let uberblock = Uberblock::new(3, ObjectPointer::new(50000, 25, ObjectType::InternalNode), 60000);
    let mut slot = uberblock.to_mem();
    slot.resize(4096, 0xee);
    assert_eq!(Uberblock::from_bytes(&slot), Ok(uberblock));
}

#[test]
fn uberblock_rejects_corrupt_magic() {
    let uberblock = Uberblock::new(3, ObjectPointer::new(50000, 25, ObjectType::InternalNode), 60000);
    for i in 0..8 {
        let mut mem = uberblock.to_mem();
        mem[i] ^= 1;
        assert_eq!(Uberblock::from_bytes(&mem), Err(Error::CorruptMagic));
    }
    assert_eq!(Uberblock::from_bytes(&[0u8; 41]), Err(Error::CorruptMagic));
}

#[test]
fn uberblock_rejects_unknown_root_kind_and_short_input() {
    let uberblock = Uberblock::new(3, ObjectPointer::new(50000, 25, ObjectType::InternalNode), 60000);
    let mut mem = uberblock.to_mem();
    mem[40] = 9;
    assert_eq!(Uberblock::from_bytes(&mem), Err(Error::UnknownObjectKind));
    assert_eq!(Uberblock::from_bytes(&uberblock.to_mem()[..40]), Err(Error::ShortRead));
    // a corrupt magic number is reported before the kind of the root
    mem[0] = 0;
    assert_eq!(Uberblock::from_bytes(&mem), Err(Error::CorruptMagic));
}

#[test]
fn uberblock_to_bytes_appends() {
    let uberblock = Uberblock::new(1, ObjectPointer::new(2, 3, ObjectType::LeafNode), 4);
    let mut bytes = vec![1u8, 2, 3];
    uberblock.to_bytes(&mut bytes);
    assert_eq!(bytes.len(), 44);
    assert_eq!(&bytes[0..3], &[1, 2, 3]);
    assert_eq!(&bytes[3..], &uberblock.to_mem()[..]);
}
