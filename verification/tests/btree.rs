use reactfs::{
    get, insert_in_btree, read_btree, remove, AnyObject, BlockDevice, LeafNodeEntry, MemDevice,
    ObjectPointer, ObjectType,
};

const DATA_START: u64 = 40960;

fn empty_tree() -> (MemDevice, ObjectPointer, u64) {
    let dev = MemDevice::new(4096 * 1000);
    (dev, ObjectPointer::new(DATA_START, 0, ObjectType::LeafNode), DATA_START)
}

fn insert_all(
    dev: &mut MemDevice,
    mut op: ObjectPointer,
    mut fso: u64,
    keys: &[u64],
) -> (ObjectPointer, u64) {
    for &k in keys {
        let (new_op, new_fso, old) =
            insert_in_btree(dev, op, fso, LeafNodeEntry::new(k, k + 1000)).unwrap();
        assert_eq!(old, None);
        op = new_op;
        fso = new_fso;
    }
    (op, fso)
}

#[test]
fn four_keys_fit_in_one_leaf() {
    let (mut dev, op, fso) = empty_tree();
    let (op, fso) = insert_all(&mut dev, op, fso, &[10, 20, 30, 40]);
    assert_eq!(op.object_type, ObjectType::LeafNode);
    assert_eq!(op.len, 4 * 16);
    assert_eq!(fso, DATA_START + (1 + 2 + 3 + 4) * 16);
    let entries = read_btree(&mut dev, op).unwrap();
    let pairs: Vec<(u64, u64)> = entries.iter().map(|e| (e.key, e.value)).collect();
    assert_eq!(pairs, vec![(10, 1010), (20, 1020), (30, 1030), (40, 1040)]);
    assert_eq!(get(&mut dev, op, 30).unwrap(), Some(1030));
    assert_eq!(get(&mut dev, op, 25).unwrap(), None);
}

#[test]
fn the_sixth_key_splits_the_root() {
    let (mut dev, op, fso) = empty_tree();
    let (op, fso) = insert_all(&mut dev, op, fso, &[10, 20, 30, 40, 50]);
    assert_eq!(op.object_type, ObjectType::LeafNode);
    assert_eq!(op.len, 5 * 16);
    let (op, _fso) = insert_all(&mut dev, op, fso, &[60]);
    assert_eq!(op.object_type, ObjectType::InternalNode);
    assert_eq!(op.len, 2 * 25);
    let root = match op.async_read_object(&mut dev).unwrap() {
        AnyObject::InternalNode(node) => node,
        AnyObject::LeafNode(_) => panic!("the root is a leaf"),
    };
    assert_eq!(root.entries.len(), 2);
    assert_eq!(root.entries[0].key, 10);
    assert_eq!(root.entries[1].key, 40);
    let left = read_btree(&mut dev, root.entries[0].value).unwrap();
    let right = read_btree(&mut dev, root.entries[1].value).unwrap();
    assert_eq!(left.iter().map(|e| e.key).collect::<Vec<_>>(), vec![10, 20, 30]);
    assert_eq!(right.iter().map(|e| e.key).collect::<Vec<_>>(), vec![40, 50, 60]);
    for k in [10u64, 20, 30, 40, 50, 60] {
        assert_eq!(get(&mut dev, op, k).unwrap(), Some(k + 1000));
    }
}

#[test]
fn a_merge_collapses_the_root() {
    let (mut dev, op, fso) = empty_tree();
    let (mut op, mut fso) = insert_all(&mut dev, op, fso, &[10, 20, 30, 40, 50, 60]);
    for k in [60u64, 50, 40] {
        let (new_op, new_fso, old) = remove(&mut dev, op, fso, k).unwrap();
        assert_eq!(old, Some(k + 1000));
        op = new_op;
        fso = new_fso;
    }
    assert_eq!(op.object_type, ObjectType::LeafNode);
    let entries = read_btree(&mut dev, op).unwrap();
    assert_eq!(entries.iter().map(|e| e.key).collect::<Vec<_>>(), vec![10, 20, 30]);
    assert!(fso <= dev.size() as u64);
    assert_eq!(dev.flush(), Ok(()));
}
