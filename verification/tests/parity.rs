use std::collections::BTreeMap;

use reactfs::{
    apply_operations, find_latest_uberblock, get, insert_in_btree, read_btree, remove, AnyObject,
    LeafNodeEntry, MemDevice, ObjectPointer, ObjectType, Operation,
};

fn fresh() -> (MemDevice, ObjectPointer, u64) {
    let mut dev = MemDevice::new(4096 * 1000);
    reactfs::uberblock::format(&mut dev).unwrap();
    let uberblock = find_latest_uberblock(&mut dev).unwrap();
    (dev, uberblock.tree_root_pointer, uberblock.free_space_offset)
}

struct Lcg(u64);

impl Lcg {
    fn next(&mut self) -> u64 {
        self.0 = self.0.wrapping_mul(6364136223846793005).wrapping_add(1442695040888963407);
        self.0 >> 33
    }
}

/// Every node but the root has between 2 and 5 entries, keys ascend in every
/// node, and all leaves lie at `depth` levels below the root. Returns the
/// number of levels below `op`.
fn check_shape(dev: &mut MemDevice, op: ObjectPointer, root: bool) -> usize {
    match op.async_read_object(dev).unwrap() {
        AnyObject::LeafNode(node) => {
            assert!(node.entries.len() <= 5);
            if !root {
                assert!(node.entries.len() >= 2);
            }
            for pair in node.entries.windows(2) {
                assert!(pair[0].key < pair[1].key);
            }
            0
        }
        AnyObject::InternalNode(node) => {
            assert!(node.entries.len() <= 5);
            assert!(node.entries.len() >= 2);
            for pair in node.entries.windows(2) {
                assert!(pair[0].key < pair[1].key);
            }
            let mut height = None;
            for (i, entry) in node.entries.iter().enumerate() {
                assert!(entry.value.offset + entry.value.len <= op.offset);
                assert!(entry.value.offset >= 40960);
                let below = check_shape(dev, entry.value, false);
                match height {
                    None => height = Some(below),
                    Some(h) => assert_eq!(h, below),
                }
                let keys = read_btree(dev, entry.value).unwrap();
                assert_eq!(entry.key, keys[0].key);
                if i + 1 < node.entries.len() {
                    assert!(keys[keys.len() - 1].key < node.entries[i + 1].key);
                }
            }
            height.unwrap() + 1
        }
    }
}

fn run_parity(seed: u64, steps: usize, key_space: u64, remove_every: u64) {
    let (mut dev, mut op, mut fso) = fresh();
    let mut reference = BTreeMap::<u64, u64>::new();
    let mut rng = Lcg(seed);
    for step in 0..steps {
        let key = rng.next() % key_space;
        if rng.next() % remove_every == 0 {
            let value = step as u64;
            let res = insert_in_btree(&mut dev, op, fso, LeafNodeEntry::new(key, value)).unwrap();
            assert!(res.1 >= fso);
            op = res.0;
            fso = res.1;
            assert_eq!(reference.insert(key, value), res.2);
        } else {
            let res = remove(&mut dev, op, fso, key).unwrap();
            assert!(res.1 >= fso);
            op = res.0;
            fso = res.1;
            assert_eq!(reference.remove(&key), res.2);
        }
        let entries = read_btree(&mut dev, op).unwrap();
        let pairs: Vec<(u64, u64)> = entries.iter().map(|e| (e.key, e.value)).collect();
        let expected: Vec<(u64, u64)> = reference.iter().map(|(k, v)| (*k, *v)).collect();
        assert_eq!(pairs, expected);
        check_shape(&mut dev, op, true);
        assert!(op.offset + op.len <= fso);
    }
    for key in 0..key_space {
        assert_eq!(get(&mut dev, op, key).unwrap(), reference.get(&key).copied());
    }
}

#[test]
fn insert_remove_parity_small_keys() {
    run_parity(1, 1000, 40, 2);
}

#[test]
fn insert_remove_parity_mostly_inserts() {
    run_parity(7, 1000, 400, 3);
}

#[test]
fn insert_remove_parity_wide_keys() {
    run_parity(42, 1000, 1 << 16, 2);
}

#[test]
fn grow_then_drain() {
    let (mut dev, mut op, mut fso) = fresh();
    for key in 0..300u64 {
        let res = insert_in_btree(&mut dev, op, fso, LeafNodeEntry::new(key * 3, key)).unwrap();
        op = res.0;
        fso = res.1;
    }
    assert!(check_shape(&mut dev, op, true) >= 3);
    // from the right end, from the left end, then from the middle
    let mut order: Vec<u64> = Vec::new();
    order.extend((200..300).rev());
    order.extend(0..100);
    order.extend(100..200);
    let mut left = 300;
    for key in order {
        let res = remove(&mut dev, op, fso, key * 3).unwrap();
        assert_eq!(res.2, Some(key));
        op = res.0;
        fso = res.1;
        left -= 1;
        assert_eq!(read_btree(&mut dev, op).unwrap().len(), left);
        check_shape(&mut dev, op, true);
    }
    assert_eq!(op.object_type, ObjectType::LeafNode);
    assert_eq!(op.len, 0);
}

#[test]
fn remove_below_smallest_key_changes_nothing() {
    let (mut dev, mut op, mut fso) = fresh();
    for key in [10u64, 20, 30, 40, 50, 60, 70] {
        let res = insert_in_btree(&mut dev, op, fso, LeafNodeEntry::new(key, key + 1)).unwrap();
        op = res.0;
        fso = res.1;
    }
    let (same_op, same_fso, value) = remove(&mut dev, op, fso, 5).unwrap();
    assert_eq!(same_op, op);
    assert_eq!(same_fso, fso);
    assert_eq!(value, None);
}

#[test]
fn remove_of_absent_key_appends_the_path() {
    let (mut dev, mut op, mut fso) = fresh();
    for key in [10u64, 20, 30, 40, 50, 60, 70] {
        let res = insert_in_btree(&mut dev, op, fso, LeafNodeEntry::new(key, key + 1)).unwrap();
        op = res.0;
        fso = res.1;
    }
    let (new_op, new_fso, value) = remove(&mut dev, op, fso, 35).unwrap();
    assert_eq!(value, None);
    assert!(new_fso > fso);
    assert_eq!(new_op.offset + new_op.len, new_fso);
    let keys: Vec<u64> = read_btree(&mut dev, new_op).unwrap().iter().map(|e| e.key).collect();
    assert_eq!(keys, vec![10, 20, 30, 40, 50, 60, 70]);
}

#[test]
fn get_below_smallest_key_of_internal_root() {
    let (mut dev, mut op, mut fso) = fresh();
    for key in [10u64, 20, 30, 40, 50, 60] {
        let res = insert_in_btree(&mut dev, op, fso, LeafNodeEntry::new(key, key + 1)).unwrap();
        op = res.0;
        fso = res.1;
    }
    assert_eq!(op.object_type, ObjectType::InternalNode);
    assert_eq!(get(&mut dev, op, 5).unwrap(), None);
    assert_eq!(get(&mut dev, op, 10).unwrap(), Some(11));
    assert_eq!(get(&mut dev, op, 65).unwrap(), None);
}

#[test]
fn insert_overwrites_and_returns_previous_value() {
    let (mut dev, op, fso) = fresh();
    let (op, fso, old) = insert_in_btree(&mut dev, op, fso, LeafNodeEntry::new(7, 1)).unwrap();
    assert_eq!(old, None);
    assert_eq!(get(&mut dev, op, 7).unwrap(), Some(1));
    let (op, fso, old) = insert_in_btree(&mut dev, op, fso, LeafNodeEntry::new(7, 2)).unwrap();
    assert_eq!(old, Some(1));
    assert_eq!(get(&mut dev, op, 7).unwrap(), Some(2));
    let (op, _fso, old) = remove(&mut dev, op, fso, 7).unwrap();
    assert_eq!(old, Some(2));
    assert_eq!(get(&mut dev, op, 7).unwrap(), None);
}

#[test]
fn insert_below_smallest_key_lowers_the_first_entry() {
    let (mut dev, mut op, mut fso) = fresh();
    for key in [10u64, 20, 30, 40, 50, 60, 5] {
        let res = insert_in_btree(&mut dev, op, fso, LeafNodeEntry::new(key, key)).unwrap();
        op = res.0;
        fso = res.1;
    }
    let root = match op.async_read_object(&mut dev).unwrap() {
        AnyObject::InternalNode(node) => node,
        AnyObject::LeafNode(_) => panic!("the root is a leaf"),
    };
    assert_eq!(root.entries[0].key, 5);
    assert_eq!(root.entries[1].key, 40);
}

#[test]
fn old_roots_stay_readable() {
    let (mut dev, op0, fso0) = fresh();
    let (op1, fso1, _) = insert_in_btree(&mut dev, op0, fso0, LeafNodeEntry::new(1, 10)).unwrap();
    let (op2, fso2, _) = insert_in_btree(&mut dev, op1, fso1, LeafNodeEntry::new(2, 20)).unwrap();
    let (op3, _fso3, _) = remove(&mut dev, op2, fso2, 1).unwrap();
    assert_eq!(read_btree(&mut dev, op0).unwrap().len(), 0);
    assert_eq!(read_btree(&mut dev, op1).unwrap(), vec![LeafNodeEntry::new(1, 10)]);
    assert_eq!(
        read_btree(&mut dev, op2).unwrap(),
        vec![LeafNodeEntry::new(1, 10), LeafNodeEntry::new(2, 20)]
    );
    assert_eq!(read_btree(&mut dev, op3).unwrap(), vec![LeafNodeEntry::new(2, 20)]);
}

#[test]
fn apply_operations_matches_a_reference_map() {
    let (mut dev, op, fso) = fresh();
    let mut rng = Lcg(99);
    let mut operations = Vec::new();
    let mut reference = BTreeMap::<u64, u64>::new();
    for step in 0..500u64 {
        let key = rng.next() % 64;
        if rng.next() % 3 == 0 {
            operations.push(Operation::Remove(key));
            reference.remove(&key);
        } else {
            operations.push(Operation::Insert(key, step));
            reference.insert(key, step);
        }
    }
    let (root, new_fso) = apply_operations(&mut dev, op, fso, &operations).unwrap();
    assert!(new_fso >= fso);
    let pairs: Vec<(u64, u64)> =
        read_btree(&mut dev, root).unwrap().iter().map(|e| (e.key, e.value)).collect();
    let expected: Vec<(u64, u64)> = reference.iter().map(|(k, v)| (*k, *v)).collect();
    assert_eq!(pairs, expected);
    // no operation at all hands the root back
    let (same_root, same_fso) = apply_operations(&mut dev, root, new_fso, &Vec::new()).unwrap();
    assert_eq!((same_root, same_fso), (root, new_fso));
}
