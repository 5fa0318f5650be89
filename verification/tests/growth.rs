use reactfs::{
    find_latest_uberblock, insert_in_btree, read_btree, remove, AnyObject, BlockDevice, Error,
    InternalNode, LeafNodeEntry, MemDevice, ObjectPointer,
};

fn fresh() -> (MemDevice, ObjectPointer, u64) {
    let mut dev = MemDevice::new(4096 * 200);
    reactfs::uberblock::format(&mut dev).unwrap();
    let uberblock = find_latest_uberblock(&mut dev).unwrap();
    (dev, uberblock.tree_root_pointer, uberblock.free_space_offset)
}

struct Lcg(u64);

impl Lcg {
    fn next(&mut self) -> u64 {
        self.0 = self.0.wrapping_mul(6364136223846793005).wrapping_add(1442695040888963407);
        self.0 >> 33
    }
}

fn route(node: &InternalNode, key: u64) -> usize {
    let mut index = 0;
    for (i, entry) in node.entries.iter().enumerate() {
        if i > 0 && entry.key <= key {
            index = i;
        }
    }
    index
}

fn entry_size(object: &AnyObject) -> u64 {
    match object {
        AnyObject::LeafNode(_) => 16,
        AnyObject::InternalNode(_) => 25,
    }
}

/// The bytes that an insertion of `key` appends for the node `object`.
fn insert_bytes(dev: &mut MemDevice, object: AnyObject, key: u64) -> u64 {
    match object {
        AnyObject::LeafNode(node) => {
            let new = !node.entries.iter().any(|e| e.key == key);
            16 * (node.entries.len() as u64 + new as u64)
        }
        AnyObject::InternalNode(node) => {
            let child = node.entries[route(&node, key)].value.async_read_object(dev).unwrap();
            let split = child.len() == 5;
            25 * (node.entries.len() as u64 + split as u64) + insert_bytes(dev, child, key)
        }
    }
}

fn expected_insert_growth(dev: &mut MemDevice, root: ObjectPointer, key: u64) -> u64 {
    let object = root.async_read_object(dev).unwrap();
    let new_root = if object.len() == 5 { 50 } else { 0 };
    insert_bytes(dev, object, key) + new_root
}

/// The bytes that a removal of `key` appends for the node `object`.
fn remove_bytes(dev: &mut MemDevice, object: AnyObject, key: u64) -> u64 {
    match object {
        AnyObject::LeafNode(node) => {
            let found = node.entries.iter().any(|e| e.key == key);
            16 * (node.entries.len() as u64 - found as u64)
        }
        AnyObject::InternalNode(node) => {
            let len = node.entries.len() as u64;
            let index = route(&node, key);
            let child = node.entries[index].value.async_read_object(dev).unwrap();
            if child.len() > 2 {
                return 25 * len + remove_bytes(dev, child, key);
            }
            let from_left = index > 0;
            let other = if from_left { index - 1 } else { index + 1 };
            let neighbor = node.entries[other].value.async_read_object(dev).unwrap();
            let (left, right) = if from_left { (neighbor, child) } else { (child, neighbor) };
            if left.len() + right.len() <= 5 {
                // a root of two entries is not written once its children are one
                let own = if len > 2 { 25 * (len - 1) } else { 0 };
                return own + remove_bytes(dev, left.join(right).unwrap(), key);
            }
            let (received, given) = if from_left {
                let kept = left.len() - left.len() / 2;
                let (keep, tail) = left.split(kept);
                (tail.join(right).unwrap(), keep)
            } else {
                let moved = right.len() / 2;
                let (head, keep) = right.split(moved);
                (left.join(head).unwrap(), keep)
            };
            let given_bytes = entry_size(&given) * given.len() as u64;
            25 * len + remove_bytes(dev, received, key) + given_bytes
        }
    }
}

fn expected_remove_growth(dev: &mut MemDevice, root: ObjectPointer, key: u64) -> u64 {
    let object = root.async_read_object(dev).unwrap();
    if object.len() > 0 && key < object.first_key() {
        return 0;
    }
    remove_bytes(dev, object, key)
}

/// The device cut down to its first `size` bytes.
fn cut(dev: &mut MemDevice, size: u64) -> MemDevice {
    MemDevice::with_bytes(dev.read(0, size).unwrap())
}

#[test]
fn a_leaf_grows_by_its_size() {
    let (mut dev, op, fso) = fresh();
    let (op, fso1, _) = insert_in_btree(&mut dev, op, fso, LeafNodeEntry::new(1, 1)).unwrap();
    assert_eq!(fso1 - fso, 16);
    let (op, fso2, _) = insert_in_btree(&mut dev, op, fso1, LeafNodeEntry::new(2, 1)).unwrap();
    assert_eq!(fso2 - fso1, 32);
    let (op, fso3, _) = insert_in_btree(&mut dev, op, fso2, LeafNodeEntry::new(1, 5)).unwrap();
    assert_eq!(fso3 - fso2, 32);
    let (op, fso4, _) = remove(&mut dev, op, fso3, 3).unwrap();
    assert_eq!(fso4 - fso3, 32);
    let (op, fso5, _) = remove(&mut dev, op, fso4, 2).unwrap();
    assert_eq!(fso5 - fso4, 16);
    let (op, fso6, _) = remove(&mut dev, op, fso5, 1).unwrap();
    assert_eq!(fso6 - fso5, 0);
    assert_eq!(op, ObjectPointer::new(fso5, 0, reactfs::ObjectType::LeafNode));
}

#[test]
fn a_root_split_appends_both_halves_and_a_new_root() {
    let (mut dev, mut op, mut fso) = fresh();
    for key in [10u64, 20, 30, 40, 50] {
        let res = insert_in_btree(&mut dev, op, fso, LeafNodeEntry::new(key, key)).unwrap();
        op = res.0;
        fso = res.1;
    }
    let (_, after, _) = insert_in_btree(&mut dev, op, fso, LeafNodeEntry::new(60, 60)).unwrap();
    assert_eq!(after - fso, 6 * 16 + 50);
    let (_, after, _) = insert_in_btree(&mut dev, op, fso, LeafNodeEntry::new(30, 31)).unwrap();
    assert_eq!(after - fso, 5 * 16 + 50);
}

#[test]
fn operations_append_exactly_what_they_need() {
    let (mut dev, mut op, mut fso) = fresh();
    let mut rng = Lcg(2024);
    for step in 0..600u64 {
        let key = rng.next() % 150;
        let insert = rng.next() % 5 < 3;
        let needed = if insert {
            expected_insert_growth(&mut dev, op, key)
        } else {
            expected_remove_growth(&mut dev, op, key)
        };
        if step % 7 == 0 {
            // a device with exactly the room that is needed is enough
            let mut exact = cut(&mut dev, fso + needed);
            let res = if insert {
                insert_in_btree(&mut exact, op, fso, LeafNodeEntry::new(key, step))
            } else {
                remove(&mut exact, op, fso, key)
            };
            assert_eq!(res.unwrap().1, fso + needed);
            // and one byte less is not
            if needed > 0 {
                let mut tight = cut(&mut dev, fso + needed - 1);
                let committed = tight.read(0, fso).unwrap();
                let res = if insert {
                    insert_in_btree(&mut tight, op, fso, LeafNodeEntry::new(key, step))
                } else {
                    remove(&mut tight, op, fso, key)
                };
                assert_eq!(res, Err(Error::OutOfRange));
                assert_eq!(tight.read(0, fso).unwrap(), committed);
            }
        }
        let res = if insert {
            insert_in_btree(&mut dev, op, fso, LeafNodeEntry::new(key, step)).unwrap()
        } else {
            remove(&mut dev, op, fso, key).unwrap()
        };
        assert_eq!(res.1 - fso, needed);
        op = res.0;
        fso = res.1;
    }
    assert!(read_btree(&mut dev, op).unwrap().len() > 20);
}
