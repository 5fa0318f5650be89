use reactfs::{
    get, remove, AnyObject, InternalNode, InternalNodeEntry, LeafNode, LeafNodeEntry, MemDevice,
    ObjectPointer, ObjectType,
};

/// A tree to be written: a leaf with its keys, or a node over keyed subtrees.
enum Plan {
    Leaf(Vec<u64>),
    Node(Vec<(u64, Plan)>),
}

fn leaf(keys: &[u64]) -> Plan {
    Plan::Leaf(keys.to_vec())
}

fn build(dev: &mut MemDevice, fso: &mut u64, plan: &Plan) -> ObjectPointer {
    match plan {
        Plan::Leaf(keys) => {
            let entries = keys.iter().map(|&k| LeafNodeEntry::new(k, k + 1000)).collect();
            LeafNode::with_entries(entries).cow(dev, fso, ObjectType::LeafNode).unwrap()
        }
        Plan::Node(children) => {
            let mut entries = Vec::new();
            for (key, child) in children {
                let pointer = build(dev, fso, child);
                entries.push(InternalNodeEntry::new(*key, pointer));
            }
            InternalNode::with_entries(entries).cow(dev, fso, ObjectType::InternalNode).unwrap()
        }
    }
}

fn shape(dev: &mut MemDevice, op: ObjectPointer) -> String {
    match op.async_read_object(dev).unwrap() {
        AnyObject::LeafNode(node) => {
            let keys: Vec<String> = node.entries.iter().map(|e| e.key.to_string()).collect();
            format!("[{}]", keys.join(" "))
        }
        AnyObject::InternalNode(node) => {
            let mut parts = Vec::new();
            for entry in node.entries.iter() {
                parts.push(format!("{}:{}", entry.key, shape(dev, entry.value)));
            }
            format!("({})", parts.join(" "))
        }
    }
}

/// Writes `plan`, removes `key`, and returns the shape of the tree before and
/// after.
fn remove_from(plan: Plan, key: u64) -> (String, String) {
    let mut dev = MemDevice::new(1 << 16);
    let mut fso = 40960u64;
    let root = build(&mut dev, &mut fso, &plan);
    let before = shape(&mut dev, root);
    let held = get(&mut dev, root, key).unwrap();
    let (new_root, new_fso, value) = remove(&mut dev, root, fso, key).unwrap();
    assert_eq!(value, held);
    assert!(new_fso >= fso);
    assert_eq!(get(&mut dev, new_root, key).unwrap(), None);
    // the old version is still there
    assert_eq!(shape(&mut dev, root), before);
    (before, shape(&mut dev, new_root))
}

#[test]
fn removing_the_head_of_a_leaf_raises_the_key_above_it() {
    let plan = Plan::Node(vec![(10, leaf(&[10, 20, 30])), (40, leaf(&[40, 50, 60]))]);
    let (before, after) = remove_from(plan, 40);
    assert_eq!(before, "(10:[10 20 30] 40:[40 50 60])");
    assert_eq!(after, "(10:[10 20 30] 50:[50 60])");
}

#[test]
fn removing_the_smallest_key_of_the_tree() {
    let plan = Plan::Node(vec![(10, leaf(&[10, 20, 30])), (40, leaf(&[40, 50, 60]))]);
    let (_, after) = remove_from(plan, 10);
    assert_eq!(after, "(20:[20 30] 40:[40 50 60])");
}

#[test]
fn a_leaf_at_the_minimum_joins_its_left_neighbour() {
    let plan = Plan::Node(vec![
        (10, leaf(&[10, 20, 30])),
        (40, leaf(&[40, 50])),
        (60, leaf(&[60, 70, 80])),
    ]);
    let (_, after) = remove_from(plan, 50);
    assert_eq!(after, "(10:[10 20 30 40] 60:[60 70 80])");
}

#[test]
fn the_first_leaf_at_the_minimum_joins_its_right_neighbour() {
    let plan = Plan::Node(vec![
        (10, leaf(&[10, 20])),
        (30, leaf(&[30, 40, 50])),
        (60, leaf(&[60, 70, 80])),
    ]);
    let (_, after) = remove_from(plan, 20);
    assert_eq!(after, "(10:[10 30 40 50] 60:[60 70 80])");
}

#[test]
fn a_join_of_the_last_two_leaves_makes_the_leaf_the_root() {
    let plan = Plan::Node(vec![(10, leaf(&[10, 20, 30])), (40, leaf(&[40, 50]))]);
    let (_, after) = remove_from(plan, 50);
    assert_eq!(after, "[10 20 30 40]");
}

#[test]
fn a_leaf_at_the_minimum_takes_half_of_a_fuller_left_neighbour() {
    let plan = Plan::Node(vec![(10, leaf(&[10, 20, 30, 40])), (50, leaf(&[50, 60]))]);
    let (_, after) = remove_from(plan, 60);
    assert_eq!(after, "(10:[10 20] 30:[30 40 50])");
    let plan = Plan::Node(vec![(10, leaf(&[10, 20, 30, 40, 45])), (50, leaf(&[50, 60]))]);
    let (_, after) = remove_from(plan, 50);
    assert_eq!(after, "(10:[10 20 30] 40:[40 45 60])");
}

#[test]
fn the_first_leaf_at_the_minimum_takes_half_of_a_fuller_right_neighbour() {
    let plan = Plan::Node(vec![(10, leaf(&[10, 20])), (30, leaf(&[30, 40, 50, 60]))]);
    let (_, after) = remove_from(plan, 20);
    assert_eq!(after, "(10:[10 30 40] 50:[50 60])");
    let plan = Plan::Node(vec![(10, leaf(&[10, 20])), (30, leaf(&[30, 40, 50, 60, 70]))]);
    let (_, after) = remove_from(plan, 10);
    assert_eq!(after, "(20:[20 30 40] 50:[50 60 70])");
}

fn pair(first: u64) -> Plan {
    leaf(&[first, first + 1, first + 2])
}

fn node_of(firsts: &[u64]) -> Plan {
    Plan::Node(firsts.iter().map(|&k| (k, pair(k))).collect())
}

#[test]
fn a_node_at_the_minimum_joins_its_left_neighbour() {
    let plan = Plan::Node(vec![
        (10, node_of(&[10, 20, 30])),
        (40, node_of(&[40, 50])),
        (60, node_of(&[60, 70, 80])),
    ]);
    let (_, after) = remove_from(plan, 51);
    assert_eq!(
        after,
        "(10:(10:[10 11 12] 20:[20 21 22] 30:[30 31 32] 40:[40 41 42] 50:[50 52]) \
         60:(60:[60 61 62] 70:[70 71 72] 80:[80 81 82]))"
    );
}

#[test]
fn a_join_of_the_last_two_nodes_lowers_the_tree() {
    let plan = Plan::Node(vec![(10, node_of(&[10, 20])), (30, node_of(&[30, 40, 50]))]);
    let (_, after) = remove_from(plan, 12);
    assert_eq!(
        after,
        "(10:[10 11] 20:[20 21 22] 30:[30 31 32] 40:[40 41 42] 50:[50 51 52])"
    );
}

#[test]
fn a_node_at_the_minimum_takes_half_of_a_fuller_left_neighbour() {
    let plan = Plan::Node(vec![(10, node_of(&[10, 20, 30, 40])), (50, node_of(&[50, 60]))]);
    let (_, after) = remove_from(plan, 61);
    assert_eq!(
        after,
        "(10:(10:[10 11 12] 20:[20 21 22]) \
         30:(30:[30 31 32] 40:[40 41 42] 50:[50 51 52] 60:[60 62]))"
    );
}

#[test]
fn the_first_node_at_the_minimum_takes_half_of_a_fuller_right_neighbour() {
    let plan = Plan::Node(vec![(10, node_of(&[10, 20])), (30, node_of(&[30, 40, 50, 60, 70]))]);
    let (_, after) = remove_from(plan, 22);
    assert_eq!(
        after,
        "(10:(10:[10 11 12] 20:[20 21] 30:[30 31 32] 40:[40 41 42]) \
         50:(50:[50 51 52] 60:[60 61 62] 70:[70 71 72]))"
    );
}

#[test]
fn removing_the_head_of_a_subtree_raises_every_key_above_it() {
    let plan = Plan::Node(vec![(10, node_of(&[10, 20, 30])), (40, node_of(&[40, 50, 60]))]);
    let (_, after) = remove_from(plan, 40);
    assert_eq!(
        after,
        "(10:(10:[10 11 12] 20:[20 21 22] 30:[30 31 32]) \
         41:(41:[41 42] 50:[50 51 52] 60:[60 61 62]))"
    );
}

#[test]
fn removing_the_head_of_a_joined_leaf_raises_the_key_above_it() {
    let plan = Plan::Node(vec![
        (10, leaf(&[10, 20])),
        (30, leaf(&[30, 40, 50])),
        (60, leaf(&[60, 70, 80])),
    ]);
    let (_, after) = remove_from(plan, 10);
    assert_eq!(after, "(20:[20 30 40 50] 60:[60 70 80])");
}
