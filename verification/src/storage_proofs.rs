//! Facts about trees on a device: writes above a stored tree leave it as it
//! is, a node appended over stored subtrees is a stored tree, and a pointer
//! addresses one tree only.

use vstd::prelude::*;
use crate::device::{overwritten, same_below};
use crate::node::lemma_node_round_trip;
use crate::object::{object_at, object_bytes};
use crate::object_pointer::ObjectPointer;
use crate::tree::{
    btree_at, btree_of, holds, holds_child, is_stored_btree, stored, Tree, DATA_START,
};
use crate::tree_proofs::lemma_sound_height;

verus! {

/// A node read from below `limit` reads the same on a device that agrees
/// below `limit`.
pub proof fn lemma_object_frame(
    device: Seq<u8>,
    device2: Seq<u8>,
    pointer: ObjectPointer,
    limit: int,
)
    requires
        pointer.end() <= limit,
        pointer.end() <= device.len(),
        same_below(device, device2, limit),
    ensures
        object_at(device2, pointer) == object_at(device, pointer),
{
    assert(object_bytes(device2, pointer) == object_bytes(device, pointer));
}

/// A tree stored below `limit` is stored on every device that agrees below
/// `limit`.
pub proof fn lemma_stored_frame(
    device: Seq<u8>,
    device2: Seq<u8>,
    pointer: ObjectPointer,
    tree: Tree,
    limit: int,
)
    requires
        stored(device, pointer, tree),
        pointer.end() <= limit,
        same_below(device, device2, limit),
    ensures
        stored(device2, pointer, tree),
    decreases tree, 1nat,
{
    lemma_object_frame(device, device2, pointer, limit);
    lemma_holds_frame(device, device2, tree, pointer.offset as int, limit);
}

/// Subtrees stored below `limit` are stored on every device that agrees below
/// `bound`, when `limit` is not above `bound`.
pub proof fn lemma_holds_frame(
    device: Seq<u8>,
    device2: Seq<u8>,
    tree: Tree,
    limit: int,
    bound: int,
)
    requires
        holds(device, tree, limit),
        limit <= bound,
        same_below(device, device2, bound),
    ensures
        holds(device2, tree, limit),
    decreases tree, 0nat,
{
    match tree {
        Tree::Leaf { .. } => {},
        Tree::Internal { entries, children } => {
            assert forall|i: int| 0 <= i < children.len() implies holds_child(
                device2,
                entries[i],
                #[trigger] children[i],
                limit,
            ) by {
                assert(holds_child(device, entries[i], children[i], limit));
                lemma_stored_frame(device, device2, entries[i].value, children[i], bound);
            }
        },
    }
}

/// Subtrees stored below `limit` are stored below any higher limit.
pub proof fn lemma_holds_raise(device: Seq<u8>, tree: Tree, limit: int, limit2: int)
    requires
        holds(device, tree, limit),
        limit <= limit2,
    ensures
        holds(device, tree, limit2),
{
    match tree {
        Tree::Leaf { .. } => {},
        Tree::Internal { entries, children } => {
            assert forall|i: int| 0 <= i < children.len() implies holds_child(
                device,
                entries[i],
                #[trigger] children[i],
                limit2,
            ) by {
                assert(holds_child(device, entries[i], children[i], limit));
            }
        },
    }
}

/// Once the root node of `tree` is written above its stored subtrees, the
/// tree is stored under the pointer to what was written.
pub proof fn lemma_stored_fresh(
    device: Seq<u8>,
    device2: Seq<u8>,
    pointer: ObjectPointer,
    tree: Tree,
    limit: int,
)
    requires
        DATA_START <= pointer.offset,
        pointer.end() <= device.len(),
        pointer.len == tree.encoding().len(),
        pointer.object_type == tree.kind(),
        device2 == overwritten(device, pointer.offset as int, tree.encoding()),
        holds(device, tree, limit),
        limit <= pointer.offset,
    ensures
        stored(device2, pointer, tree),
        same_below(device, device2, pointer.offset as int),
{
    assert(object_bytes(device2, pointer) == tree.encoding());
    match tree {
        Tree::Leaf { entries } => {
            lemma_node_round_trip::<u64>(entries);
        },
        Tree::Internal { entries, children } => {
            lemma_node_round_trip::<ObjectPointer>(entries);
        },
    }
    assert(same_below(device, device2, pointer.offset as int));
    lemma_holds_frame(device, device2, tree, limit, pointer.offset as int);
    lemma_holds_raise(device2, tree, limit, pointer.offset as int);
}

/// A pointer addresses at most one tree.
pub proof fn lemma_stored_unique(device: Seq<u8>, pointer: ObjectPointer, t1: Tree, t2: Tree)
    requires
        stored(device, pointer, t1),
        stored(device, pointer, t2),
    ensures
        t1 == t2,
    decreases t1,
{
    match t1 {
        Tree::Leaf { entries } => {},
        Tree::Internal { entries, children } => {
            let children2 = t2->Internal_children;
            assert(t2->Internal_entries == entries);
            assert forall|i: int| 0 <= i < children.len() implies children[i] == children2[i] by {
                assert(holds_child(device, entries[i], children[i], pointer.offset as int));
                assert(holds_child(device, entries[i], children2[i], pointer.offset as int));
                lemma_stored_unique(device, entries[i].value, children[i], children2[i]);
            }
            assert(children =~= children2);
        },
    }
}

/// The tree that a pointer addresses is the one stored under it.
pub proof fn lemma_btree_of(device: Seq<u8>, root: ObjectPointer, tree: Tree)
    requires
        stored(device, root, tree),
    ensures
        btree_of(device, root) == tree,
{
    lemma_stored_unique(device, root, btree_of(device, root), tree);
}

/// The sound B-tree that a pointer addresses, with its height.
pub proof fn lemma_btree_witness(device: Seq<u8>, root: ObjectPointer) -> (found: (Tree, nat))
    requires
        is_stored_btree(device, root),
    ensures
        btree_at(device, root, found.0, found.1),
        found.0 == btree_of(device, root),
        found.1 == found.0.height(),
{
    let (tree, height) = choose|tree: Tree, height: nat| #[trigger]
        btree_at(device, root, tree, height);
    lemma_btree_of(device, root, tree);
    lemma_sound_height(tree, height, 0, u64::MAX + 1);
    (tree, height)
}

} // verus!
