//! What holds of every store: the shape of a sound tree, where its nodes
//! lie, and how insertion, lookup and removal answer to one another.

use vstd::prelude::*;
use crate::insert_proofs::{insert_room, inserted};
use crate::merge_proofs::lemma_remove_growth_bound;
use crate::remove_proofs::{btree_remove_growth, remove_room};
use crate::tree::btree_insert_growth;
use crate::tree_edit::lemma_insert_growth_bound;
use crate::error::Error;
use crate::node::{
    lemma_node_round_trip, node_decoding, node_encoding, sorted_keys, LeafNodeEntry, NodeEntry,
    BTREE_B, BTREE_DEGREE,
};
use crate::object_pointer::ObjectPointer;
use crate::remove_proofs::removed;
use crate::serial::Serializable;
use crate::storage_proofs::lemma_btree_witness;
use crate::tree::{
    btree_entries, btree_height, btree_map, btree_of, entries_map, holds_child, is_btree,
    is_stored_btree, lookup, stored, upper, Tree, DATA_START,
};
use crate::tree_proofs::{lemma_flat_sound, lemma_sound_widen};
use crate::operations::{apply_all, Operation};
use crate::merge_proofs::shifted;
use crate::sorted::lemma_sorted_unique;
use crate::tree::{route, routes_to};
use crate::tree_edit::lemma_route_exists;
use crate::tree_put::link_of;
use crate::uberblock::{
    empty_root, formatted, is_oldest, lemma_slot_written, same_but_slot, same_nodes, slot,
    slot_bytes, Uberblock,
};
use crate::device::overwritten;

verus! {

impl Tree {
    /// `node` is a node of the tree, `depth` levels below the root, taken
    /// with all that lies below it.
    pub open spec fn has_node(self, node: Tree, depth: nat) -> bool
        decreases depth,
    {
        if depth == 0 {
            node == self
        } else {
            &&& self is Internal
            &&& exists|i: int|
                0 <= i < self.children().len() && (#[trigger] self.children()[i]).has_node(
                    node,
                    (depth - 1) as nat,
                )
        }
    }

    /// `pointer` addresses a node of the tree, which itself stands under
    /// `root`.
    pub open spec fn reaches(self, root: ObjectPointer, pointer: ObjectPointer) -> bool
        decreases self,
    {
        ||| pointer == root
        ||| self matches Tree::Internal { entries, children } && exists|i: int|
            0 <= i < children.len() && i < entries.len() && (#[trigger] children[i]).reaches(
                entries[i].value,
                pointer,
            )
    }

    /// The keys of the entries of the root node.
    pub open spec fn keys_sorted(self) -> bool {
        match self {
            Tree::Leaf { entries } => sorted_keys(entries),
            Tree::Internal { entries, .. } => sorted_keys(entries),
        }
    }
}

/// What holds of a node `depth` levels below the root of a sound subtree.
proof fn lemma_node_of_sound(tree: Tree, height: nat, lo: int, hi: int, node: Tree, depth: nat)
    requires
        tree.sound(height, lo, hi),
        tree.has_node(node, depth),
    ensures
        depth <= height,
        node.sound((height - depth) as nat, lo, hi),
        depth > 0 ==> BTREE_B <= node.len() <= BTREE_DEGREE,
    decreases depth,
{
    if depth > 0 {
        let entries = tree->Internal_entries;
        let children = tree->Internal_children;
        let i = choose|i: int|
            0 <= i < tree.children().len() && (#[trigger] tree.children()[i]).has_node(
                node,
                (depth - 1) as nat,
            );
        assert(children[i].sound((height - 1) as nat, entries[i].key as int, upper(entries, i, hi)));
        assert(lo <= entries[i].key < hi);
        if i + 1 < entries.len() {
            assert(lo <= entries[i + 1].key < hi);
        }
        lemma_node_of_sound(
            children[i],
            (height - 1) as nat,
            entries[i].key as int,
            upper(entries, i, hi),
            node,
            (depth - 1) as nat,
        );
        lemma_sound_widen(
            node,
            (height - depth) as nat,
            entries[i].key as int,
            upper(entries, i, hi),
            lo,
            hi,
        );
    }
}

/// In a sound B-tree the keys of every node ascend strictly, no node has
/// more than `2B+1` entries, every node but the root has at least `B`, and
/// the leaves are exactly the nodes at the depth that is the height of the
/// tree.
pub proof fn law_nodes_sorted_and_filled(
    device: Seq<u8>,
    root: ObjectPointer,
    node: Tree,
    depth: nat,
)
    requires
        is_stored_btree(device, root),
        btree_of(device, root).has_node(node, depth),
    ensures
        node.keys_sorted(),
        node.len() <= BTREE_DEGREE,
        depth > 0 ==> BTREE_B <= node.len(),
        depth <= btree_height(device, root),
        node is Leaf <==> depth == btree_height(device, root),
{
    let found = lemma_btree_witness(device, root);
    lemma_node_of_sound(found.0, found.1, 0, u64::MAX + 1, node, depth);
}

/// In a sound B-tree the key of every entry of an internal node is not above
/// any key that is reached through the entry, and every such key is below
/// the key of the next entry.
pub proof fn law_entries_bound_subtrees(
    device: Seq<u8>,
    root: ObjectPointer,
    node: Tree,
    depth: nat,
    i: int,
    key: u64,
)
    requires
        is_stored_btree(device, root),
        btree_of(device, root).has_node(node, depth),
        node is Internal,
        0 <= i < node.len(),
        node.children()[i].map().contains_key(key),
    ensures
        node.key(i) <= key,
        i + 1 < node.len() ==> key < node.key(i + 1),
{
    let found = lemma_btree_witness(device, root);
    lemma_node_of_sound(found.0, found.1, 0, u64::MAX + 1, node, depth);
    let entries = node->Internal_entries;
    let child = node.children()[i];
    let height = (found.1 - depth) as nat;
    assert(child.sound(
        (height - 1) as nat,
        entries[i].key as int,
        upper(entries, i, u64::MAX + 1),
    ));
    lemma_flat_sound(
        child,
        (height - 1) as nat,
        entries[i].key as int,
        upper(entries, i, u64::MAX + 1),
    );
    let flat = child.flat();
    let at = choose|at: int| 0 <= at < flat.len() && #[trigger] flat[at].key == key;
    assert(entries[i].key <= flat[at].key < upper(entries, i, u64::MAX + 1));
}

/// Every node of a tree with exact keys has exact keys.
proof fn lemma_node_of_exact(tree: Tree, node: Tree, depth: nat)
    requires
        tree.exact(),
        tree.has_node(node, depth),
    ensures
        node.exact(),
    decreases depth,
{
    if depth > 0 {
        let i = choose|i: int|
            0 <= i < tree.children().len() && (#[trigger] tree.children()[i]).has_node(
                node,
                (depth - 1) as nat,
            );
        assert(tree->Internal_children[i].exact());
        lemma_node_of_exact(tree.children()[i], node, (depth - 1) as nat);
    }
}

/// In a B-tree with exact keys, the key of every entry of an internal node
/// is the smallest key that is reached through the entry.
///
/// A fresh store has exact keys, and insertion and removal keep them (see
/// [`law_fresh_store_is_exact`], [`law_insert_keeps_keys_exact`] and
/// [`law_remove_keeps_keys_exact`]), so every tree that a store comes to
/// hold has them.
pub proof fn law_exact_entries_are_minima(
    device: Seq<u8>,
    root: ObjectPointer,
    node: Tree,
    depth: nat,
    i: int,
)
    requires
        is_stored_btree(device, root),
        btree_of(device, root).exact(),
        btree_of(device, root).has_node(node, depth),
        node is Internal,
        0 <= i < node.len(),
    ensures
        node.children()[i].map().contains_key(node.key(i)),
        forall|key: u64| #[trigger]
            node.children()[i].map().contains_key(key) ==> node.key(i) <= key,
{
    let found = lemma_btree_witness(device, root);
    lemma_node_of_sound(found.0, found.1, 0, u64::MAX + 1, node, depth);
    lemma_node_of_exact(found.0, node, depth);
    let child = node.children()[i];
    assert(node->Internal_children[i].exact());
    assert(child.flat()[0].key == node.key(i));
    assert forall|key: u64| #[trigger] child.map().contains_key(key) implies node.key(i)
        <= key by {
        law_entries_bound_subtrees(device, root, node, depth, i, key);
    }
}

/// Insertion into a B-tree with exact keys gives a B-tree with exact keys.
pub proof fn law_insert_keeps_keys_exact(
    before: Seq<u8>,
    faultless: bool,
    root: ObjectPointer,
    fso: u64,
    entry: LeafNodeEntry,
    after: Seq<u8>,
    done: (ObjectPointer, u64, Option<u64>),
)
    requires
        btree_of(before, root).exact(),
        inserted(
            before,
            faultless,
            root,
            fso,
            entry,
            after,
            Ok::<(ObjectPointer, u64, Option<u64>), Error>(done),
        ),
    ensures
        btree_of(after, done.0).exact(),
{
}

/// The tree of a fresh store has exact keys.
pub proof fn law_fresh_store_is_exact(device: Seq<u8>)
    requires
        formatted(device),
    ensures
        btree_of(device, empty_root()).exact(),
{
    let found = lemma_btree_witness(device, empty_root());
}

/// Every node that a stored tree addresses lies in the region for nodes, and
/// ends where the root ends or before.
proof fn lemma_reaches_within(device: Seq<u8>, root: ObjectPointer, tree: Tree, pointer: ObjectPointer)
    requires
        stored(device, root, tree),
        tree.reaches(root, pointer),
    ensures
        DATA_START <= pointer.offset,
        pointer.end() <= root.end(),
        pointer.end() <= device.len(),
    decreases tree,
{
    if pointer != root {
        let entries = tree->Internal_entries;
        let children = tree->Internal_children;
        let i = choose|i: int|
            0 <= i < children.len() && i < entries.len() && (#[trigger] children[i]).reaches(
                entries[i].value,
                pointer,
            );
        assert(holds_child(device, entries[i], children[i], root.offset as int));
        lemma_reaches_within(device, entries[i].value, children[i], pointer);
    }
}

/// Every node that a B-tree addresses lies between the start of the region
/// for nodes and the free-space offset.
pub proof fn law_tree_below_free_space(
    device: Seq<u8>,
    root: ObjectPointer,
    fso: int,
    pointer: ObjectPointer,
)
    requires
        is_btree(device, root, fso),
        btree_of(device, root).reaches(root, pointer),
    ensures
        DATA_START <= pointer.offset,
        pointer.end() <= fso,
        pointer.end() <= device.len(),
{
    let found = lemma_btree_witness(device, root);
    lemma_reaches_within(device, root, found.0, pointer);
}

/// The entries of a B-tree, read from left to right, ascend strictly by key
/// and are the pairs of the map that the tree stands for.
pub proof fn law_entries_are_the_map(device: Seq<u8>, root: ObjectPointer)
    requires
        is_stored_btree(device, root),
    ensures
        sorted_keys(btree_entries(device, root)),
        entries_map(btree_entries(device, root)) == btree_map(device, root),
{
    let found = lemma_btree_witness(device, root);
    lemma_flat_sound(found.0, found.1, 0, u64::MAX + 1);
}

/// A run of operations on a fresh store leaves a tree whose entries, read
/// from left to right, are the pairs of the map that the same operations make
/// of the empty map, in the order of their keys.
pub proof fn law_run_matches_reference_map(
    device: Seq<u8>,
    operations: Seq<Operation>,
    after: Seq<u8>,
    root: ObjectPointer,
    fso: u64,
    reference: Seq<LeafNodeEntry>,
)
    requires
        formatted(device),
        is_btree(after, root, fso as int),
        btree_map(after, root) == apply_all(btree_map(device, empty_root()), operations),
        sorted_keys(reference),
        entries_map(reference) == apply_all(Map::<u64, u64>::empty(), operations),
    ensures
        btree_entries(after, root) == reference,
{
    law_entries_are_the_map(after, root);
    lemma_sorted_unique(btree_entries(after, root), reference);
}

/// Decoding the encoding of a node, leaf or internal, gives the node back.
pub proof fn law_node_round_trip<V: Serializable>(entries: Seq<NodeEntry<V>>)
    ensures
        node_decoding::<V>(node_encoding(entries)) == Ok::<Seq<NodeEntry<V>>, Error>(entries),
{
    lemma_node_round_trip(entries);
}

/// An insertion appends at most 150 bytes for each level of the tree and 146
/// bytes more.
pub proof fn law_insert_growth_is_bounded(device: Seq<u8>, root: ObjectPointer, key: u64)
    requires
        is_stored_btree(device, root),
    ensures
        0 <= btree_insert_growth(device, root, key) <= insert_room(btree_height(device, root)),
{
    let found = lemma_btree_witness(device, root);
    lemma_insert_growth_bound(found.0, found.1, 0, u64::MAX + 1, key);
}

/// A removal appends at most 200 bytes for each level of the tree and 80
/// bytes more.
pub proof fn law_remove_growth_is_bounded(device: Seq<u8>, root: ObjectPointer, key: u64)
    requires
        is_stored_btree(device, root),
    ensures
        0 <= btree_remove_growth(device, root, key) <= remove_room(btree_height(device, root)),
{
    let found = lemma_btree_witness(device, root);
    lemma_remove_growth_bound(found.0, found.1, 0, u64::MAX + 1, key);
}

/// After a pair was inserted, a lookup of its key finds its value.
pub proof fn law_insert_then_get(
    before: Seq<u8>,
    faultless: bool,
    root: ObjectPointer,
    fso: u64,
    entry: LeafNodeEntry,
    after: Seq<u8>,
    done: (ObjectPointer, u64, Option<u64>),
)
    requires
        inserted(
            before,
            faultless,
            root,
            fso,
            entry,
            after,
            Ok::<(ObjectPointer, u64, Option<u64>), Error>(done),
        ),
    ensures
        is_stored_btree(after, done.0),
        lookup(btree_map(after, done.0), entry.key) == Some(entry.value),
{
}

/// After a key was inserted twice, a lookup finds the second value, and the
/// second insertion has handed back the first.
pub proof fn law_insert_twice(
    before: Seq<u8>,
    faultless: bool,
    root: ObjectPointer,
    fso: u64,
    key: u64,
    first: u64,
    second: u64,
    middle: Seq<u8>,
    done: (ObjectPointer, u64, Option<u64>),
    after: Seq<u8>,
    done2: (ObjectPointer, u64, Option<u64>),
)
    requires
        inserted(
            before,
            faultless,
            root,
            fso,
            NodeEntry { key, value: first },
            middle,
            Ok::<(ObjectPointer, u64, Option<u64>), Error>(done),
        ),
        inserted(
            middle,
            faultless,
            done.0,
            done.1,
            NodeEntry { key, value: second },
            after,
            Ok::<(ObjectPointer, u64, Option<u64>), Error>(done2),
        ),
    ensures
        done2.2 == Some(first),
        lookup(btree_map(after, done2.0), key) == Some(second),
        btree_map(after, done2.0) == btree_map(before, root).insert(key, second),
{
    assert(btree_map(before, root).insert(key, first).insert(key, second) =~= btree_map(
        before,
        root,
    ).insert(key, second));
}

/// After a pair was inserted and its key removed, a lookup of the key finds
/// nothing, and the removal has handed back the value.
pub proof fn law_insert_then_remove(
    before: Seq<u8>,
    faultless: bool,
    root: ObjectPointer,
    fso: u64,
    entry: LeafNodeEntry,
    middle: Seq<u8>,
    done: (ObjectPointer, u64, Option<u64>),
    after: Seq<u8>,
    done2: (ObjectPointer, u64, Option<u64>),
)
    requires
        inserted(
            before,
            faultless,
            root,
            fso,
            entry,
            middle,
            Ok::<(ObjectPointer, u64, Option<u64>), Error>(done),
        ),
        removed(
            middle,
            faultless,
            done.0,
            done.1,
            entry.key,
            after,
            Ok::<(ObjectPointer, u64, Option<u64>), Error>(done2),
        ),
    ensures
        done2.2 == Some(entry.value),
        lookup(btree_map(after, done2.0), entry.key) == None::<u64>,
        btree_map(after, done2.0) == btree_map(before, root).remove(entry.key),
{
    assert(btree_map(before, root).insert(entry.key, entry.value).remove(entry.key) =~= btree_map(
        before,
        root,
    ).remove(entry.key));
}

/// After a commit the slot that held the oldest uberblock holds the new one,
/// the other nine slots hold what they held, and no node has changed.
pub proof fn law_commit_replaces_oldest(
    before: Seq<u8>,
    after: Seq<u8>,
    uberblock: Uberblock,
    oldest: int,
    other: int,
)
    requires
        before.len() >= 40960,
        is_oldest(before, oldest),
        after == overwritten(before, oldest * 4096, uberblock.spec_to_bytes()),
        0 <= other < 10,
        other != oldest,
    ensures
        slot(after, oldest) == Ok::<Uberblock, Error>(uberblock),
        slot(after, other) == slot(before, other),
        same_nodes(before, after),
{
    lemma_slot_written(before, oldest, uberblock, oldest);
    lemma_slot_written(before, oldest, uberblock, other);
}

/// A commit that fails leaves the other nine slots as they were, and no node
/// has changed: whatever became of the slot that held the oldest uberblock,
/// every other uberblock is still found.
pub proof fn law_failed_commit_keeps_nine(before: Seq<u8>, after: Seq<u8>, oldest: int, other: int)
    requires
        before.len() >= 40960,
        0 <= oldest < 10,
        same_but_slot(before, after, oldest),
        0 <= other < 10,
        other != oldest,
    ensures
        slot(after, other) == slot(before, other),
        same_nodes(before, after),
{
    assert(slot_bytes(after, other) =~= slot_bytes(before, other));
}

/// An insertion into an internal node with room changes one place of the
/// node: the entry to which the key routes is replaced by the entry for the
/// rebuilt subtree, or, when that subtree was full, by the entries for its
/// two halves. Every other entry and subtree stays, so the node has one entry
/// more exactly when the subtree was full.
pub proof fn law_insert_patches_one_entry(tree: Tree, height: nat, entry: LeafNodeEntry, fso: int)
    requires
        tree is Internal,
        tree.sound(height, 0, u64::MAX + 1),
        tree.len() > 0,
    ensures
        ({
            let entries = tree->Internal_entries;
            let children = tree->Internal_children;
            let i = route(entries, entry.key);
            let after = tree.put(height, entry, fso);
            let below = (height - 1) as nat;
            &&& routes_to(entries, entry.key, i)
            &&& children[i].len() < BTREE_DEGREE ==> {
                &&& after.len() == tree.len()
                &&& after->Internal_entries == entries.update(
                    i,
                    link_of(
                        children[i].put(below, entry, fso),
                        fso + children[i].insert_growth(entry.key),
                    ),
                )
                &&& after->Internal_children == children.update(
                    i,
                    children[i].put(below, entry, fso),
                )
            }
            &&& children[i].len() == BTREE_DEGREE ==> {
                &&& after.len() == tree.len() + 1
                &&& after->Internal_entries == entries.update(
                    i,
                    children[i].split_links(below, entry, fso).0,
                ).insert(i + 1, children[i].split_links(below, entry, fso).1)
                &&& after->Internal_children == children.update(
                    i,
                    children[i].split_put(below, entry, fso).0,
                ).insert(i + 1, children[i].split_put(below, entry, fso).1)
            }
        }),
{
    let entries = tree->Internal_entries;
    let children = tree->Internal_children;
    lemma_route_exists(entries, entry.key);
    let i = route(entries, entry.key);
    let after = tree.put(height, entry, fso);
    let below = (height - 1) as nat;
    if children[i].len() == BTREE_DEGREE {
        let links = children[i].split_links(below, entry, fso);
        let halves = children[i].split_put(below, entry, fso);
        assert(entries.take(i) + seq![links.0, links.1] + entries.skip(i + 1) =~= entries.update(
            i,
            links.0,
        ).insert(i + 1, links.1));
        assert(children.take(i) + seq![halves.0, halves.1] + children.skip(i + 1)
            =~= children.update(i, halves.0).insert(i + 1, halves.1));
    } else {
        let child = children[i].put(below, entry, fso);
        let link = link_of(child, fso + children[i].insert_growth(entry.key));
        assert(entries.take(i) + seq![link] + entries.skip(i + 1) =~= entries.update(i, link));
        assert(children.take(i) + seq![child] + children.skip(i + 1) =~= children.update(i, child));
    }
}

/// A full node is cut after its third entry: the pair goes into the half
/// that owns its key, and the other half is the three entries before the
/// cut or the two entries after it, as they were.
pub proof fn law_full_node_is_cut_at_three(tree: Tree, height: nat, entry: LeafNodeEntry, fso: int)
    requires
        tree.len() == BTREE_DEGREE,
        tree is Internal ==> tree.children().len() == tree.len(),
    ensures
        ({
            let halves = tree.split_put(height, entry, fso);
            &&& tree.take(3).len() == 3
            &&& tree.skip(3).len() == 2
            &&& entry.key < tree.key(3) ==> halves.0 == tree.take(3).put(height, entry, fso)
                && halves.1 == tree.skip(3)
            &&& entry.key >= tree.key(3) ==> halves.0 == tree.take(3) && halves.1
                == tree.skip(3).put(height, entry, fso)
        }),
{
}

/// A partial merge moves half of the entries of the neighbour, rounded
/// down: the last ones of a left neighbour to the front of the node on the
/// way, or the first ones of a right neighbour to its end.
pub proof fn law_partial_merge_moves_half(tree: Tree, a: int, from_left: bool)
    ensures
        ({
            let left = tree.children()[a];
            let right = tree.children()[a + 1];
            let pair = shifted(tree, a, from_left);
            &&& from_left ==> pair.0 == left.take(left.len() - left.len() / 2) && pair.1
                == left.skip(left.len() - left.len() / 2).join(right)
            &&& !from_left ==> pair.0 == left.join(right.take((right.len() / 2) as int))
                && pair.1 == right.skip((right.len() / 2) as int)
        }),
{
    reveal(shifted);
}

/// A removal keeps the keys of a tree exact: the key of every entry of every
/// internal node is still the smallest key that is reached through the
/// entry.
pub proof fn law_remove_keeps_keys_exact(
    before: Seq<u8>,
    faultless: bool,
    root: ObjectPointer,
    fso: u64,
    key: u64,
    after: Seq<u8>,
    done: (ObjectPointer, u64, Option<u64>),
)
    requires
        removed(
            before,
            faultless,
            root,
            fso,
            key,
            after,
            Ok::<(ObjectPointer, u64, Option<u64>), Error>(done),
        ),
        btree_of(before, root).exact(),
    ensures
        btree_of(after, done.0).exact(),
{
}

} // verus!
