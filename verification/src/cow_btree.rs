//! The copy-on-write B-tree: insertion, lookup and removal over nodes that
//! are read through their pointers and never overwritten.
//!
//! Insertion splits full nodes on the way down and removal merges nodes with
//! no entry to spare on the way down, so that the way back up only appends
//! the nodes that were passed.

use vstd::prelude::*;
use crate::merge_proofs::lemma_growth_one;
use crate::descent::{
    astray, child_scope, descend_index, lemma_child_scope, misplaced, overfull, path_reads,
    read_child, rooted, unreadable, walk_prefix, walk_reads, Scope,
};
use crate::device::{
    lemma_same_below_chain, lemma_same_from_chain, same_below, same_from, BlockDevice,
};
use crate::error::{failure, Error};
use crate::insert_proofs::{
    inserted, lemma_insert_one_done, lemma_insert_two_done, lemma_inserted_put,
    lemma_inserted_split, lemma_leaf_put, lemma_links_after_split, lemma_put_two, lemma_split_left,
    lemma_split_right, put_done, split_done,
};
use crate::merge_proofs::{
    merged_scope, shifted, shifted_child, shifted_links, shifted_neighbor, shifted_pair,
};
use crate::node::{
    BTREE_B, BTREE_DEGREE, BTREE_SPLIT, InternalNode, InternalNodeEntry, LeafNode, LeafNodeEntry,
    NodeEntry, sorted_keys,
};
use crate::object::{object_at, read_of, AnyObject, NodeView};
use crate::object_pointer::{ObjectPointer, ObjectType};
use crate::remove_proofs::{
    child_read, cut_done, cut_sound, lemma_below_first, lemma_failed_below, lemma_failed_unreliable,
    lemma_leaf_cut, lemma_neighbor, lemma_pair_intro, lemma_pair_read, lemma_pair_ready,
    lemma_rebuilt_done, lemma_remove_merged_done, lemma_remove_one_done, lemma_remove_popped_done,
    lemma_removed, lemma_shift_block, lemma_shift_child_failed, lemma_shift_intro,
    lemma_shift_ready, lemma_shift_stored, lemma_two_replaced, pair_read, removed, shift_ready,
};
use crate::sorted::{lemma_insertion_point_absent, lemma_lookup_absent, lemma_lookup_index};
use crate::storage_proofs::{
    lemma_btree_witness, lemma_holds_frame, lemma_stored_frame, lemma_stored_fresh,
};
use crate::tree::{
    btree_map, btree_of, entries_map, is_btree, is_stored_btree, lookup, stored, Tree, upper,
};
use crate::tree_edit::{
    lemma_cut_exact, lemma_cut_holds, lemma_cut_sound, lemma_insert_growth_bound,
    lemma_insert_growth_halves, lemma_route_lookup, lemma_route_unique,
};
use crate::tree_proofs::lemma_flat_sound;
use crate::tree_cut::{
    lemma_cut_placed_leaf, lemma_cut_placed_merged, lemma_cut_placed_one, lemma_cut_placed_shifted,
};
use crate::tree_put::{
    lemma_leaf_put_is, lemma_placed_leaf, lemma_placed_left, lemma_placed_one, lemma_placed_right,
    lemma_placed_two,
};

verus! {

/// Puts `entry_to_insert` into a leaf that has room for it and appends the
/// leaf at the free-space offset.
///
/// Returns the entry that a parent holds for the new leaf, the new free-space
/// offset, and the value that the key had before.
pub(crate) fn insert_in_leaf_node<D: BlockDevice>(
    dev: &mut D,
    node: LeafNode,
    free_space_offset: u64,
    entry_to_insert: LeafNodeEntry,
    Ghost(scope): Ghost<Scope>,
) -> (r: (Result<(InternalNodeEntry, u64, Option<u64>), Error>, Ghost<Tree>))
    requires
        node@.len() <= 2 * BTREE_DEGREE,
    ensures
        same_below(old(dev).view(), final(dev).view(), free_space_offset as int),
        final(dev).faultless() == old(dev).faultless(),
        r.0 matches Ok(done) ==> free_space_offset <= done.1,
        r.0 matches Ok(done) ==> same_from(old(dev).view(), final(dev).view(), done.1 as int),
        rooted(
            old(dev).view(),
            NodeView::Leaf(node@),
            scope,
            free_space_offset as int,
            free_space_offset as int,
        ) && entry_to_insert.key < scope.hi ==> put_done(
            old(dev).faultless(),
            final(dev).view(),
            scope,
            free_space_offset as int,
            entry_to_insert,
            r.0,
            r.1@,
        ),
{
    let ghost valid = rooted(
        old(dev).view(),
        NodeView::Leaf(node@),
        scope,
        free_space_offset as int,
        free_space_offset as int,
    ) && entry_to_insert.key < scope.hi;
    let mut node = node;
    let mut free_space_offset = free_space_offset;
    let ghost before = node@;
    let ghost fso = free_space_offset as int;

    let old_value = node.insert(entry_to_insert);
    let ghost after = Tree::Leaf { entries: node@ };
    proof {
        if valid {
            lemma_leaf_put(before, node@, entry_to_insert, old_value, scope.lo, scope.hi);
            lemma_leaf_put_is(before, node@, entry_to_insert, old_value);
        }
        NodeView::Leaf(node@).lemma_byte_len();
    }

    // COW node
    let op = match node.cow(dev, &mut free_space_offset, ObjectType::LeafNode) {
        Ok(op) => op,
        Err(e) => {
            return (Err(e), Ghost(after));
        },
    };
    let entry = NodeEntry::new(node.entries[0].key, op);
    proof {
        if valid {
            lemma_stored_fresh(old(dev).view(), dev.view(), op, after, fso);
            lemma_placed_leaf(
                scope,
                fso,
                entry_to_insert,
                node@,
                old_value,
                op,
                free_space_offset,
            );
        }
    }
    (Ok((entry, free_space_offset, old_value)), Ghost(after))
}

/// Splits a full leaf at `B+1`, puts `entry_to_insert` into the half that
/// owns its key, and appends both halves.
///
/// Returns the entries that a parent holds for the two halves, the new
/// free-space offset, and the value that the key had before.
pub(crate) fn leaf_split_and_insert<D: BlockDevice>(
    dev: &mut D,
    node: LeafNode,
    free_space_offset: u64,
    entry_to_insert: LeafNodeEntry,
    Ghost(scope): Ghost<Scope>,
) -> (r: (
    Result<(InternalNodeEntry, InternalNodeEntry, u64, Option<u64>), Error>,
    Ghost<(Tree, Tree)>,
))
    requires
        BTREE_SPLIT < node@.len() <= BTREE_DEGREE,
    ensures
        same_below(old(dev).view(), final(dev).view(), free_space_offset as int),
        final(dev).faultless() == old(dev).faultless(),
        r.0 matches Ok(done) ==> free_space_offset <= done.2,
        r.0 matches Ok(done) ==> same_from(old(dev).view(), final(dev).view(), done.2 as int),
        rooted(
            old(dev).view(),
            NodeView::Leaf(node@),
            scope,
            free_space_offset as int,
            free_space_offset as int,
        ) && node@.len() == BTREE_DEGREE && entry_to_insert.key < scope.hi ==> split_done(
            old(dev).faultless(),
            final(dev).view(),
            scope,
            free_space_offset as int,
            entry_to_insert,
            r.0,
            r.1@.0,
            r.1@.1,
        ),
{
    let ghost valid = rooted(
        old(dev).view(),
        NodeView::Leaf(node@),
        scope,
        free_space_offset as int,
        free_space_offset as int,
    ) && node@.len() == BTREE_DEGREE && entry_to_insert.key < scope.hi;
    let ghost fso = free_space_offset as int;
    let ghost front = scope.tree.take(BTREE_SPLIT as int);
    let ghost back = scope.tree.skip(BTREE_SPLIT as int);
    let ghost mid = scope.tree.key(BTREE_SPLIT as int) as int;
    // rename node to left_node ...
    let mut left_node = node;
    // ... and split off its right half to right_node
    let right_entries = left_node.entries.split_off(BTREE_SPLIT);
    let right_node = LeafNode::with_entries(right_entries);
    let right_key = right_node.entries[0].key;
    proof {
        if valid {
            lemma_cut_sound(scope.tree, scope.height, scope.lo, scope.hi, BTREE_SPLIT as int);
            assert(left_node@ == node@.take(BTREE_SPLIT as int));
            assert(right_node@ == node@.skip(BTREE_SPLIT as int));
            assert(front.node() == NodeView::Leaf(left_node@));
            assert(back.node() == NodeView::Leaf(right_node@));
            assert(right_key == mid);
            lemma_insert_growth_halves(
                scope.tree,
                scope.height,
                scope.lo,
                scope.hi,
                entry_to_insert.key,
            );
        }
        NodeView::Leaf(left_node@).lemma_byte_len();
        NodeView::Leaf(right_node@).lemma_byte_len();
    }

    // insert entry in either node
    if entry_to_insert.key < right_key {
        let (res, Ghost(left)) = insert_in_leaf_node(
            dev,
            left_node,
            free_space_offset,
            entry_to_insert,
            Ghost(Scope { tree: front, height: scope.height, lo: scope.lo, hi: mid }),
        );
        let (left_entry, new_free_space_offset, old_value) = match res {
            Ok(done) => done,
            Err(e) => {
                return (Err(e), Ghost((left, back)));
            },
        };
        let mut free_space_offset = new_free_space_offset;
        let ghost middle = dev.view();
        let cowed = right_node.cow(dev, &mut free_space_offset, ObjectType::LeafNode);
        proof {
            lemma_same_below_chain(
                old(dev).view(),
                middle,
                dev.view(),
                fso,
                new_free_space_offset as int,
            );
            if cowed is Ok {
                lemma_same_from_chain(
                    old(dev).view(),
                    middle,
                    dev.view(),
                    new_free_space_offset as int,
                    free_space_offset as int,
                );
            }
        }
        let right_op = match cowed {
            Ok(op) => op,
            Err(e) => {
                return (Err(e), Ghost((left, back)));
            },
        };
        let right_entry = NodeEntry::new(right_key, right_op);
        proof {
            if valid {
                lemma_split_left(scope, entry_to_insert, left, old_value);
                lemma_placed_left(
                    scope,
                    fso,
                    entry_to_insert,
                    left_entry,
                    new_free_space_offset,
                    old_value,
                    left,
                    right_op,
                    free_space_offset,
                );
                lemma_stored_fresh(middle, dev.view(), right_op, back, new_free_space_offset as int);
                lemma_stored_frame(
                    middle,
                    dev.view(),
                    left_entry.value,
                    left,
                    new_free_space_offset as int,
                );
            }
        }
        (Ok((left_entry, right_entry, free_space_offset, old_value)), Ghost((left, back)))
    } else {
        let left_key = left_node.entries[0].key;
        let (res, Ghost(right)) = insert_in_leaf_node(
            dev,
            right_node,
            free_space_offset,
            entry_to_insert,
            Ghost(Scope { tree: back, height: scope.height, lo: mid, hi: scope.hi }),
        );
        let (right_entry, new_free_space_offset, old_value) = match res {
            Ok(done) => done,
            Err(e) => {
                return (Err(e), Ghost((front, right)));
            },
        };
        let mut free_space_offset = new_free_space_offset;
        let ghost middle = dev.view();
        let cowed = left_node.cow(dev, &mut free_space_offset, ObjectType::LeafNode);
        proof {
            lemma_same_below_chain(
                old(dev).view(),
                middle,
                dev.view(),
                fso,
                new_free_space_offset as int,
            );
            if cowed is Ok {
                lemma_same_from_chain(
                    old(dev).view(),
                    middle,
                    dev.view(),
                    new_free_space_offset as int,
                    free_space_offset as int,
                );
            }
        }
        let left_op = match cowed {
            Ok(op) => op,
            Err(e) => {
                return (Err(e), Ghost((front, right)));
            },
        };
        let left_entry = NodeEntry::new(left_key, left_op);
        proof {
            if valid {
                lemma_split_right(scope, entry_to_insert, right, old_value);
                lemma_placed_right(
                    scope,
                    fso,
                    entry_to_insert,
                    right_entry,
                    new_free_space_offset,
                    old_value,
                    right,
                    left_op,
                    free_space_offset,
                );
                lemma_stored_fresh(middle, dev.view(), left_op, front, new_free_space_offset as int);
                lemma_stored_frame(
                    middle,
                    dev.view(),
                    right_entry.value,
                    right,
                    new_free_space_offset as int,
                );
            }
        }
        (Ok((left_entry, right_entry, free_space_offset, old_value)), Ghost((front, right)))
    }
}

/// Puts `entry_to_insert` into the subtree below `cur_node`, an internal node
/// that has room for one more entry, and appends the node.
///
/// The child to which the key routes is read; a full child is split first.
/// Returns the entry that a parent holds for the new node, the new free-space
/// offset, and the value that the key had before.
pub(crate) fn insert_in_internal_node<D: BlockDevice>(
    dev: &mut D,
    cur_node: InternalNode,
    limit: u64,
    free_space_offset: u64,
    entry_to_insert: LeafNodeEntry,
    Ghost(scope): Ghost<Scope>,
) -> (r: (Result<(InternalNodeEntry, u64, Option<u64>), Error>, Ghost<Tree>))
    requires
        cur_node@.len() <= BTREE_DEGREE,
    ensures
        same_below(old(dev).view(), final(dev).view(), free_space_offset as int),
        final(dev).faultless() == old(dev).faultless(),
        r.0 matches Ok(done) ==> free_space_offset <= done.1,
        r.0 matches Ok(done) ==> same_from(old(dev).view(), final(dev).view(), done.1 as int),
        rooted(
            old(dev).view(),
            NodeView::Internal(cur_node@),
            scope,
            limit as int,
            free_space_offset as int,
        ) && 0 < cur_node@.len() < BTREE_DEGREE && entry_to_insert.key < scope.hi ==> put_done(
            old(dev).faultless(),
            final(dev).view(),
            scope,
            free_space_offset as int,
            entry_to_insert,
            r.0,
            r.1@,
        ),
    decreases limit, 1nat,
{
    let ghost valid = rooted(
        old(dev).view(),
        NodeView::Internal(cur_node@),
        scope,
        limit as int,
        free_space_offset as int,
    ) && 0 < cur_node@.len() < BTREE_DEGREE && entry_to_insert.key < scope.hi;
    let ghost fso = free_space_offset as int;
    let ghost links = cur_node@;
    let ghost start = old(dev).view();
    let ghost faultless = old(dev).faultless();
    let mut cur_node = cur_node;

    let (index, op, any_object) = match read_child(
        dev,
        &cur_node,
        limit,
        entry_to_insert.key,
        Ghost(scope),
        Ghost(fso),
    ) {
        Ok(found) => found,
        Err(e) => {
            return (Err(e), Ghost(scope.tree));
        },
    };
    if any_object.len() < BTREE_DEGREE {
        let (res, Ghost(child2)) = insert_in_node(
            dev,
            any_object,
            op.offset,
            free_space_offset,
            entry_to_insert,
            Ghost(child_scope(scope, index as int)),
        );
        let (child_entry, new_free_space_offset, old_value) = match res {
            Ok(done) => done,
            Err(e) => {
                proof {
                    if valid {
                        lemma_child_scope(start, scope, limit as int, index as int);
                        lemma_route_unique(links, entry_to_insert.key, index as int);
                        lemma_insert_growth_bound(
                            child_scope(scope, index as int).tree,
                            child_scope(scope, index as int).height,
                            child_scope(scope, index as int).lo,
                            child_scope(scope, index as int).hi,
                            entry_to_insert.key,
                        );
                    }
                }
                return (Err(e), Ghost(scope.tree));
            },
        };
        // update current's node selected entry
        cur_node.entries.set(index, child_entry);
        let ghost after = scope.tree.splice(index as int, index + 1, seq![child_entry], seq![child2]);
        let mut free_space_offset = new_free_space_offset;
        let ghost middle = dev.view();
        proof {
            NodeView::Internal(cur_node@).lemma_byte_len();
        }

        // COW that new node
        let cowed = cur_node.cow(dev, &mut free_space_offset, ObjectType::InternalNode);
        proof {
            lemma_same_below_chain(start, middle, dev.view(), fso, new_free_space_offset as int);
            if cowed is Ok {
                lemma_same_from_chain(
                    start,
                    middle,
                    dev.view(),
                    new_free_space_offset as int,
                    free_space_offset as int,
                );
            }
            if valid {
                lemma_insert_one_done(
                    faultless,
                    start,
                    middle,
                    dev.view(),
                    scope,
                    limit as int,
                    fso,
                    entry_to_insert,
                    index as int,
                    child_entry,
                    new_free_space_offset,
                    old_value,
                    child2,
                    cur_node@,
                    cowed,
                    free_space_offset,
                );
            }
        }
        match cowed {
            Ok(op) => {
                let entry = NodeEntry::new(cur_node.entries[0].key, op);
                proof {
                    if valid {
                        lemma_placed_one(
                            scope,
                            fso,
                            entry_to_insert,
                            index as int,
                            child_entry,
                            new_free_space_offset,
                            old_value,
                            child2,
                            op,
                            free_space_offset,
                        );
                    }
                }
                (Ok((entry, free_space_offset, old_value)), Ghost(after))
            },
            Err(e) => (Err(e), Ghost(after)),
        }
    } else {
        // split the node and insert in relevant child
        let (res, Ghost(halves)) = split_and_insert(
            dev,
            any_object,
            op.offset,
            free_space_offset,
            entry_to_insert,
            Ghost(child_scope(scope, index as int)),
        );
        let (left_entry, right_entry, new_free_space_offset, old_value) = match res {
            Ok(done) => done,
            Err(e) => {
                proof {
                    if valid {
                        lemma_child_scope(start, scope, limit as int, index as int);
                        lemma_route_unique(links, entry_to_insert.key, index as int);
                        lemma_insert_growth_bound(
                            child_scope(scope, index as int).tree,
                            child_scope(scope, index as int).height,
                            child_scope(scope, index as int).lo,
                            child_scope(scope, index as int).hi,
                            entry_to_insert.key,
                        );
                    }
                }
                return (Err(e), Ghost(scope.tree));
            },
        };
        // update current's node selected entry
        cur_node.entries.set(index, left_entry);
        let ghost replaced_links = cur_node@;
        // push in current node new entry which points to right_node
        let replaced = cur_node.insert(right_entry);
        let ghost after = scope.tree.splice(
            index as int,
            index + 1,
            seq![left_entry, right_entry],
            seq![halves.0, halves.1],
        );
        proof {
            if valid {
                lemma_child_scope(start, scope, limit as int, index as int);
                lemma_put_two(
                    scope,
                    index as int,
                    entry_to_insert,
                    left_entry,
                    right_entry,
                    halves.0,
                    halves.1,
                    old_value,
                );
                lemma_links_after_split(
                    links,
                    replaced_links,
                    cur_node@,
                    index as int,
                    left_entry,
                    right_entry,
                    replaced,
                    scope.hi,
                );
            }
        }
        if replaced.is_some() {
            return (Err(Error::LogicError), Ghost(scope.tree));
        }
        let mut free_space_offset = new_free_space_offset;
        let ghost middle = dev.view();
        proof {
            NodeView::Internal(cur_node@).lemma_byte_len();
        }

        // COW that new node
        let cowed = cur_node.cow(dev, &mut free_space_offset, ObjectType::InternalNode);
        proof {
            lemma_same_below_chain(start, middle, dev.view(), fso, new_free_space_offset as int);
            if cowed is Ok {
                lemma_same_from_chain(
                    start,
                    middle,
                    dev.view(),
                    new_free_space_offset as int,
                    free_space_offset as int,
                );
            }
            if valid {
                lemma_insert_two_done(
                    faultless,
                    start,
                    middle,
                    dev.view(),
                    scope,
                    limit as int,
                    fso,
                    entry_to_insert,
                    index as int,
                    left_entry,
                    right_entry,
                    new_free_space_offset,
                    old_value,
                    halves.0,
                    halves.1,
                    cur_node@,
                    cowed,
                    free_space_offset,
                );
            }
        }
        match cowed {
            Ok(op) => {
                let entry = NodeEntry::new(cur_node.entries[0].key, op);
                proof {
                    if valid {
                        lemma_placed_two(
                            scope,
                            fso,
                            entry_to_insert,
                            index as int,
                            left_entry,
                            right_entry,
                            new_free_space_offset,
                            old_value,
                            halves.0,
                            halves.1,
                            op,
                            free_space_offset,
                        );
                    }
                }
                (Ok((entry, free_space_offset, old_value)), Ghost(after))
            },
            Err(e) => (Err(e), Ghost(after)),
        }
    }
}

/// Splits a full internal node at `B+1`, puts `entry_to_insert` into the
/// subtree below the half that owns its key, and appends both halves.
///
/// Returns the entries that a parent holds for the two halves, the new
/// free-space offset, and the value that the key had before.
pub(crate) fn internal_split_and_insert<D: BlockDevice>(
    dev: &mut D,
    node: InternalNode,
    limit: u64,
    free_space_offset: u64,
    entry_to_insert: LeafNodeEntry,
    Ghost(scope): Ghost<Scope>,
) -> (r: (
    Result<(InternalNodeEntry, InternalNodeEntry, u64, Option<u64>), Error>,
    Ghost<(Tree, Tree)>,
))
    requires
        BTREE_SPLIT < node@.len() <= BTREE_DEGREE,
    ensures
        same_below(old(dev).view(), final(dev).view(), free_space_offset as int),
        final(dev).faultless() == old(dev).faultless(),
        r.0 matches Ok(done) ==> free_space_offset <= done.2,
        r.0 matches Ok(done) ==> same_from(old(dev).view(), final(dev).view(), done.2 as int),
        rooted(
            old(dev).view(),
            NodeView::Internal(node@),
            scope,
            limit as int,
            free_space_offset as int,
        ) && node@.len() == BTREE_DEGREE && entry_to_insert.key < scope.hi ==> split_done(
            old(dev).faultless(),
            final(dev).view(),
            scope,
            free_space_offset as int,
            entry_to_insert,
            r.0,
            r.1@.0,
            r.1@.1,
        ),
    decreases limit, 2nat,
{
    let ghost valid = rooted(
        old(dev).view(),
        NodeView::Internal(node@),
        scope,
        limit as int,
        free_space_offset as int,
    ) && node@.len() == BTREE_DEGREE && entry_to_insert.key < scope.hi;
    let ghost fso = free_space_offset as int;
    let ghost start = old(dev).view();
    let ghost front = scope.tree.take(BTREE_SPLIT as int);
    let ghost back = scope.tree.skip(BTREE_SPLIT as int);
    let ghost mid = scope.tree.key(BTREE_SPLIT as int) as int;
    // rename node to left_node ...
    let mut left_node = node;
    // ... and split off its right half to right_node
    let right_entries = left_node.entries.split_off(BTREE_SPLIT);
    let right_node = InternalNode::with_entries(right_entries);
    let right_key = right_node.entries[0].key;
    proof {
        if valid {
            lemma_cut_sound(scope.tree, scope.height, scope.lo, scope.hi, BTREE_SPLIT as int);
            lemma_cut_holds(start, scope.tree, limit as int, BTREE_SPLIT as int);
            if scope.tree.exact() {
                lemma_cut_exact(scope.tree, BTREE_SPLIT as int);
            }
            assert(left_node@ == node@.take(BTREE_SPLIT as int));
            assert(right_node@ == node@.skip(BTREE_SPLIT as int));
            assert(front.node() == NodeView::Internal(left_node@));
            assert(back.node() == NodeView::Internal(right_node@));
            assert(right_key == mid);
            lemma_insert_growth_halves(
                scope.tree,
                scope.height,
                scope.lo,
                scope.hi,
                entry_to_insert.key,
            );
        }
        NodeView::Internal(left_node@).lemma_byte_len();
        NodeView::Internal(right_node@).lemma_byte_len();
    }

    // insert entry in either node
    if entry_to_insert.key < right_key {
        let (res, Ghost(left)) = insert_in_internal_node(
            dev,
            left_node,
            limit,
            free_space_offset,
            entry_to_insert,
            Ghost(Scope { tree: front, height: scope.height, lo: scope.lo, hi: mid }),
        );
        let (left_entry, new_free_space_offset, old_value) = match res {
            Ok(done) => done,
            Err(e) => {
                return (Err(e), Ghost((left, back)));
            },
        };
        let mut free_space_offset = new_free_space_offset;
        let ghost middle = dev.view();
        let cowed = right_node.cow(dev, &mut free_space_offset, ObjectType::InternalNode);
        proof {
            lemma_same_below_chain(start, middle, dev.view(), fso, new_free_space_offset as int);
            if cowed is Ok {
                lemma_same_from_chain(
                    start,
                    middle,
                    dev.view(),
                    new_free_space_offset as int,
                    free_space_offset as int,
                );
            }
        }
        let right_op = match cowed {
            Ok(op) => op,
            Err(e) => {
                return (Err(e), Ghost((left, back)));
            },
        };
        let right_entry = NodeEntry::new(right_key, right_op);
        proof {
            if valid {
                lemma_split_left(scope, entry_to_insert, left, old_value);
                lemma_placed_left(
                    scope,
                    fso,
                    entry_to_insert,
                    left_entry,
                    new_free_space_offset,
                    old_value,
                    left,
                    right_op,
                    free_space_offset,
                );
                lemma_holds_frame(start, middle, back, limit as int, fso);
                lemma_stored_fresh(middle, dev.view(), right_op, back, limit as int);
                lemma_stored_frame(
                    middle,
                    dev.view(),
                    left_entry.value,
                    left,
                    new_free_space_offset as int,
                );
            }
        }
        (Ok((left_entry, right_entry, free_space_offset, old_value)), Ghost((left, back)))
    } else {
        let left_key = left_node.entries[0].key;
        let (res, Ghost(right)) = insert_in_internal_node(
            dev,
            right_node,
            limit,
            free_space_offset,
            entry_to_insert,
            Ghost(Scope { tree: back, height: scope.height, lo: mid, hi: scope.hi }),
        );
        let (right_entry, new_free_space_offset, old_value) = match res {
            Ok(done) => done,
            Err(e) => {
                return (Err(e), Ghost((front, right)));
            },
        };
        let mut free_space_offset = new_free_space_offset;
        let ghost middle = dev.view();
        let cowed = left_node.cow(dev, &mut free_space_offset, ObjectType::InternalNode);
        proof {
            lemma_same_below_chain(start, middle, dev.view(), fso, new_free_space_offset as int);
            if cowed is Ok {
                lemma_same_from_chain(
                    start,
                    middle,
                    dev.view(),
                    new_free_space_offset as int,
                    free_space_offset as int,
                );
            }
        }
        let left_op = match cowed {
            Ok(op) => op,
            Err(e) => {
                return (Err(e), Ghost((front, right)));
            },
        };
        let left_entry = NodeEntry::new(left_key, left_op);
        proof {
            if valid {
                lemma_split_right(scope, entry_to_insert, right, old_value);
                lemma_placed_right(
                    scope,
                    fso,
                    entry_to_insert,
                    right_entry,
                    new_free_space_offset,
                    old_value,
                    right,
                    left_op,
                    free_space_offset,
                );
                lemma_holds_frame(start, middle, front, limit as int, fso);
                lemma_stored_fresh(middle, dev.view(), left_op, front, limit as int);
                lemma_stored_frame(
                    middle,
                    dev.view(),
                    right_entry.value,
                    right,
                    new_free_space_offset as int,
                );
            }
        }
        (Ok((left_entry, right_entry, free_space_offset, old_value)), Ghost((front, right)))
    }
}

/// Puts `entry_to_insert` into the subtree below `object`, a node of either
/// kind that has room for one more entry.
pub(crate) fn insert_in_node<D: BlockDevice>(
    dev: &mut D,
    object: AnyObject,
    limit: u64,
    free_space_offset: u64,
    entry_to_insert: LeafNodeEntry,
    Ghost(scope): Ghost<Scope>,
) -> (r: (Result<(InternalNodeEntry, u64, Option<u64>), Error>, Ghost<Tree>))
    requires
        object@.len() <= BTREE_DEGREE,
    ensures
        same_below(old(dev).view(), final(dev).view(), free_space_offset as int),
        final(dev).faultless() == old(dev).faultless(),
        r.0 matches Ok(done) ==> free_space_offset <= done.1,
        r.0 matches Ok(done) ==> same_from(old(dev).view(), final(dev).view(), done.1 as int),
        rooted(old(dev).view(), object@, scope, limit as int, free_space_offset as int)
            && scope.tree.len() < BTREE_DEGREE && (scope.tree is Internal ==> scope.tree.len() > 0)
            && entry_to_insert.key < scope.hi ==> put_done(
            old(dev).faultless(),
            final(dev).view(),
            scope,
            free_space_offset as int,
            entry_to_insert,
            r.0,
            r.1@,
        ),
    decreases limit, 2nat,
{
    match object {
        AnyObject::LeafNode(node) => insert_in_leaf_node(
            dev,
            node,
            free_space_offset,
            entry_to_insert,
            Ghost(scope),
        ),
        AnyObject::InternalNode(node) => insert_in_internal_node(
            dev,
            node,
            limit,
            free_space_offset,
            entry_to_insert,
            Ghost(scope),
        ),
    }
}

/// Splits the full node `object`, of either kind, and puts `entry_to_insert`
/// into the half that owns its key.
pub(crate) fn split_and_insert<D: BlockDevice>(
    dev: &mut D,
    object: AnyObject,
    limit: u64,
    free_space_offset: u64,
    entry_to_insert: LeafNodeEntry,
    Ghost(scope): Ghost<Scope>,
) -> (r: (
    Result<(InternalNodeEntry, InternalNodeEntry, u64, Option<u64>), Error>,
    Ghost<(Tree, Tree)>,
))
    requires
        BTREE_SPLIT < object@.len() <= BTREE_DEGREE,
    ensures
        same_below(old(dev).view(), final(dev).view(), free_space_offset as int),
        final(dev).faultless() == old(dev).faultless(),
        r.0 matches Ok(done) ==> free_space_offset <= done.2,
        r.0 matches Ok(done) ==> same_from(old(dev).view(), final(dev).view(), done.2 as int),
        rooted(old(dev).view(), object@, scope, limit as int, free_space_offset as int)
            && scope.tree.len() == BTREE_DEGREE && entry_to_insert.key < scope.hi ==> split_done(
            old(dev).faultless(),
            final(dev).view(),
            scope,
            free_space_offset as int,
            entry_to_insert,
            r.0,
            r.1@.0,
            r.1@.1,
        ),
    decreases limit, 3nat,
{
    match object {
        AnyObject::LeafNode(node) => leaf_split_and_insert(
            dev,
            node,
            free_space_offset,
            entry_to_insert,
            Ghost(scope),
        ),
        AnyObject::InternalNode(node) => internal_split_and_insert(
            dev,
            node,
            limit,
            free_space_offset,
            entry_to_insert,
            Ghost(scope),
        ),
    }
}

/// Puts the pair `entry_to_insert` into the tree under `op` and returns the
/// pointer to the new root, the new free-space offset and the value that the
/// key had before.
///
/// Nothing below `free_space_offset` is written, and nothing from the offset
/// returned on. A full root is split first, and a new root over the two
/// halves is appended. The new root is the last node written.
pub fn insert_in_btree<D: BlockDevice>(
    dev: &mut D,
    op: ObjectPointer,
    free_space_offset: u64,
    entry_to_insert: LeafNodeEntry,
) -> (r: Result<(ObjectPointer, u64, Option<u64>), Error>)
    ensures
        same_below(old(dev).view(), final(dev).view(), free_space_offset as int),
        final(dev).faultless() == old(dev).faultless(),
        r matches Ok(done) ==> free_space_offset <= done.1,
        r matches Ok(done) ==> same_from(old(dev).view(), final(dev).view(), done.1 as int),
        unreadable(old(dev).view(), old(dev).faultless(), op, final(dev).view(), failure(r)),
        overfull(old(dev).view(), old(dev).faultless(), op, final(dev).view(), failure(r)),
        is_btree(old(dev).view(), op, free_space_offset as int) ==> inserted(
            old(dev).view(),
            old(dev).faultless(),
            op,
            free_space_offset,
            entry_to_insert,
            final(dev).view(),
            r,
        ),
{
    let ghost valid = is_btree(old(dev).view(), op, free_space_offset as int);
    let ghost start = old(dev).view();
    let ghost fso = free_space_offset as int;
    let ghost scope = Scope { tree: btree_of(start, op), height: 0, lo: 0, hi: u64::MAX + 1 };
    proof {
        if valid {
            let found = lemma_btree_witness(start, op);
            scope = Scope { tree: found.0, height: found.1, lo: 0, hi: u64::MAX + 1 };
        }
    }
    // read pointed object
    let any_object = match op.async_read_object(dev) {
        Ok(object) => object,
        Err(e) => {
            return Err(e);
        },
    };
    if any_object.len() > BTREE_DEGREE {
        return Err(Error::LogicError);
    }
    if any_object.len() >= BTREE_DEGREE {
        // split the node and insert in relevant child
        let (res, Ghost(halves)) = split_and_insert(
            dev,
            any_object,
            op.offset,
            free_space_offset,
            entry_to_insert,
            Ghost(scope),
        );
        let (left_entry, right_entry, new_free_space_offset, old_value) = match res {
            Ok(done) => done,
            Err(e) => {
                return Err(e);
            },
        };
        let mut free_space_offset = new_free_space_offset;
        let ghost middle = dev.view();

        // create new root
        let mut new_root = InternalNode::new();
        new_root.entries.push(left_entry);
        new_root.entries.push(right_entry);
        let ghost after = Tree::Internal {
            entries: seq![left_entry, right_entry],
            children: seq![halves.0, halves.1],
        };
        proof {
            assert(new_root@ == seq![left_entry, right_entry]);
            NodeView::Internal(new_root@).lemma_byte_len();
        }

        // COW new root
        let cowed = new_root.cow(dev, &mut free_space_offset, ObjectType::InternalNode);
        proof {
            lemma_same_below_chain(start, middle, dev.view(), fso, new_free_space_offset as int);
            if cowed is Ok {
                lemma_same_from_chain(
                    start,
                    middle,
                    dev.view(),
                    new_free_space_offset as int,
                    free_space_offset as int,
                );
            }
        }
        let new_op = match cowed {
            Ok(op) => op,
            Err(e) => {
                return Err(e);
            },
        };
        proof {
            if valid {
                lemma_inserted_split(
                    old(dev).faultless(),
                    start,
                    middle,
                    dev.view(),
                    op,
                    fso as u64,
                    entry_to_insert,
                    scope,
                    left_entry,
                    right_entry,
                    new_free_space_offset,
                    old_value,
                    halves.0,
                    halves.1,
                    new_op,
                    free_space_offset,
                );
            }
        }
        Ok((new_op, free_space_offset, old_value))
    } else {
        let (res, Ghost(after)) = insert_in_node(
            dev,
            any_object,
            op.offset,
            free_space_offset,
            entry_to_insert,
            Ghost(scope),
        );
        let (entry, free_space_offset, old_value) = match res {
            Ok(done) => done,
            Err(e) => {
                return Err(e);
            },
        };
        proof {
            if valid {
                lemma_inserted_put(
                    old(dev).faultless(),
                    start,
                    dev.view(),
                    op,
                    fso as u64,
                    entry_to_insert,
                    scope,
                    entry,
                    free_space_offset,
                    old_value,
                    after,
                );
            }
        }
        Ok((entry.value, free_space_offset, old_value))
    }
}

/// Looks `key` up in the subtree under `op`.
pub(crate) fn get_in<D: BlockDevice>(dev: &mut D, op: ObjectPointer, key: u64, Ghost(scope): Ghost<Scope>) -> (r:
    Result<Option<u64>, Error>)
    ensures
        final(dev).view() == old(dev).view(),
        final(dev).faultless() == old(dev).faultless(),
        unreadable(old(dev).view(), old(dev).faultless(), op, final(dev).view(), failure(r)),
        astray(old(dev).view(), old(dev).faultless(), op, key, failure(r)),
        stored(old(dev).view(), op, scope.tree) && scope.tree.sound(
            scope.height,
            scope.lo,
            scope.hi,
        ) && (scope.tree is Internal ==> scope.tree.len() > 0) ==> match r {
            Ok(value) => {
                &&& value == lookup(scope.tree.map(), key)
                &&& final(dev).requests() == old(dev).requests() + path_reads(scope.tree, op, key)
            },
            Err(e) => !old(dev).faultless(),
        },
    decreases op.offset,
{
    let ghost valid = stored(old(dev).view(), op, scope.tree) && scope.tree.sound(
        scope.height,
        scope.lo,
        scope.hi,
    ) && (scope.tree is Internal ==> scope.tree.len() > 0);
    let ghost asked = old(dev).requests();
    // read root node
    let any_object = match op.async_read_object(dev) {
        Ok(object) => object,
        Err(e) => {
            return Err(e);
        },
    };
    match any_object {
        AnyObject::LeafNode(node) => {
            match node.search(key) {
                Ok(i) => {
                    proof {
                        if valid {
                            lemma_lookup_index(node@, i as int);
                            assert(asked.push(read_of(op)) =~= asked + seq![read_of(op)]);
                        }
                    }
                    Ok(Some(node.entries[i].value))
                },
                Err(i) => {
                    proof {
                        if valid {
                            lemma_insertion_point_absent(node@, key, i as int);
                            lemma_lookup_absent(node@, key);
                            assert(asked.push(read_of(op)) =~= asked + seq![read_of(op)]);
                        }
                    }
                    Ok(None)
                },
            }
        },
        AnyObject::InternalNode(node) => {
            let index = match descend_index(&node, key) {
                Some(index) => index,
                None => {
                    return Err(Error::LogicError);
                },
            };
            let child = node.entries[index].value;
            proof {
                if valid {
                    lemma_child_scope(old(dev).view(), scope, op.offset as int, index as int);
                    lemma_route_lookup(
                        scope.tree,
                        scope.height,
                        scope.lo,
                        scope.hi,
                        index as int,
                        key,
                    );
                }
            }
            if child.offset >= op.offset {
                return Err(Error::LogicError);
            }
            let ghost below = scope.tree.children()[index as int];
            let found = get_in(
                dev,
                child,
                key,
                Ghost(
                    Scope {
                        tree: below,
                        height: (scope.height - 1) as nat,
                        lo: node@[index as int].key as int,
                        hi: upper(node@, index as int, scope.hi),
                    },
                ),
            );
            proof {
                if valid {
                    lemma_route_unique(node@, key, index as int);
                    assert(asked.push(read_of(op)) + path_reads(below, child, key) =~= asked + (
                    seq![read_of(op)] + path_reads(below, child, key)));
                }
            }
            found
        },
    }
}

/// Looks `key` up in the tree under `op`.
///
/// The descent reads one node on each level, from the root to the leaf to
/// which the key routes, and writes nothing.
pub fn get<D: BlockDevice>(dev: &mut D, op: ObjectPointer, key: u64) -> (r: Result<
    Option<u64>,
    Error,
>)
    ensures
        final(dev).view() == old(dev).view(),
        final(dev).faultless() == old(dev).faultless(),
        unreadable(old(dev).view(), old(dev).faultless(), op, final(dev).view(), failure(r)),
        astray(old(dev).view(), old(dev).faultless(), op, key, failure(r)),
        is_stored_btree(old(dev).view(), op) ==> match r {
            Ok(value) => {
                &&& value == lookup(btree_map(old(dev).view(), op), key)
                &&& final(dev).requests() == old(dev).requests() + path_reads(
                    btree_of(old(dev).view(), op),
                    op,
                    key,
                )
            },
            Err(e) => !old(dev).faultless(),
        },
{
    let ghost scope = Scope { tree: btree_of(dev.view(), op), height: 0, lo: 0, hi: u64::MAX + 1 };
    proof {
        if is_stored_btree(dev.view(), op) {
            let found = lemma_btree_witness(dev.view(), op);
            scope = Scope { tree: found.0, height: found.1, lo: 0, hi: u64::MAX + 1 };
        }
    }
    get_in(dev, op, key, Ghost(scope))
}

/// Reads the entries of the subtree under `op`, from left to right.
pub(crate) fn read_in<D: BlockDevice>(dev: &mut D, op: ObjectPointer, Ghost(scope): Ghost<Scope>) -> (r: Result<
    Vec<LeafNodeEntry>,
    Error,
>)
    ensures
        final(dev).view() == old(dev).view(),
        final(dev).faultless() == old(dev).faultless(),
        unreadable(old(dev).view(), old(dev).faultless(), op, final(dev).view(), failure(r)),
        misplaced(old(dev).view(), old(dev).faultless(), op, failure(r)),
        stored(old(dev).view(), op, scope.tree) && scope.tree.sound(
            scope.height,
            scope.lo,
            scope.hi,
        ) ==> match r {
            Ok(entries) => {
                &&& entries@ == scope.tree.flat()
                &&& final(dev).requests() == old(dev).requests() + walk_reads(scope.tree, op)
            },
            Err(e) => !old(dev).faultless(),
        },
    decreases op.offset,
{
    let ghost valid = stored(old(dev).view(), op, scope.tree) && scope.tree.sound(
        scope.height,
        scope.lo,
        scope.hi,
    );
    let ghost start = old(dev).view();
    let any_object = match op.async_read_object(dev) {
        Ok(object) => object,
        Err(e) => {
            return Err(e);
        },
    };
    let ghost first = dev.requests();
    proof {
        assert(first =~= old(dev).requests() + seq![read_of(op)]);
    }
    match any_object {
        AnyObject::LeafNode(node) => Ok(node.entries),
        AnyObject::InternalNode(node) => {
            let mut v: Vec<LeafNodeEntry> = Vec::new();
            let mut i: usize = 0;
            while i < node.entries.len()
                invariant
                    i <= node@.len(),
                    dev.view() == start,
                    start == old(dev).view(),
                    dev.faultless() == old(dev).faultless(),
                    valid == (stored(start, op, scope.tree) && scope.tree.sound(
                        scope.height,
                        scope.lo,
                        scope.hi,
                    )),
                    valid ==> NodeView::Internal(node@) == scope.tree.node(),
                    valid ==> v@ == crate::tree::flat_prefix(scope.tree.children(), i as nat),
                    object_at(start, op) == Ok::<NodeView, Error>(NodeView::Internal(node@)),
                    i > 0 ==> node@[0].value.offset < op.offset,
                    first == old(dev).requests() + seq![read_of(op)],
                    valid ==> dev.requests() == first + walk_prefix(
                        node@,
                        scope.tree.children(),
                        i as nat,
                    ),
                decreases node@.len() - i,
            {
                let child = node.entries[i].value;
                proof {
                    if valid {
                        lemma_child_scope(start, scope, op.offset as int, i as int);
                    }
                }
                if child.offset >= op.offset {
                    return Err(Error::LogicError);
                }
                let mut res = match read_in(dev, child, Ghost(child_scope(scope, i as int))) {
                    Ok(res) => res,
                    Err(e) => {
                        return Err(e);
                    },
                };
                v.append(&mut res);
                proof {
                    if valid {
                        let kids = scope.tree.children();
                        assert(first + walk_prefix(node@, kids, i as nat) + walk_reads(
                            kids[i as int],
                            child,
                        ) =~= first + walk_prefix(node@, kids, (i + 1) as nat));
                    }
                }
                i += 1;
            }
            proof {
                if valid {
                    let kids = scope.tree.children();
                    assert(old(dev).requests() + seq![read_of(op)] + walk_prefix(
                        node@,
                        kids,
                        kids.len(),
                    ) =~= old(dev).requests() + walk_reads(scope.tree, op));
                }
            }
            Ok(v)
        },
    }
}

/// Reads every entry of the tree under `op`, in the order of its leaves:
/// one read for every node, each node before its subtrees.
pub fn read_btree<D: BlockDevice>(dev: &mut D, op: ObjectPointer) -> (r: Result<
    Vec<LeafNodeEntry>,
    Error,
>)
    ensures
        final(dev).view() == old(dev).view(),
        final(dev).faultless() == old(dev).faultless(),
        unreadable(old(dev).view(), old(dev).faultless(), op, final(dev).view(), failure(r)),
        misplaced(old(dev).view(), old(dev).faultless(), op, failure(r)),
        is_stored_btree(old(dev).view(), op) ==> match r {
            Ok(entries) => {
                &&& entries@ == crate::tree::btree_entries(old(dev).view(), op)
                &&& sorted_keys(entries@)
                &&& entries_map(entries@) == btree_map(old(dev).view(), op)
                &&& final(dev).requests() == old(dev).requests() + walk_reads(
                    btree_of(old(dev).view(), op),
                    op,
                )
            },
            Err(e) => !old(dev).faultless(),
        },
{
    let ghost scope = Scope { tree: btree_of(dev.view(), op), height: 0, lo: 0, hi: u64::MAX + 1 };
    proof {
        if is_stored_btree(dev.view(), op) {
            let found = lemma_btree_witness(dev.view(), op);
            scope = Scope { tree: found.0, height: found.1, lo: 0, hi: u64::MAX + 1 };
            lemma_flat_sound(found.0, found.1, 0, u64::MAX + 1);
        }
    }
    read_in(dev, op, Ghost(scope))
}

/// Takes `key` out of a leaf and appends the leaf at the free-space offset.
///
/// Returns the pointer to the new leaf, the new free-space offset and the
/// value that the key had, and beside them the first key of the leaf as it
/// now is, 0 for a leaf without entries. The leaf is appended whether or not
/// it had the key.
pub(crate) fn remove_in_leaf<D: BlockDevice>(
    dev: &mut D,
    node: LeafNode,
    free_space_offset: u64,
    key: u64,
    Ghost(scope): Ghost<Scope>,
) -> (r: (Result<(ObjectPointer, u64, Option<u64>), Error>, Ghost<(Tree, nat)>, u64))
    requires
        node@.len() <= 2 * BTREE_DEGREE,
    ensures
        same_below(old(dev).view(), final(dev).view(), free_space_offset as int),
        final(dev).faultless() == old(dev).faultless(),
        r.0 matches Ok(done) ==> free_space_offset <= done.1,
        r.0 matches Ok(done) ==> same_from(old(dev).view(), final(dev).view(), done.1 as int),
        rooted(
            old(dev).view(),
            NodeView::Leaf(node@),
            scope,
            free_space_offset as int,
            free_space_offset as int,
        ) && node@.len() <= BTREE_DEGREE ==> cut_done(
            old(dev).faultless(),
            final(dev).view(),
            scope,
            free_space_offset as int,
            key,
            r.0,
            r.1@.0,
            r.1@.1,
            r.2,
        ),
{
    let ghost valid = rooted(
        old(dev).view(),
        NodeView::Leaf(node@),
        scope,
        free_space_offset as int,
        free_space_offset as int,
    ) && node@.len() <= BTREE_DEGREE;
    let mut node = node;
    let mut free_space_offset = free_space_offset;
    let ghost before = node@;
    let ghost fso = free_space_offset as int;

    let res = node.search(key);
    let removed = match res {
        Ok(i) => Some(node.entries.remove(i).value),
        Err(_) => None,
    };
    let ghost after = Tree::Leaf { entries: node@ };
    proof {
        reveal(cut_sound);
        if valid {
            lemma_leaf_cut(before, node@, key, res, scope.lo, scope.hi);
        }
        NodeView::Leaf(node@).lemma_byte_len();
    }

    // the key that the node above keeps for this leaf
    let first_key = if node.entries.len() > 0 {
        node.entries[0].key
    } else {
        0
    };

    // COW node
    let op = match node.cow(dev, &mut free_space_offset, ObjectType::LeafNode) {
        Ok(op) => op,
        Err(e) => {
            return (Err(e), Ghost((after, 0)), 0);
        },
    };
    proof {
        if valid {
            lemma_stored_fresh(old(dev).view(), dev.view(), op, after, fso);
            lemma_cut_placed_leaf(scope, fso, key, node@, res, op, free_space_offset);
        }
    }
    (Ok((op, free_space_offset, removed)), Ghost((after, 0)), first_key)
}

/// Takes `key` out of the subtree below `node`, an internal node, and appends
/// the node.
///
/// The child to which the key routes is read. A child with no entry to spare
/// is first merged with a neighbour, the left one if there is one: wholly
/// when both fit into one node, else by moving half of the neighbour's
/// entries over. The entry of the rebuilt child gets the first key that the
/// child then has. A node left with a single entry hands back the pointer of
/// that entry instead of being appended.
///
/// Returns what [`remove_in_leaf`] returns, for the node.
pub(crate) fn remove_in_internal<D: BlockDevice>(
    dev: &mut D,
    node: InternalNode,
    limit: u64,
    free_space_offset: u64,
    key: u64,
    Ghost(scope): Ghost<Scope>,
) -> (r: (Result<(ObjectPointer, u64, Option<u64>), Error>, Ghost<(Tree, nat)>, u64))
    requires
        node@.len() <= 2 * BTREE_DEGREE,
    ensures
        same_below(old(dev).view(), final(dev).view(), free_space_offset as int),
        final(dev).faultless() == old(dev).faultless(),
        r.0 matches Ok(done) ==> free_space_offset <= done.1,
        r.0 matches Ok(done) ==> same_from(old(dev).view(), final(dev).view(), done.1 as int),
        rooted(
            old(dev).view(),
            NodeView::Internal(node@),
            scope,
            limit as int,
            free_space_offset as int,
        ) && 2 <= node@.len() <= BTREE_DEGREE ==> cut_done(
            old(dev).faultless(),
            final(dev).view(),
            scope,
            free_space_offset as int,
            key,
            r.0,
            r.1@.0,
            r.1@.1,
            r.2,
        ),
    decreases limit, 3nat,
{
    let ghost valid = rooted(
        old(dev).view(),
        NodeView::Internal(node@),
        scope,
        limit as int,
        free_space_offset as int,
    ) && 2 <= node@.len() <= BTREE_DEGREE;
    let ghost fso = free_space_offset as int;
    let ghost start = old(dev).view();
    let ghost faultless = old(dev).faultless();
    let ghost unchanged = (scope.tree, scope.height);
    let mut node = node;

    // read the child on the way to the key to delete
    let (index, op, child) = match read_child(dev, &node, limit, key, Ghost(scope), Ghost(fso)) {
        Ok(found) => found,
        Err(e) => {
            proof {
                if valid {
                    lemma_failed_unreliable(start, scope, fso, key, e, unchanged.0, unchanged.1);
                }
            }
            return (Err(e), Ghost(unchanged), 0);
        },
    };
    if child.len() <= BTREE_B {
        // pro-active merging if the node has the minimum size
        proof {
            if valid {
                lemma_pair_ready(start, node@, scope, limit as int, fso, key, index as int, op, child@);
            }
        }
        merge_and_remove(dev, node, index, op, child, limit, free_space_offset, key, Ghost(scope))
    } else {
        // there is enough entries in the node: no need to merge
        let (res, Ghost(rebuilt), rebuilt_key) = remove_in_node(
            dev,
            child,
            op.offset,
            free_space_offset,
            key,
            Ghost(child_scope(scope, index as int)),
        );
        let (child_op, new_free_space_offset, removed_value) = match res {
            Ok(done) => done,
            Err(e) => {
                proof {
                    if valid {
                        lemma_child_scope(start, scope, limit as int, index as int);
                        lemma_growth_one(scope, index as int, key);
                        lemma_failed_below(
                            faultless,
                            dev.view(),
                            scope,
                            child_scope(scope, index as int),
                            fso,
                            key,
                            e,
                            rebuilt.0,
                            rebuilt.1,
                        );
                    }
                }
                return (Err(e), Ghost(unchanged), 0);
            },
        };
        // update child entry to point to the new node, under its first key
        let child_key = rebuilt_key;
        node.entries.set(index, NodeEntry::new(child_key, child_op));
        let first_key = node.entries[0].key;
        let ghost after = scope.tree.splice(
            index as int,
            index + 1,
            seq![NodeEntry { key: child_key, value: child_op }],
            seq![rebuilt.0],
        );
        let mut free_space_offset = new_free_space_offset;
        let ghost middle = dev.view();
        proof {
            NodeView::Internal(node@).lemma_byte_len();
        }

        // COW the node
        let cowed = node.cow(dev, &mut free_space_offset, ObjectType::InternalNode);
        proof {
            lemma_same_below_chain(start, middle, dev.view(), fso, new_free_space_offset as int);
            if cowed is Ok {
                lemma_same_from_chain(
                    start,
                    middle,
                    dev.view(),
                    new_free_space_offset as int,
                    free_space_offset as int,
                );
            }
            if valid {
                lemma_remove_one_done(
                    faultless,
                    start,
                    middle,
                    dev.view(),
                    scope,
                    limit as int,
                    fso,
                    key,
                    index as int,
                    child_op,
                    new_free_space_offset,
                    removed_value,
                    rebuilt.0,
                    rebuilt.1,
                    child_key,
                    node@,
                    cowed,
                    free_space_offset,
                );
                if cowed is Ok {
                    lemma_cut_placed_one(
                        faultless,
                        middle,
                        scope,
                        fso,
                        key,
                        index as int,
                        child_op,
                        new_free_space_offset,
                        removed_value,
                        rebuilt.0,
                        rebuilt.1,
                        child_key,
                        cowed->Ok_0,
                        free_space_offset,
                    );
                }
            }
        }
        match cowed {
            Ok(op) => (
                Ok((op, free_space_offset, removed_value)),
                Ghost((after, scope.height)),
                first_key,
            ),
            Err(e) => (Err(e), Ghost((after, scope.height)), 0),
        }
    }
}

/// Takes `key` out of the subtree below `object`, a node of either kind.
pub(crate) fn remove_in_node<D: BlockDevice>(
    dev: &mut D,
    object: AnyObject,
    limit: u64,
    free_space_offset: u64,
    key: u64,
    Ghost(scope): Ghost<Scope>,
) -> (r: (Result<(ObjectPointer, u64, Option<u64>), Error>, Ghost<(Tree, nat)>, u64))
    requires
        object@.len() <= 2 * BTREE_DEGREE,
    ensures
        same_below(old(dev).view(), final(dev).view(), free_space_offset as int),
        final(dev).faultless() == old(dev).faultless(),
        r.0 matches Ok(done) ==> free_space_offset <= done.1,
        r.0 matches Ok(done) ==> same_from(old(dev).view(), final(dev).view(), done.1 as int),
        rooted(old(dev).view(), object@, scope, limit as int, free_space_offset as int)
            && scope.tree.len() <= BTREE_DEGREE && (scope.tree is Internal ==> scope.tree.len()
            >= 2) ==> cut_done(
            old(dev).faultless(),
            final(dev).view(),
            scope,
            free_space_offset as int,
            key,
            r.0,
            r.1@.0,
            r.1@.1,
            r.2,
        ),
    decreases limit, 4nat,
{
    match object {
        AnyObject::LeafNode(node) => remove_in_leaf(dev, node, free_space_offset, key, Ghost(scope)),
        AnyObject::InternalNode(node) => remove_in_internal(
            dev,
            node,
            limit,
            free_space_offset,
            key,
            Ghost(scope),
        ),
    }
}

/// The part of [`remove_in_internal`] for a child with no entry to spare:
/// picks the neighbour, reads it, and merges the two wholly or in part.
pub(crate) fn merge_and_remove<D: BlockDevice>(
    dev: &mut D,
    node: InternalNode,
    index: usize,
    op: ObjectPointer,
    child: AnyObject,
    limit: u64,
    free_space_offset: u64,
    key: u64,
    Ghost(scope): Ghost<Scope>,
) -> (r: (Result<(ObjectPointer, u64, Option<u64>), Error>, Ghost<(Tree, nat)>, u64))
    requires
        node@.len() <= 2 * BTREE_DEGREE,
        index < node@.len(),
        op == node@[index as int].value,
        op.offset < limit,
        child@.len() <= BTREE_B,
    ensures
        same_below(old(dev).view(), final(dev).view(), free_space_offset as int),
        final(dev).faultless() == old(dev).faultless(),
        r.0 matches Ok(done) ==> free_space_offset <= done.1,
        r.0 matches Ok(done) ==> same_from(old(dev).view(), final(dev).view(), done.1 as int),
        child_read(
            old(dev).view(),
            node@,
            scope,
            limit as int,
            free_space_offset as int,
            key,
            index as int,
            child@,
        ) ==> cut_done(
            old(dev).faultless(),
            final(dev).view(),
            scope,
            free_space_offset as int,
            key,
            r.0,
            r.1@.0,
            r.1@.1,
            r.2,
        ),
    decreases limit, 2nat,
{
    let ghost valid = child_read(
        old(dev).view(),
        node@,
        scope,
        limit as int,
        free_space_offset as int,
        key,
        index as int,
        child@,
    );
    let ghost start = old(dev).view();
    let ghost fso = free_space_offset as int;
    let ghost unchanged = (scope.tree, scope.height);
    let neighbor_index = if index > 0 {
        // if we have a left neighbor
        index - 1
    } else if index < node.entries.len() - 1 {
        // if we have a right neighbor
        index + 1
    } else {
        proof {
            reveal(child_read);
        }
        return (Err(Error::LogicError), Ghost(unchanged), 0);
    };
    let neighbor_op = node.entries[neighbor_index].value;
    let from_left = neighbor_index < index;
    let first = if from_left {
        neighbor_index
    } else {
        index
    };
    proof {
        if valid {
            lemma_neighbor(start, node@, scope, limit as int, fso, key, index as int, child@, from_left);
        }
    }
    if neighbor_op.offset >= limit {
        return (Err(Error::LogicError), Ghost(unchanged), 0);
    }
    let neighbor = match neighbor_op.async_read_object(dev) {
        Ok(object) => object,
        Err(e) => {
            proof {
                if valid {
                    lemma_failed_unreliable(start, scope, fso, key, e, unchanged.0, unchanged.1);
                }
            }
            return (Err(e), Ghost(unchanged), 0);
        },
    };
    if neighbor.len() > BTREE_DEGREE {
        return (Err(Error::LogicError), Ghost(unchanged), 0);
    }
    let sub_limit = if op.offset > neighbor_op.offset {
        op.offset
    } else {
        neighbor_op.offset
    };
    if child.len() + neighbor.len() <= BTREE_DEGREE {
        // if there is enough space to do a full merge
        if from_left {
            proof {
                if valid {
                    lemma_pair_intro(
                        start,
                        node@,
                        scope,
                        limit as int,
                        fso,
                        key,
                        index as int,
                        child@,
                        from_left,
                        neighbor@,
                        sub_limit as int,
                    );
                }
            }
            full_merge_and_remove(
                dev,
                node,
                first,
                neighbor,
                child,
                sub_limit,
                limit,
                free_space_offset,
                key,
                Ghost(scope),
                Ghost(index as int),
            )
        } else {
            proof {
                if valid {
                    lemma_pair_intro(
                        start,
                        node@,
                        scope,
                        limit as int,
                        fso,
                        key,
                        index as int,
                        child@,
                        from_left,
                        neighbor@,
                        sub_limit as int,
                    );
                }
            }
            full_merge_and_remove(
                dev,
                node,
                first,
                child,
                neighbor,
                sub_limit,
                limit,
                free_space_offset,
                key,
                Ghost(scope),
                Ghost(index as int),
            )
        }
    } else {
        // partial merge
        if from_left {
            proof {
                if valid {
                    lemma_pair_intro(
                        start,
                        node@,
                        scope,
                        limit as int,
                        fso,
                        key,
                        index as int,
                        child@,
                        from_left,
                        neighbor@,
                        sub_limit as int,
                    );
                    lemma_shift_intro(
                        start,
                        node@,
                        scope,
                        limit as int,
                        fso,
                        key,
                        first as int,
                        neighbor@,
                        child@,
                        sub_limit as int,
                        true,
                    );
                }
            }
            partial_merge_and_remove(
                dev,
                node,
                first,
                neighbor,
                child,
                true,
                sub_limit,
                limit,
                free_space_offset,
                key,
                Ghost(scope),
            )
        } else {
            proof {
                if valid {
                    lemma_pair_intro(
                        start,
                        node@,
                        scope,
                        limit as int,
                        fso,
                        key,
                        index as int,
                        child@,
                        from_left,
                        neighbor@,
                        sub_limit as int,
                    );
                    lemma_shift_intro(
                        start,
                        node@,
                        scope,
                        limit as int,
                        fso,
                        key,
                        first as int,
                        child@,
                        neighbor@,
                        sub_limit as int,
                        false,
                    );
                }
            }
            partial_merge_and_remove(
                dev,
                node,
                first,
                child,
                neighbor,
                false,
                sub_limit,
                limit,
                free_space_offset,
                key,
                Ghost(scope),
            )
        }
    }
}

/// Merges two neighbouring children wholly, takes `key` out of the merged
/// child, and appends `node` with one entry for the two, or hands back the
/// pointer of that entry when it is the only one left.
pub(crate) fn full_merge_and_remove<D: BlockDevice>(
    dev: &mut D,
    node: InternalNode,
    first: usize,
    left: AnyObject,
    right: AnyObject,
    sub_limit: u64,
    limit: u64,
    free_space_offset: u64,
    key: u64,
    Ghost(scope): Ghost<Scope>,
    Ghost(index): Ghost<int>,
) -> (r: (Result<(ObjectPointer, u64, Option<u64>), Error>, Ghost<(Tree, nat)>, u64))
    requires
        node@.len() <= 2 * BTREE_DEGREE,
        first + 1 < node@.len(),
        left@.len() + right@.len() <= BTREE_DEGREE,
        sub_limit < limit,
    ensures
        same_below(old(dev).view(), final(dev).view(), free_space_offset as int),
        final(dev).faultless() == old(dev).faultless(),
        r.0 matches Ok(done) ==> free_space_offset <= done.1,
        r.0 matches Ok(done) ==> same_from(old(dev).view(), final(dev).view(), done.1 as int),
        pair_read(
            old(dev).view(),
            node@,
            scope,
            limit as int,
            free_space_offset as int,
            key,
            first as int,
            left@,
            right@,
            sub_limit as int,
            index,
        ) ==> cut_done(
            old(dev).faultless(),
            final(dev).view(),
            scope,
            free_space_offset as int,
            key,
            r.0,
            r.1@.0,
            r.1@.1,
            r.2,
        ),
    decreases limit, 1nat,
{
    let ghost valid = pair_read(
        old(dev).view(),
        node@,
        scope,
        limit as int,
        free_space_offset as int,
        key,
        first as int,
        left@,
        right@,
        sub_limit as int,
        index,
    );
    let ghost fso = free_space_offset as int;
    let ghost start = old(dev).view();
    let ghost faultless = old(dev).faultless();
    let ghost links = node@;
    let ghost left_view = left@;
    let ghost right_view = right@;
    let ghost unchanged = (scope.tree, scope.height);
    let mut node = node;
    proof {
        if valid {
            lemma_pair_read(
                start,
                links,
                scope,
                limit as int,
                fso,
                key,
                first as int,
                left_view,
                right_view,
                sub_limit as int,
                index,
            );
        }
    }
    // we drain the source node into the destination node
    let merged = match left.join(right) {
        Ok(merged) => merged,
        Err(e) => {
            return (Err(e), Ghost(unchanged), 0);
        },
    };
    // recursion
    let (res, Ghost(rebuilt), rebuilt_key) = remove_in_node(
        dev,
        merged,
        sub_limit,
        free_space_offset,
        key,
        Ghost(merged_scope(scope, first as int)),
    );
    let (merged_op, new_free_space_offset, removed_value) = match res {
        Ok(done) => done,
        Err(e) => {
            proof {
                if valid {
                    lemma_failed_below(
                        faultless,
                        dev.view(),
                        scope,
                        merged_scope(scope, first as int),
                        fso,
                        key,
                        e,
                        rebuilt.0,
                        rebuilt.1,
                    );
                }
            }
            return (Err(e), Ghost(unchanged), 0);
        },
    };
    // update child entry to point to the new node, under its first key
    let left_key = rebuilt_key;
    node.entries.set(first, NodeEntry::new(left_key, merged_op));
    // remove the source node as it is empty now
    node.entries.remove(first + 1);
    proof {
        assert(node@ == links.take(first as int) + seq![
            NodeEntry { key: left_key, value: merged_op },
        ] + links.skip(first + 2));
    }
    if node.entries.len() > 1 {
        // common case
        let first_key = node.entries[0].key;
        let ghost after = scope.tree.splice(
            first as int,
            first + 2,
            seq![NodeEntry { key: left_key, value: merged_op }],
            seq![rebuilt.0],
        );
        let mut free_space_offset = new_free_space_offset;
        let ghost middle = dev.view();
        proof {
            NodeView::Internal(node@).lemma_byte_len();
        }
        // COW the node
        let cowed = node.cow(dev, &mut free_space_offset, ObjectType::InternalNode);
        proof {
            lemma_same_below_chain(start, middle, dev.view(), fso, new_free_space_offset as int);
            if cowed is Ok {
                lemma_same_from_chain(
                    start,
                    middle,
                    dev.view(),
                    new_free_space_offset as int,
                    free_space_offset as int,
                );
            }
            if valid {
                lemma_remove_merged_done(
                    faultless,
                    start,
                    middle,
                    dev.view(),
                    scope,
                    limit as int,
                    fso,
                    key,
                    first as int,
                    left_view,
                    right_view,
                    sub_limit as int,
                    index,
                    merged_op,
                    new_free_space_offset,
                    removed_value,
                    rebuilt.0,
                    rebuilt.1,
                    left_key,
                    node@,
                    cowed,
                    free_space_offset,
                );
                if cowed is Ok {
                    lemma_cut_placed_merged(
                        faultless,
                        start,
                        middle,
                        links,
                        scope,
                        limit as int,
                        fso,
                        key,
                        first as int,
                        left_view,
                        right_view,
                        sub_limit as int,
                        index,
                        merged_op,
                        new_free_space_offset,
                        removed_value,
                        rebuilt.0,
                        rebuilt.1,
                        left_key,
                        cowed->Ok_0,
                        free_space_offset,
                    );
                }
            }
        }
        match cowed {
            Ok(op) => (
                Ok((op, free_space_offset, removed_value)),
                Ghost((after, scope.height)),
                first_key,
            ),
            Err(e) => (Err(e), Ghost((after, scope.height)), 0),
        }
    } else {
        // we are the root node and we can pop the head
        proof {
            if valid {
                lemma_remove_popped_done(
                    faultless,
                    start,
                    dev.view(),
                    scope,
                    limit as int,
                    fso,
                    key,
                    first as int,
                    left_view,
                    right_view,
                    sub_limit as int,
                    index,
                    merged_op,
                    new_free_space_offset,
                    removed_value,
                    rebuilt.0,
                    rebuilt.1,
                );
                lemma_cut_placed_merged(
                    faultless,
                    start,
                    dev.view(),
                    links,
                    scope,
                    limit as int,
                    fso,
                    key,
                    first as int,
                    left_view,
                    right_view,
                    sub_limit as int,
                    index,
                    merged_op,
                    new_free_space_offset,
                    removed_value,
                    rebuilt.0,
                    rebuilt.1,
                    left_key,
                    merged_op,
                    new_free_space_offset,
                );
            }
        }
        let head = node.entries.remove(0);
        (
            Ok((head.value, new_free_space_offset, removed_value)),
            Ghost((rebuilt.0, (scope.height - 1) as nat)),
            rebuilt_key,
        )
    }
}

/// Moves half of the entries of the fuller of two neighbouring nodes to the
/// other: the tail of `left` to the front of `right` when `from_left`, else
/// the head of `right` to the end of `left`.
///
/// Returns the node that received entries and the node that gave them, in
/// that order.
pub(crate) fn shift_entries(left: AnyObject, right: AnyObject, from_left: bool) -> (r: Result<
    (AnyObject, AnyObject),
    Error,
>)
    requires
        left@.len() <= BTREE_DEGREE,
        right@.len() <= BTREE_DEGREE,
    ensures
        match r {
            Ok((child, neighbor)) => {
                &&& left@.kind() == right@.kind()
                &&& child@.len() <= 2 * BTREE_DEGREE
                &&& neighbor@.len() <= BTREE_DEGREE
                &&& from_left ==> {
                    &&& neighbor@ == left@.take(left@.len() - left@.len() / 2)
                    &&& child@ == left@.skip(left@.len() - left@.len() / 2).join(right@)
                }
                &&& !from_left ==> {
                    &&& child@ == left@.join(right@.take((right@.len() / 2) as int))
                    &&& neighbor@ == right@.skip((right@.len() / 2) as int)
                }
            },
            Err(e) => left@.kind() != right@.kind() && e == Error::LogicError,
        },
{
    if from_left {
        // figure out how many entries we want to move
        let nb_entries_to_move = left.len() / 2;
        let kept = left.len() - nb_entries_to_move;
        let (keep, moved) = left.split(kept);
        match moved.join(right) {
            Ok(joined) => Ok((joined, keep)),
            Err(e) => Err(e),
        }
    } else {
        let nb_entries_to_move = right.len() / 2;
        let (moved, keep) = right.split(nb_entries_to_move);
        match left.join(moved) {
            Ok(joined) => Ok((joined, keep)),
            Err(e) => Err(e),
        }
    }
}

/// The end of a partial merge: appends the child that gave entries away,
/// replaces the entries of both children in `node`, and appends `node`. The
/// rebuilt child stands under `child_key`, its first key.
pub(crate) fn finish_shift<D: BlockDevice>(
    dev: &mut D,
    node: InternalNode,
    first: usize,
    neighbor2: AnyObject,
    from_left: bool,
    right_key: u64,
    child_key: u64,
    child_op: ObjectPointer,
    free_space_offset: u64,
    removed_value: Option<u64>,
    key: u64,
    Ghost(scope): Ghost<Scope>,
    Ghost(sub_limit): Ghost<int>,
    Ghost(limit): Ghost<int>,
    Ghost(start): Ghost<Seq<u8>>,
    Ghost(fso): Ghost<int>,
    Ghost(views): Ghost<(NodeView, NodeView)>,
    Ghost(rebuilt): Ghost<(Tree, nat)>,
) -> (r: (Result<(ObjectPointer, u64, Option<u64>), Error>, Ghost<(Tree, nat)>, u64))
    requires
        node@.len() <= 2 * BTREE_DEGREE,
        first + 1 < node@.len(),
        neighbor2@.len() <= BTREE_DEGREE,
        fso <= free_space_offset,
    ensures
        same_below(old(dev).view(), final(dev).view(), free_space_offset as int),
        final(dev).faultless() == old(dev).faultless(),
        r.0 matches Ok(done) ==> free_space_offset <= done.1,
        r.0 matches Ok(done) ==> same_from(old(dev).view(), final(dev).view(), done.1 as int),
        shift_ready(
            start,
            node@,
            scope,
            limit,
            fso,
            key,
            first as int,
            views.0,
            views.1,
            sub_limit,
            from_left,
        ) && same_below(start, old(dev).view(), fso) && cut_done(
            old(dev).faultless(),
            old(dev).view(),
            shifted_child(scope, first as int, from_left),
            fso,
            key,
            Ok::<(ObjectPointer, u64, Option<u64>), Error>(
                (child_op, free_space_offset, removed_value),
            ),
            rebuilt.0,
            rebuilt.1,
            child_key,
        ) && neighbor2@ == shifted_neighbor(scope, first as int, from_left).node() && right_key
            == shifted(scope.tree, first as int, from_left).1.key(0) ==> cut_done(
            old(dev).faultless(),
            final(dev).view(),
            scope,
            fso,
            key,
            r.0,
            r.1@.0,
            r.1@.1,
            r.2,
        ),
{
    let ghost valid = shift_ready(
        start,
        node@,
        scope,
        limit,
        fso,
        key,
        first as int,
        views.0,
        views.1,
        sub_limit,
        from_left,
    ) && same_below(start, old(dev).view(), fso) && cut_done(
        old(dev).faultless(),
        old(dev).view(),
        shifted_child(scope, first as int, from_left),
        fso,
        key,
        Ok::<(ObjectPointer, u64, Option<u64>), Error>((child_op, free_space_offset, removed_value)),
        rebuilt.0,
        rebuilt.1,
        child_key,
    ) && neighbor2@ == shifted_neighbor(scope, first as int, from_left).node() && right_key
        == shifted(scope.tree, first as int, from_left).1.key(0);
    let ghost faultless = old(dev).faultless();
    let ghost rebuilt_device = old(dev).view();
    let ghost links = node@;
    let ghost unchanged = (scope.tree, scope.height);
    let ghost child_fso = free_space_offset;
    let mut node = node;
    let mut free_space_offset = free_space_offset;
    let left_key = node.entries[first].key;
    let ghost neighbor_view = neighbor2@;
    proof {
        neighbor2@.lemma_byte_len();
    }

    // COW the neighbor
    let neighbor_cowed = neighbor2.cow(dev, &mut free_space_offset);
    let ghost shifted_device = dev.view();
    let ghost neighbor_fso = free_space_offset;
    proof {
        if valid {
            lemma_shift_ready(
                start,
                links,
                scope,
                limit,
                fso,
                key,
                first as int,
                views.0,
                views.1,
                sub_limit,
                from_left,
            );
            lemma_shift_stored(
                faultless,
                start,
                rebuilt_device,
                shifted_device,
                scope,
                limit,
                fso,
                key,
                first as int,
                views.0,
                views.1,
                from_left,
                sub_limit,
                child_op,
                child_fso,
                removed_value,
                rebuilt.0,
                rebuilt.1,
                neighbor_cowed,
                neighbor_fso,
            );
        }
    }
    let neighbor_op = match neighbor_cowed {
        Ok(op) => op,
        Err(e) => {
            return (Err(e), Ghost(unchanged), 0);
        },
    };
    // update both entries to point to the new nodes
    let (left_op, right_op) = if from_left {
        (neighbor_op, child_op)
    } else {
        (child_op, neighbor_op)
    };
    // the rebuilt child stands under its first key
    let left_entry = NodeEntry::new(
        if from_left {
            left_key
        } else {
            child_key
        },
        left_op,
    );
    let right_entry = NodeEntry::new(
        if from_left {
            child_key
        } else {
            right_key
        },
        right_op,
    );
    node.entries.set(first, left_entry);
    node.entries.set(first + 1, right_entry);
    let first_key = node.entries[0].key;
    let ghost pair = shifted_pair(scope, first as int, from_left, rebuilt.0);
    let ghost block = shifted_links(
        scope,
        first as int,
        from_left,
        child_key,
        child_op,
        neighbor_op,
    );
    let ghost after = scope.tree.splice(first as int, first + 2, block, seq![pair.0, pair.1]);
    proof {
        lemma_two_replaced(links, first as int, left_entry, right_entry);
        if valid {
            assert(block == seq![left_entry, right_entry]);
            lemma_shift_block(
                start,
                shifted_device,
                scope,
                limit,
                fso,
                key,
                first as int,
                views.0,
                views.1,
                from_left,
                sub_limit,
                child_key,
                child_op,
                neighbor_op,
                removed_value,
                rebuilt.0,
                neighbor_fso,
            );
        }
        NodeView::Internal(node@).lemma_byte_len();
    }

    // COW the node
    let cowed = node.cow(dev, &mut free_space_offset, ObjectType::InternalNode);
    proof {
        lemma_same_below_chain(
            rebuilt_device,
            shifted_device,
            dev.view(),
            child_fso as int,
            neighbor_fso as int,
        );
        if cowed is Ok {
            lemma_same_from_chain(
                rebuilt_device,
                shifted_device,
                dev.view(),
                neighbor_fso as int,
                free_space_offset as int,
            );
        }
        if valid {
            lemma_rebuilt_done(
                faultless,
                shifted_device,
                dev.view(),
                scope,
                fso,
                key,
                after,
                neighbor_fso,
                removed_value,
                node@,
                cowed,
                free_space_offset,
            );
            if cowed is Ok {
                lemma_cut_placed_shifted(
                    faultless,
                    start,
                    rebuilt_device,
                    links,
                    scope,
                    limit,
                    fso,
                    key,
                    first as int,
                    views.0,
                    views.1,
                    sub_limit,
                    from_left,
                    child_op,
                    child_fso,
                    removed_value,
                    rebuilt.0,
                    rebuilt.1,
                    child_key,
                    neighbor_view,
                    neighbor_op,
                    neighbor_fso,
                    cowed->Ok_0,
                    free_space_offset,
                );
            }
        }
    }
    match cowed {
        Ok(op) => (Ok((op, free_space_offset, removed_value)), Ghost((after, scope.height)), first_key),
        Err(e) => (Err(e), Ghost((after, scope.height)), 0),
    }
}

/// Moves half of the entries of the fuller of two neighbouring children to
/// the other, takes `key` out of the child that received them, appends the
/// other child, and appends `node` with both entries replaced.
pub(crate) fn partial_merge_and_remove<D: BlockDevice>(
    dev: &mut D,
    node: InternalNode,
    first: usize,
    left: AnyObject,
    right: AnyObject,
    from_left: bool,
    sub_limit: u64,
    limit: u64,
    free_space_offset: u64,
    key: u64,
    Ghost(scope): Ghost<Scope>,
) -> (r: (Result<(ObjectPointer, u64, Option<u64>), Error>, Ghost<(Tree, nat)>, u64))
    requires
        node@.len() <= 2 * BTREE_DEGREE,
        first + 1 < node@.len(),
        left@.len() <= BTREE_DEGREE,
        right@.len() <= BTREE_DEGREE,
        sub_limit < limit,
    ensures
        same_below(old(dev).view(), final(dev).view(), free_space_offset as int),
        final(dev).faultless() == old(dev).faultless(),
        r.0 matches Ok(done) ==> free_space_offset <= done.1,
        r.0 matches Ok(done) ==> same_from(old(dev).view(), final(dev).view(), done.1 as int),
        shift_ready(
            old(dev).view(),
            node@,
            scope,
            limit as int,
            free_space_offset as int,
            key,
            first as int,
            left@,
            right@,
            sub_limit as int,
            from_left,
        ) ==> cut_done(
            old(dev).faultless(),
            final(dev).view(),
            scope,
            free_space_offset as int,
            key,
            r.0,
            r.1@.0,
            r.1@.1,
            r.2,
        ),
    decreases limit, 1nat,
{
    let ghost valid = shift_ready(
        old(dev).view(),
        node@,
        scope,
        limit as int,
        free_space_offset as int,
        key,
        first as int,
        left@,
        right@,
        sub_limit as int,
        from_left,
    );
    let ghost fso = free_space_offset as int;
    let ghost start = old(dev).view();
    let ghost faultless = old(dev).faultless();
    let ghost links = node@;
    let ghost views = (left@, right@);
    let ghost unchanged = (scope.tree, scope.height);
    proof {
        if valid {
            lemma_shift_ready(
                start,
                links,
                scope,
                limit as int,
                fso,
                key,
                first as int,
                views.0,
                views.1,
                sub_limit as int,
                from_left,
            );
        }
    }
    // move the entries
    let (child2, neighbor2) = match shift_entries(left, right, from_left) {
        Ok(moved) => moved,
        Err(e) => {
            return (Err(e), Ghost(unchanged), 0);
        },
    };
    if child2.len() == 0 || neighbor2.len() == 0 {
        return (Err(Error::LogicError), Ghost(unchanged), 0);
    }
    // in node.entries, the key of the right one is its new first key
    let right_key = if from_left {
        child2.first_key()
    } else {
        neighbor2.first_key()
    };

    // recursion
    let (res, Ghost(rebuilt), rebuilt_key) = remove_in_node(
        dev,
        child2,
        sub_limit,
        free_space_offset,
        key,
        Ghost(shifted_child(scope, first as int, from_left)),
    );
    let (child_op, new_free_space_offset, removed_value) = match res {
        Ok(done) => done,
        Err(e) => {
            proof {
                if valid {
                    lemma_shift_child_failed(
                        faultless,
                        start,
                        dev.view(),
                        scope,
                        limit as int,
                        fso,
                        key,
                        first as int,
                        views.0,
                        views.1,
                        from_left,
                        sub_limit as int,
                        rebuilt.0,
                        rebuilt.1,
                        e,
                    );
                }
            }
            return (Err(e), Ghost(unchanged), 0);
        },
    };
    let ghost rebuilt_device = dev.view();
    let done = finish_shift(
        dev,
        node,
        first,
        neighbor2,
        from_left,
        right_key,
        rebuilt_key,
        child_op,
        new_free_space_offset,
        removed_value,
        key,
        Ghost(scope),
        Ghost(sub_limit as int),
        Ghost(limit as int),
        Ghost(start),
        Ghost(fso),
        Ghost(views),
        Ghost(rebuilt),
    );
    proof {
        lemma_same_below_chain(
            start,
            rebuilt_device,
            dev.view(),
            fso,
            new_free_space_offset as int,
        );
        if done.0 is Ok {
            lemma_same_from_chain(
                start,
                rebuilt_device,
                dev.view(),
                new_free_space_offset as int,
                done.0->Ok_0.1 as int,
            );
        }
    }
    done
}

/// Takes `key` out of the tree under `op` and returns the pointer to the new
/// root, the new free-space offset and the value that the key had.
///
/// A key below the smallest key of the root leaves the tree as it is: the
/// root and the free-space offset come back unchanged, and nothing is
/// written. Any other key has every node on its way appended anew, whether
/// the tree holds it or not, the new root last. Nothing below
/// `free_space_offset` is written, and nothing from the offset returned on.
pub fn remove<D: BlockDevice>(
    dev: &mut D,
    op: ObjectPointer,
    free_space_offset: u64,
    key: u64,
) -> (r: Result<(ObjectPointer, u64, Option<u64>), Error>)
    ensures
        same_below(old(dev).view(), final(dev).view(), free_space_offset as int),
        final(dev).faultless() == old(dev).faultless(),
        r matches Ok(done) ==> free_space_offset <= done.1,
        r matches Ok(done) ==> same_from(old(dev).view(), final(dev).view(), done.1 as int),
        unreadable(old(dev).view(), old(dev).faultless(), op, final(dev).view(), failure(r)),
        overfull(old(dev).view(), old(dev).faultless(), op, final(dev).view(), failure(r)),
        is_btree(old(dev).view(), op, free_space_offset as int) ==> removed(
            old(dev).view(),
            old(dev).faultless(),
            op,
            free_space_offset,
            key,
            final(dev).view(),
            r,
        ),
{
    let ghost valid = is_btree(old(dev).view(), op, free_space_offset as int);
    let ghost start = old(dev).view();
    let ghost scope = Scope { tree: btree_of(start, op), height: 0, lo: 0, hi: u64::MAX + 1 };
    proof {
        if valid {
            let found = lemma_btree_witness(start, op);
            scope = Scope { tree: found.0, height: found.1, lo: 0, hi: u64::MAX + 1 };
        }
    }
    // read pointed object
    let any_object = match op.async_read_object(dev) {
        Ok(object) => object,
        Err(e) => {
            return Err(e);
        },
    };
    if any_object.len() > BTREE_DEGREE {
        return Err(Error::LogicError);
    }
    if any_object.len() > 0 && key < any_object.first_key() {
        // the key cannot be in the btree
        proof {
            if valid {
                lemma_below_first(scope.tree, scope.height, key);
            }
        }
        return Ok((op, free_space_offset, None));
    }
    let (res, Ghost(rebuilt), rebuilt_key) = remove_in_node(
        dev,
        any_object,
        op.offset,
        free_space_offset,
        key,
        Ghost(scope),
    );
    proof {
        if valid {
            lemma_removed(
                old(dev).faultless(),
                start,
                dev.view(),
                op,
                free_space_offset,
                key,
                scope,
                res,
                rebuilt.0,
                rebuilt.1,
                rebuilt_key,
            );
        }
    }
    res
}

} // verus!
