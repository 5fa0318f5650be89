//! Why removal keeps a tree sound: what holds after the subtree on the way
//! to the key was rebuilt, alone or together with a neighbour.

use vstd::prelude::*;
use crate::node::has_key;
use crate::merge_proofs::{
    lemma_growth_merged, lemma_growth_one, lemma_growth_shifted, pair_start, remove_growth,
};
use crate::cow_btree::remove;
use crate::descent::{
    appended, child_scope, lemma_child_scope, lemma_patch_holds, node_bytes, out_of_room, rooted,
    Scope,
};
use crate::device::{lemma_same_below_chain, same_below, same_from};
use crate::error::Error;
use crate::merge_proofs::{
    lemma_cut_merged, lemma_cut_one, lemma_cut_shifted, lemma_merged_scope, lemma_routes_within,
    lemma_shift_rooted, lemma_shifted, merged_scope, routes_within, shifted, shifted_child,
    shifted_links, shifted_neighbor, shifted_pair,
};
use crate::node::{
    BTREE_B, BTREE_DEGREE, insertion_point, InternalNodeEntry, LeafNodeEntry, NodeEntry,
    sorted_keys,
};
use crate::object::NodeView;
use crate::object_pointer::ObjectPointer;
use crate::sorted::{lemma_insertion_point_absent, lemma_lookup_absent, lemma_map_remove};
use crate::storage_proofs::{
    lemma_btree_of, lemma_holds_frame, lemma_stored_frame, lemma_stored_fresh,
};
use crate::tree::{
    btree_at, btree_height, btree_map, btree_of, entries_map, holds, is_btree, lookup, routes_to,
    stored, Tree, upper, within,
};
use crate::tree_proofs::{lemma_flat_sound, lemma_sound_height};

use crate::tree_cut::{cut_at, cut_placed, lemma_cut_keeps_exact};
use crate::tree_put::pointer_of;

verus! {

/// The outcome of taking `key` out of the subtree of `scope`: the subtree
/// `after`, of height `after_height`, is the one that [`Tree::cut`] names,
/// its root node is the last node written, and it is stored, sound, and
/// holds what the subtree held without the key. `first` is the first key of
/// its root node, for the entry of the node above.
pub open spec fn cut_done(
    faultless: bool,
    device: Seq<u8>,
    scope: Scope,
    fso: int,
    key: u64,
    r: Result<(ObjectPointer, u64, Option<u64>), Error>,
    after: Tree,
    after_height: nat,
    first: u64,
) -> bool {
    &&& cut_sound(faultless, device, scope, fso, key, r, after, after_height)
    &&& cut_placed(scope, fso, key, r, after, after_height)
    &&& r is Ok ==> first == after.first_key()
}

/// What is stored after `key` was taken out of the subtree of `scope`: the
/// subtree `after`, of height `after_height` and stored under the pointer
/// returned, whose root node is the last node written, holds what the
/// subtree held without the key.
///
/// The height is that of `scope` but in one case: an internal node of two
/// entries whose subtrees were merged hands back the merged subtree in its
/// own place.
#[verifier::opaque]
pub open spec fn cut_sound(
    faultless: bool,
    device: Seq<u8>,
    scope: Scope,
    fso: int,
    key: u64,
    r: Result<(ObjectPointer, u64, Option<u64>), Error>,
    after: Tree,
    after_height: nat,
) -> bool {
    match r {
        Ok((pointer, fso2, removed)) => {
            &&& stored(device, pointer, after)
            &&& fso <= pointer.offset
            &&& pointer.end() == fso2
            &&& fso2 == fso + remove_growth(scope.tree, scope.height, key)
            &&& fso2 <= device.len()
            &&& after.sound(after_height, scope.lo, scope.hi)
            &&& after.len() <= BTREE_DEGREE
            &&& after is Internal ==> after.len() >= 2
            &&& after_height == scope.height ==> after.len() <= scope.tree.len() <= after.len()
                + 1
            &&& after_height != scope.height ==> after_height + 1 == scope.height
                && scope.tree.len() == 2
            &&& after.map() == scope.tree.map().remove(key)
            &&& removed == lookup(scope.tree.map(), key)
        },
        Err(e) => out_of_room(
            faultless,
            device.len(),
            fso,
            remove_growth(scope.tree, scope.height, key),
            e,
        ),
    }
}

/// What taking `key` out of the sorted leaf entries `before` gives.
pub proof fn lemma_leaf_cut(
    before: Seq<LeafNodeEntry>,
    after: Seq<LeafNodeEntry>,
    key: u64,
    found: Result<usize, usize>,
    lo: int,
    hi: int,
)
    requires
        sorted_keys(before),
        within(before, lo, hi),
        match found {
            Ok(i) => i < before.len() && before[i as int].key == key && after == before.remove(
                i as int,
            ),
            Err(i) => insertion_point(before, key, i as int) && after == before,
        },
    ensures
        sorted_keys(after),
        within(after, lo, hi),
        entries_map(after) == entries_map(before).remove(key),
        after.len() == before.len() - if has_key(before, key) {
            1int
        } else {
            0int
        },
        match found {
            Ok(i) => lookup(entries_map(before), key) == Some(before[i as int].value),
            Err(i) => lookup(entries_map(before), key) == None::<u64>,
        },
{
    match found {
        Ok(i) => {
            lemma_map_remove(before, i as int);
            assert forall|j: int| 0 <= j < after.len() implies lo <= (#[trigger] after[j]).key
                < hi by {
                if j < i {
                    assert(lo <= before[j].key < hi);
                } else {
                    assert(lo <= before[j + 1].key < hi);
                }
            }
        },
        Err(i) => {
            lemma_insertion_point_absent(before, key, i as int);
            lemma_lookup_absent(before, key);
            assert(entries_map(before).remove(key) =~= entries_map(before));
        },
    }
}

/// A removal that fails on a device that may fail at will has nothing to
/// answer for.
pub proof fn lemma_failed_unreliable(
    device: Seq<u8>,
    scope: Scope,
    fso: int,
    key: u64,
    e: Error,
    after: Tree,
    after_height: nat,
)
    ensures
        cut_sound(
            false,
            device,
            scope,
            fso,
            key,
            Err::<(ObjectPointer, u64, Option<u64>), Error>(e),
            after,
            after_height,
        ),
{
    reveal(cut_sound);
}

/// A removal that fails below an internal node for want of room fails the
/// node for want of room.
pub proof fn lemma_failed_below(
    faultless: bool,
    device: Seq<u8>,
    scope: Scope,
    below: Scope,
    fso: int,
    key: u64,
    e: Error,
    rebuilt: Tree,
    rebuilt_height: nat,
)
    requires
        remove_growth(below.tree, below.height, key) <= remove_growth(
            scope.tree,
            scope.height,
            key,
        ),
        cut_sound(
            faultless,
            device,
            below,
            fso,
            key,
            Err::<(ObjectPointer, u64, Option<u64>), Error>(e),
            rebuilt,
            rebuilt_height,
        ),
    ensures
        cut_sound(
            faultless,
            device,
            scope,
            fso,
            key,
            Err::<(ObjectPointer, u64, Option<u64>), Error>(e),
            scope.tree,
            scope.height,
        ),
{
    reveal(cut_sound);
}

/// What an internal node returns once the subtrees on the way to the key
/// were rebuilt into `after`, stored on `middle` below `fso2`, and the node
/// was appended.
pub proof fn lemma_rebuilt_done(
    faultless: bool,
    middle: Seq<u8>,
    last: Seq<u8>,
    scope: Scope,
    fso: int,
    key: u64,
    after: Tree,
    fso2: u64,
    removed: Option<u64>,
    links2: Seq<InternalNodeEntry>,
    cowed: Result<ObjectPointer, Error>,
    fso3: u64,
)
    requires
        scope.height > 0,
        2 <= scope.tree.len() <= BTREE_DEGREE,
        after is Internal,
        after->Internal_entries == links2,
        holds(middle, after, fso2 as int),
        crate::tree::DATA_START <= fso2,
        fso <= fso2,
        remove_growth(scope.tree, scope.height, key) == fso2 - fso + 25 * after.len(),
        after.sound(scope.height, scope.lo, scope.hi),
        2 <= after.len() <= scope.tree.len() <= after.len() + 1,
        after.map() == scope.tree.map().remove(key),
        removed == lookup(scope.tree.map(), key),
        appended(faultless, middle, last, fso2 as int, fso3 as int, NodeView::Internal(links2), cowed),
    ensures
        cut_sound(
            faultless,
            last,
            scope,
            fso,
            key,
            match cowed {
                Ok(new_pointer) => Ok((new_pointer, fso3, removed)),
                Err(e) => Err(e),
            },
            after,
            scope.height,
        ),
        after.first_key() == links2[0].key,
{
    reveal(cut_sound);
    NodeView::Internal(links2).lemma_byte_len();
    match cowed {
        Ok(new_pointer) => {
            lemma_stored_fresh(middle, last, new_pointer, after, fso2 as int);
        },
        Err(e) => {},
    }
}

/// What [`remove_in_internal`] returns once the key was taken out of a
/// subtree with entries to spare and the node was appended.
pub proof fn lemma_remove_one_done(
    faultless: bool,
    start: Seq<u8>,
    middle: Seq<u8>,
    last: Seq<u8>,
    scope: Scope,
    limit: int,
    fso: int,
    key: u64,
    i: int,
    pointer: ObjectPointer,
    fso2: u64,
    removed: Option<u64>,
    child2: Tree,
    child_height: nat,
    link_key: u64,
    links2: Seq<InternalNodeEntry>,
    cowed: Result<ObjectPointer, Error>,
    fso3: u64,
)
    requires
        scope.tree is Internal,
        rooted(start, scope.tree.node(), scope, limit, fso),
        2 <= scope.tree.len() <= BTREE_DEGREE,
        routes_to(scope.tree->Internal_entries, key, i),
        link_key == child2.first_key(),
        same_below(start, middle, fso),
        child_scope(scope, i).tree.len() > BTREE_B,
        cut_sound(
            faultless,
            middle,
            child_scope(scope, i),
            fso,
            key,
            Ok::<(ObjectPointer, u64, Option<u64>), Error>((pointer, fso2, removed)),
            child2,
            child_height,
        ),
        links2 == scope.tree->Internal_entries.update(
            i,
            NodeEntry { key: link_key, value: pointer },
        ),
        appended(faultless, middle, last, fso2 as int, fso3 as int, NodeView::Internal(links2), cowed),
    ensures
        cut_sound(
            faultless,
            last,
            scope,
            fso,
            key,
            match cowed {
                Ok(new_pointer) => Ok((new_pointer, fso3, removed)),
                Err(e) => Err(e),
            },
            scope.tree.splice(
                i,
                i + 1,
                seq![NodeEntry { key: link_key, value: pointer }],
                seq![child2],
            ),
            scope.height,
        ),
        scope.tree.splice(
            i,
            i + 1,
            seq![NodeEntry { key: link_key, value: pointer }],
            seq![child2],
        ).first_key() == links2[0].key,
{
    reveal(cut_sound);
    let link = NodeEntry { key: link_key, value: pointer };
    let after = scope.tree.splice(i, i + 1, seq![link], seq![child2]);
    lemma_child_scope(start, scope, limit, i);
    lemma_cut_one(scope, i, key, link, child2, removed);
    lemma_patch_holds(
        start,
        middle,
        scope.tree,
        limit,
        fso,
        fso2 as int,
        i,
        i + 1,
        seq![link],
        seq![child2],
    );
    lemma_growth_one(scope, i, key);
    lemma_rebuilt_done(
        faultless,
        middle,
        last,
        scope,
        fso,
        key,
        after,
        fso2,
        removed,
        links2,
        cowed,
        fso3,
    );
}

/// A child of `node` with no entry to spare was read on the way to `key`.
#[verifier::opaque]
pub open spec fn child_read(
    device: Seq<u8>,
    node: Seq<InternalNodeEntry>,
    scope: Scope,
    limit: int,
    fso: int,
    key: u64,
    index: int,
    child: NodeView,
) -> bool {
    &&& rooted(device, NodeView::Internal(node), scope, limit, fso)
    &&& 2 <= node.len() <= BTREE_DEGREE
    &&& routes_to(node, key, index)
    &&& child == scope.tree.children()[index].node()
}

/// Folds what [`read_child`] found into [`child_read`].
pub proof fn lemma_pair_ready(
    device: Seq<u8>,
    node: Seq<InternalNodeEntry>,
    scope: Scope,
    limit: int,
    fso: int,
    key: u64,
    index: int,
    op: ObjectPointer,
    child: NodeView,
)
    requires
        rooted(device, NodeView::Internal(node), scope, limit, fso),
        2 <= node.len() <= BTREE_DEGREE,
        routes_to(node, key, index),
        rooted(device, child, child_scope(scope, index), op.offset as int, fso),
    ensures
        child_read(device, node, scope, limit, fso, key, index, child),
{
    reveal(child_read);
}

/// Two neighbouring children of `node`, the entries `a` and `a + 1`, were
/// read into memory on the way to `key`; their own subtrees lie below
/// `sub_limit`.
#[verifier::opaque]
pub open spec fn pair_read(
    device: Seq<u8>,
    node: Seq<InternalNodeEntry>,
    scope: Scope,
    limit: int,
    fso: int,
    key: u64,
    a: int,
    left: NodeView,
    right: NodeView,
    sub_limit: int,
    index: int,
) -> bool {
    &&& rooted(device, NodeView::Internal(node), scope, limit, fso)
    &&& 2 <= node.len() <= BTREE_DEGREE
    &&& routes_within(node, key, a, a + 2)
    &&& routes_to(node, key, index)
    &&& a == pair_start(index)
    &&& a <= index <= a + 1
    &&& scope.tree.children()[index].len() <= BTREE_B
    &&& left == scope.tree.children()[a].node()
    &&& right == scope.tree.children()[a + 1].node()
    &&& node[a].value.offset <= sub_limit
    &&& node[a + 1].value.offset <= sub_limit
    &&& sub_limit < limit
}

/// What is plain of two neighbouring children that were read.
pub proof fn lemma_pair_read(
    device: Seq<u8>,
    node: Seq<InternalNodeEntry>,
    scope: Scope,
    limit: int,
    fso: int,
    key: u64,
    a: int,
    left: NodeView,
    right: NodeView,
    sub_limit: int,
    index: int,
)
    requires
        pair_read(device, node, scope, limit, fso, key, a, left, right, sub_limit, index),
    ensures
        scope.tree is Internal,
        scope.tree->Internal_entries == node,
        scope.height > 0,
        2 <= node.len() <= BTREE_DEGREE,
        0 <= a,
        a + 1 < node.len(),
        left.kind() == right.kind(),
        BTREE_B <= left.len() <= BTREE_DEGREE,
        BTREE_B <= right.len() <= BTREE_DEGREE,
        left.len() == scope.tree.children()[a].len(),
        right.len() == scope.tree.children()[a + 1].len(),
        rooted(
            device,
            left.join(right),
            merged_scope(scope, a),
            sub_limit,
            fso,
        ),
        merged_scope(scope, a).tree.len() == left.len() + right.len(),
        merged_scope(scope, a).height + 1 == scope.height,
        left.len() + right.len() <= BTREE_DEGREE ==> remove_growth(
            merged_scope(scope, a).tree,
            merged_scope(scope, a).height,
            key,
        ) <= remove_growth(scope.tree, scope.height, key),
{
    reveal(pair_read);
    lemma_child_scope(device, scope, limit, a);
    lemma_child_scope(device, scope, limit, a + 1);
    lemma_merged_scope(device, scope, limit, a, sub_limit);
    if left.len() + right.len() <= BTREE_DEGREE {
        lemma_growth_merged(scope, index, key);
    }
}

/// What is known of the neighbour of a child that was read: it is stored
/// below the node, and what is stored under its pointer is its subtree.
pub proof fn lemma_neighbor(
    device: Seq<u8>,
    node: Seq<InternalNodeEntry>,
    scope: Scope,
    limit: int,
    fso: int,
    key: u64,
    index: int,
    child: NodeView,
    from_left: bool,
)
    requires
        child_read(device, node, scope, limit, fso, key, index, child),
        from_left ==> index > 0,
        !from_left ==> index + 1 < node.len(),
    ensures
        ({
            let other = if from_left {
                index - 1
            } else {
                index + 1
            };
            &&& 0 <= other < node.len()
            &&& node[other].value.offset < limit
            &&& node[index].value.offset < limit
            &&& crate::object::object_at(device, node[other].value) == Ok::<NodeView, Error>(
                scope.tree.children()[other].node(),
            )
            &&& scope.tree.children()[other].len() <= BTREE_DEGREE
        }),
        index == 0 ==> node.len() > 1,
{
    reveal(child_read);
    let other = if from_left {
        index - 1
    } else {
        index + 1
    };
    lemma_child_scope(device, scope, limit, other);
    lemma_child_scope(device, scope, limit, index);
}

/// Folds what was read of a child and its neighbour into [`pair_read`].
pub proof fn lemma_pair_intro(
    device: Seq<u8>,
    node: Seq<InternalNodeEntry>,
    scope: Scope,
    limit: int,
    fso: int,
    key: u64,
    index: int,
    child: NodeView,
    from_left: bool,
    neighbor: NodeView,
    sub_limit: int,
)
    requires
        child_read(device, node, scope, limit, fso, key, index, child),
        child.len() <= BTREE_B,
        from_left == (index > 0),
        !from_left ==> index + 1 < node.len(),
        neighbor == scope.tree.children()[if from_left {
            index - 1
        } else {
            index + 1
        }].node(),
        node[index].value.offset <= sub_limit < limit,
        node[if from_left {
            index - 1
        } else {
            index + 1
        }].value.offset <= sub_limit,
    ensures
        from_left ==> pair_read(
            device,
            node,
            scope,
            limit,
            fso,
            key,
            index - 1,
            neighbor,
            child,
            sub_limit,
            index,
        ),
        !from_left ==> pair_read(
            device,
            node,
            scope,
            limit,
            fso,
            key,
            index,
            child,
            neighbor,
            sub_limit,
            index,
        ),
{
    reveal(child_read);
    reveal(pair_read);
    let first = if from_left {
        index - 1
    } else {
        index
    };
    lemma_routes_within(node, key, index, first, first + 2);
}

/// What [`full_merge_and_remove`] returns once the key was taken out of the
/// merged subtree and the node, of more than one entry, was appended.
pub proof fn lemma_remove_merged_done(
    faultless: bool,
    start: Seq<u8>,
    middle: Seq<u8>,
    last: Seq<u8>,
    scope: Scope,
    limit: int,
    fso: int,
    key: u64,
    a: int,
    left: NodeView,
    right: NodeView,
    sub_limit: int,
    index: int,
    pointer: ObjectPointer,
    fso2: u64,
    removed: Option<u64>,
    merged2: Tree,
    merged_height: nat,
    link_key: u64,
    links2: Seq<InternalNodeEntry>,
    cowed: Result<ObjectPointer, Error>,
    fso3: u64,
)
    requires
        scope.tree is Internal,
        link_key == merged2.first_key(),
        pair_read(
            start,
            scope.tree->Internal_entries,
            scope,
            limit,
            fso,
            key,
            a,
            left,
            right,
            sub_limit,
            index,
        ),
        left.len() + right.len() <= BTREE_DEGREE,
        same_below(start, middle, fso),
        cut_sound(
            faultless,
            middle,
            merged_scope(scope, a),
            fso,
            key,
            Ok::<(ObjectPointer, u64, Option<u64>), Error>((pointer, fso2, removed)),
            merged2,
            merged_height,
        ),
        links2 == scope.tree->Internal_entries.take(a) + seq![
            NodeEntry { key: link_key, value: pointer },
        ] + scope.tree->Internal_entries.skip(a + 2),
        links2.len() > 1,
        appended(faultless, middle, last, fso2 as int, fso3 as int, NodeView::Internal(links2), cowed),
    ensures
        cut_sound(
            faultless,
            last,
            scope,
            fso,
            key,
            match cowed {
                Ok(new_pointer) => Ok((new_pointer, fso3, removed)),
                Err(e) => Err(e),
            },
            scope.tree.splice(
                a,
                a + 2,
                seq![NodeEntry { key: link_key, value: pointer }],
                seq![merged2],
            ),
            scope.height,
        ),
        scope.tree.splice(
            a,
            a + 2,
            seq![NodeEntry { key: link_key, value: pointer }],
            seq![merged2],
        ).first_key() == links2[0].key,
{
    reveal(cut_sound);
    reveal(pair_read);
    let link = NodeEntry { key: link_key, value: pointer };
    let after = scope.tree.splice(a, a + 2, seq![link], seq![merged2]);
    lemma_child_scope(start, scope, limit, a);
    lemma_child_scope(start, scope, limit, a + 1);
    lemma_merged_scope(start, scope, limit, a, sub_limit);
    lemma_cut_merged(scope, a, key, link, merged2, removed);
    lemma_patch_holds(
        start,
        middle,
        scope.tree,
        limit,
        fso,
        fso2 as int,
        a,
        a + 2,
        seq![link],
        seq![merged2],
    );
    lemma_growth_merged(scope, index, key);
    lemma_rebuilt_done(
        faultless,
        middle,
        last,
        scope,
        fso,
        key,
        after,
        fso2,
        removed,
        links2,
        cowed,
        fso3,
    );
}

/// What [`full_merge_and_remove`] returns once the key was taken out of the
/// merged subtree and the node, left with one entry, handed back the pointer
/// to that subtree.
pub proof fn lemma_remove_popped_done(
    faultless: bool,
    start: Seq<u8>,
    middle: Seq<u8>,
    scope: Scope,
    limit: int,
    fso: int,
    key: u64,
    a: int,
    left: NodeView,
    right: NodeView,
    sub_limit: int,
    index: int,
    pointer: ObjectPointer,
    fso2: u64,
    removed: Option<u64>,
    merged2: Tree,
    merged_height: nat,
)
    requires
        scope.tree is Internal,
        pair_read(
            start,
            scope.tree->Internal_entries,
            scope,
            limit,
            fso,
            key,
            a,
            left,
            right,
            sub_limit,
            index,
        ),
        scope.tree.len() == 2,
        left.len() + right.len() <= BTREE_DEGREE,
        same_below(start, middle, fso),
        cut_sound(
            faultless,
            middle,
            merged_scope(scope, a),
            fso,
            key,
            Ok::<(ObjectPointer, u64, Option<u64>), Error>((pointer, fso2, removed)),
            merged2,
            merged_height,
        ),
    ensures
        cut_sound(
            faultless,
            middle,
            scope,
            fso,
            key,
            Ok::<(ObjectPointer, u64, Option<u64>), Error>((pointer, fso2, removed)),
            merged2,
            (scope.height - 1) as nat,
        ),
{
    reveal(cut_sound);
    reveal(pair_read);
    let entries = scope.tree->Internal_entries;
    let children = scope.tree->Internal_children;
    lemma_child_scope(start, scope, limit, 0);
    lemma_child_scope(start, scope, limit, 1);
    lemma_merged_scope(start, scope, limit, 0, sub_limit);
    lemma_growth_merged(scope, index, key);
    crate::tree_proofs::lemma_sound_widen(
        merged2,
        (scope.height - 1) as nat,
        entries[0].key as int,
        scope.hi,
        scope.lo,
        scope.hi,
    );
    crate::tree_proofs::lemma_flat_internal(scope.tree);
    assert(children == seq![children[0], children[1]]);
    crate::tree_proofs::lemma_flat_of_two(children[0], children[1]);
}

/// Two neighbouring children were read of which the one on the way to the
/// key has no entry to spare and the other too many to join it.
#[verifier::opaque]
pub open spec fn shift_ready(
    device: Seq<u8>,
    node: Seq<InternalNodeEntry>,
    scope: Scope,
    limit: int,
    fso: int,
    key: u64,
    a: int,
    left: NodeView,
    right: NodeView,
    sub_limit: int,
    from_left: bool,
) -> bool {
    &&& pair_read(
        device,
        node,
        scope,
        limit,
        fso,
        key,
        a,
        left,
        right,
        sub_limit,
        if from_left {
            a + 1
        } else {
            a
        },
    )
    &&& left.len() + right.len() > BTREE_DEGREE
    &&& from_left ==> right.len() <= BTREE_B
    &&& !from_left ==> left.len() <= BTREE_B
}

/// Folds what was read of two neighbouring children into [`shift_ready`].
pub proof fn lemma_shift_intro(
    device: Seq<u8>,
    node: Seq<InternalNodeEntry>,
    scope: Scope,
    limit: int,
    fso: int,
    key: u64,
    a: int,
    left: NodeView,
    right: NodeView,
    sub_limit: int,
    from_left: bool,
)
    requires
        pair_read(
            device,
            node,
            scope,
            limit,
            fso,
            key,
            a,
            left,
            right,
            sub_limit,
            if from_left {
                a + 1
            } else {
                a
            },
        ),
        left.len() + right.len() > BTREE_DEGREE,
        from_left ==> right.len() <= BTREE_B,
        !from_left ==> left.len() <= BTREE_B,
    ensures
        shift_ready(device, node, scope, limit, fso, key, a, left, right, sub_limit, from_left),
{
    reveal(shift_ready);
}

/// What is plain once [`shift_ready`] holds: what the nodes in memory are
/// after the move, and that the subtree that received entries is rooted
/// where both subtrees were.
pub proof fn lemma_shift_ready(
    device: Seq<u8>,
    node: Seq<InternalNodeEntry>,
    scope: Scope,
    limit: int,
    fso: int,
    key: u64,
    a: int,
    left: NodeView,
    right: NodeView,
    sub_limit: int,
    from_left: bool,
)
    requires
        shift_ready(device, node, scope, limit, fso, key, a, left, right, sub_limit, from_left),
    ensures
        ({
            let child = shifted_child(scope, a, from_left);
            let neighbor = shifted_neighbor(scope, a, from_left);
            &&& scope.tree is Internal
            &&& scope.tree->Internal_entries == node
            &&& scope.height > 0
            &&& child.height + 1 == scope.height
            &&& 2 <= node.len() <= BTREE_DEGREE
            &&& 0 <= a
            &&& a + 1 < node.len()
            &&& left.kind() == right.kind()
            &&& rooted(device, child.tree.node(), child, sub_limit, fso)
            &&& 4 <= child.tree.len() <= BTREE_DEGREE - 1
            &&& BTREE_B <= neighbor.len() <= 3
            &&& from_left ==> {
                &&& neighbor.node() == left.take(left.len() - left.len() / 2)
                &&& child.tree.node() == left.skip(left.len() - left.len() / 2).join(right)
                &&& shifted(scope.tree, a, from_left).1.key(0) == child.tree.node().key(0)
            }
            &&& !from_left ==> {
                &&& child.tree.node() == left.join(right.take((right.len() / 2) as int))
                &&& neighbor.node() == right.skip((right.len() / 2) as int)
                &&& shifted(scope.tree, a, from_left).1.key(0) == neighbor.node().key(0)
            }
        }),
{
    reveal(shift_ready);
    reveal(pair_read);
    lemma_child_scope(device, scope, limit, a);
    lemma_child_scope(device, scope, limit, a + 1);
    lemma_shift_rooted(device, scope, limit, fso, a, from_left, sub_limit);
}

/// What a removal appends once [`shift_ready`] holds.
pub proof fn lemma_shift_growth(
    device: Seq<u8>,
    node: Seq<InternalNodeEntry>,
    scope: Scope,
    limit: int,
    fso: int,
    key: u64,
    a: int,
    left: NodeView,
    right: NodeView,
    sub_limit: int,
    from_left: bool,
)
    requires
        shift_ready(device, node, scope, limit, fso, key, a, left, right, sub_limit, from_left),
    ensures
        remove_growth(scope.tree, scope.height, key) == 25 * scope.tree.len() + remove_growth(
            shifted_child(scope, a, from_left).tree,
            shifted_child(scope, a, from_left).height,
            key,
        ) + shifted_neighbor(scope, a, from_left).node().byte_len(),
        shifted_neighbor(scope, a, from_left).node().byte_len() >= 0,
{
    reveal(shift_ready);
    reveal(pair_read);
    let index = if from_left {
        a + 1
    } else {
        a
    };
    lemma_child_scope(device, scope, limit, a);
    lemma_child_scope(device, scope, limit, a + 1);
    lemma_growth_shifted(scope, index, key);
}

/// A failure of the subtree that received entries means that the device is
/// out of room for what the node needs.
pub proof fn lemma_shift_child_failed(
    faultless: bool,
    start: Seq<u8>,
    middle: Seq<u8>,
    scope: Scope,
    limit: int,
    fso: int,
    key: u64,
    a: int,
    left: NodeView,
    right: NodeView,
    from_left: bool,
    sub_limit: int,
    rebuilt: Tree,
    rebuilt_height: nat,
    e: Error,
)
    requires
        shift_ready(
            start,
            scope.tree->Internal_entries,
            scope,
            limit,
            fso,
            key,
            a,
            left,
            right,
            sub_limit,
            from_left,
        ),
        cut_sound(
            faultless,
            middle,
            shifted_child(scope, a, from_left),
            fso,
            key,
            Err::<(ObjectPointer, u64, Option<u64>), Error>(e),
            rebuilt,
            rebuilt_height,
        ),
    ensures
        cut_sound(
            faultless,
            middle,
            scope,
            fso,
            key,
            Err::<(ObjectPointer, u64, Option<u64>), Error>(e),
            scope.tree,
            scope.height,
        ),
{
    lemma_shift_ready(
        start,
        scope.tree->Internal_entries,
        scope,
        limit,
        fso,
        key,
        a,
        left,
        right,
        sub_limit,
        from_left,
    );
    lemma_shift_growth(
        start,
        scope.tree->Internal_entries,
        scope,
        limit,
        fso,
        key,
        a,
        left,
        right,
        sub_limit,
        from_left,
    );
    lemma_failed_below(
        faultless,
        middle,
        scope,
        shifted_child(scope, a, from_left),
        fso,
        key,
        e,
        rebuilt,
        rebuilt_height,
    );
}

/// Where the rebuilt subtree and its neighbour stand once the neighbour was
/// appended, and how far the free-space offset has moved.
pub proof fn lemma_shift_stored(
    faultless: bool,
    start: Seq<u8>,
    rebuilt_device: Seq<u8>,
    shifted_device: Seq<u8>,
    scope: Scope,
    limit: int,
    fso: int,
    key: u64,
    a: int,
    left: NodeView,
    right: NodeView,
    from_left: bool,
    sub_limit: int,
    child: ObjectPointer,
    fso2: u64,
    removed: Option<u64>,
    rebuilt: Tree,
    rebuilt_height: nat,
    neighbor_cowed: Result<ObjectPointer, Error>,
    fso3: u64,
)
    requires
        shift_ready(
            start,
            scope.tree->Internal_entries,
            scope,
            limit,
            fso,
            key,
            a,
            left,
            right,
            sub_limit,
            from_left,
        ),
        same_below(start, rebuilt_device, fso),
        cut_sound(
            faultless,
            rebuilt_device,
            shifted_child(scope, a, from_left),
            fso,
            key,
            Ok::<(ObjectPointer, u64, Option<u64>), Error>((child, fso2, removed)),
            rebuilt,
            rebuilt_height,
        ),
        appended(
            faultless,
            rebuilt_device,
            shifted_device,
            fso2 as int,
            fso3 as int,
            shifted_neighbor(scope, a, from_left).node(),
            neighbor_cowed,
        ),
    ensures
        match neighbor_cowed {
            Ok(neighbor) => {
                &&& stored(shifted_device, child, rebuilt)
                &&& stored(shifted_device, neighbor, shifted_neighbor(scope, a, from_left))
                &&& child.end() <= fso3
                &&& neighbor.end() <= fso3
                &&& fso <= fso3
                &&& remove_growth(scope.tree, scope.height, key) == fso3 - fso + 25
                    * scope.tree.len()
                &&& crate::tree::DATA_START <= fso3
                &&& same_below(start, shifted_device, fso)
                &&& rebuilt.sound(
                    shifted_child(scope, a, from_left).height,
                    shifted_child(scope, a, from_left).lo,
                    shifted_child(scope, a, from_left).hi,
                )
                &&& shifted_child(scope, a, from_left).tree.len() <= rebuilt.len() + 1
                &&& rebuilt.len() <= shifted_child(scope, a, from_left).tree.len()
                &&& rebuilt.map() == shifted_child(scope, a, from_left).tree.map().remove(key)
                &&& removed == lookup(shifted_child(scope, a, from_left).tree.map(), key)
            },
            Err(e) => cut_sound(
                faultless,
                shifted_device,
                scope,
                fso,
                key,
                Err::<(ObjectPointer, u64, Option<u64>), Error>(e),
                scope.tree,
                scope.height,
            ),
        },
{
    reveal(cut_sound);
    let neighbor_tree = shifted_neighbor(scope, a, from_left);
    let below = shifted_child(scope, a, from_left);
    lemma_shift_ready(
        start,
        scope.tree->Internal_entries,
        scope,
        limit,
        fso,
        key,
        a,
        left,
        right,
        sub_limit,
        from_left,
    );
    assert(holds(start, neighbor_tree, sub_limit) && sub_limit <= fso) by {
        reveal(shift_ready);
        reveal(pair_read);
        lemma_shifted(start, scope, limit, a, from_left, sub_limit);
    }
    lemma_shift_growth(
        start,
        scope.tree->Internal_entries,
        scope,
        limit,
        fso,
        key,
        a,
        left,
        right,
        sub_limit,
        from_left,
    );
    neighbor_tree.node().lemma_byte_len();
    assert(rebuilt_height == below.height);
    assert(neighbor_tree.sound(below.height, neighbor_sound_lo(scope, a, from_left), neighbor_sound_hi(scope, a, from_left))) by {
        reveal(shift_ready);
        reveal(pair_read);
        lemma_shifted(start, scope, limit, a, from_left, sub_limit);
    }
    assert(neighbor_tree.node().byte_len() == node_bytes(below.height, neighbor_tree.len() as int));
    match neighbor_cowed {
        Ok(neighbor) => {
            lemma_holds_frame(start, rebuilt_device, neighbor_tree, sub_limit, fso);
            lemma_stored_fresh(rebuilt_device, shifted_device, neighbor, neighbor_tree, sub_limit);
            lemma_stored_frame(rebuilt_device, shifted_device, child, rebuilt, fso2 as int);
            lemma_same_below_chain(start, rebuilt_device, shifted_device, fso, fso2 as int);
        },
        Err(e) => {},
    }
}

/// The bounds between which the subtree that gave entries away is sound.
pub open spec fn neighbor_sound_lo(scope: Scope, a: int, from_left: bool) -> int {
    if from_left {
        scope.tree.key(a) as int
    } else {
        shifted(scope.tree, a, from_left).1.key(0) as int
    }
}

/// The bounds between which the subtree that gave entries away is sound.
pub open spec fn neighbor_sound_hi(scope: Scope, a: int, from_left: bool) -> int {
    if from_left {
        shifted(scope.tree, a, from_left).1.key(0) as int
    } else {
        upper(scope.tree->Internal_entries, a + 1, scope.hi)
    }
}

/// What holds of the node once both subtrees stand rebuilt on the device
/// and their entries were replaced.
pub proof fn lemma_shift_block(
    start: Seq<u8>,
    shifted_device: Seq<u8>,
    scope: Scope,
    limit: int,
    fso: int,
    key: u64,
    a: int,
    left: NodeView,
    right: NodeView,
    from_left: bool,
    sub_limit: int,
    child_key: u64,
    child: ObjectPointer,
    neighbor: ObjectPointer,
    removed: Option<u64>,
    rebuilt: Tree,
    fso3: u64,
)
    requires
        child_key == rebuilt.first_key(),
        shift_ready(
            start,
            scope.tree->Internal_entries,
            scope,
            limit,
            fso,
            key,
            a,
            left,
            right,
            sub_limit,
            from_left,
        ),
        stored(shifted_device, child, rebuilt),
        stored(shifted_device, neighbor, shifted_neighbor(scope, a, from_left)),
        child.end() <= fso3,
        neighbor.end() <= fso3,
        fso <= fso3,
        same_below(start, shifted_device, fso),
        rebuilt.sound(
            shifted_child(scope, a, from_left).height,
            shifted_child(scope, a, from_left).lo,
            shifted_child(scope, a, from_left).hi,
        ),
        shifted_child(scope, a, from_left).tree.len() <= rebuilt.len() + 1,
        rebuilt.len() <= shifted_child(scope, a, from_left).tree.len(),
        rebuilt.map() == shifted_child(scope, a, from_left).tree.map().remove(key),
        removed == lookup(shifted_child(scope, a, from_left).tree.map(), key),
    ensures
        ({
            let pair = shifted_pair(scope, a, from_left, rebuilt);
            let links = shifted_links(scope, a, from_left, child_key, child, neighbor);
            let after = scope.tree.splice(a, a + 2, links, seq![pair.0, pair.1]);
            &&& after.sound(scope.height, scope.lo, scope.hi)
            &&& after.len() == scope.tree.len()
            &&& after.map() == scope.tree.map().remove(key)
            &&& removed == lookup(scope.tree.map(), key)
            &&& holds(shifted_device, after, fso3 as int)
        }),
        rebuilt.len() > 0,
{
    let pair = shifted_pair(scope, a, from_left, rebuilt);
    let links = shifted_links(scope, a, from_left, child_key, child, neighbor);
    reveal(shift_ready);
    reveal(pair_read);
    lemma_shifted(start, scope, limit, a, from_left, sub_limit);
    lemma_cut_shifted(
        start,
        scope,
        limit,
        a,
        from_left,
        sub_limit,
        key,
        child,
        neighbor,
        rebuilt,
        removed,
    );
    assert(holds(
        shifted_device,
        Tree::Internal { entries: links, children: seq![pair.0, pair.1] },
        fso3 as int,
    )) by {
        let kids = seq![pair.0, pair.1];
        assert forall|i: int| 0 <= i < kids.len() implies crate::tree::holds_child(
            shifted_device,
            links[i],
            #[trigger] kids[i],
            fso3 as int,
        ) by {}
    }
    lemma_patch_holds(
        start,
        shifted_device,
        scope.tree,
        limit,
        fso,
        fso3 as int,
        a,
        a + 2,
        links,
        seq![pair.0, pair.1],
    );
}

/// The entries of a node after two neighbouring entries were replaced.
pub proof fn lemma_two_replaced(
    links: Seq<InternalNodeEntry>,
    a: int,
    left: InternalNodeEntry,
    right: InternalNodeEntry,
)
    requires
        0 <= a,
        a + 1 < links.len(),
    ensures
        links.update(a, left).update(a + 1, right) == links.take(a) + seq![left, right]
            + links.skip(a + 2),
{
}

/// The most bytes that a removal from a tree of `height` appends.
pub open spec fn remove_room(height: nat) -> int {
    200 * (height as int) + 80
}

/// The number of bytes that a removal of `key` from the tree under `root`
/// appends: nothing when the key is below the first key of the root, else
/// what it appends for the tree.
pub open spec fn btree_remove_growth(device: Seq<u8>, root: ObjectPointer, key: u64) -> int {
    let tree = btree_of(device, root);
    if below_all(device, root, key) {
        0
    } else {
        remove_growth(tree, tree.height(), key)
    }
}

/// `key` is below the first key of the root of the tree under `root`, and so
/// below every key of the tree.
pub open spec fn below_all(device: Seq<u8>, root: ObjectPointer, key: u64) -> bool {
    btree_of(device, root).len() > 0 && key < btree_of(device, root).key(0)
}

/// The outcome of [`remove`] on a sound B-tree: a sound B-tree under the new
/// root that holds what the old one held without the key, or no room on the
/// device.
///
/// The new tree is the one that [`Tree::cut_root`] names, node for node and
/// pointer for pointer. Its root is the last node written, right before the
/// new free-space offset, and no byte from that offset on has changed. A key
/// below the first key of the root leaves the device as it was.
pub open spec fn removed(
    before: Seq<u8>,
    faultless: bool,
    root: ObjectPointer,
    fso: u64,
    key: u64,
    after: Seq<u8>,
    r: Result<(ObjectPointer, u64, Option<u64>), Error>,
) -> bool {
    match r {
        Ok((root2, fso2, value)) => {
            &&& is_btree(after, root2, fso2 as int)
            &&& btree_map(after, root2) == btree_map(before, root).remove(key)
            &&& value == lookup(btree_map(before, root), key)
            &&& fso2 == fso + btree_remove_growth(before, root, key)
            &&& below_all(before, root, key) ==> root2 == root && after == before
            &&& !below_all(before, root, key) ==> {
                &&& fso <= root2.offset
                &&& root2.end() == fso2
                &&& root2 == pointer_of(btree_of(after, root2), fso2 as int)
            }
            &&& btree_height(after, root2) <= btree_height(before, root) <= btree_height(
                after,
                root2,
            ) + 1
            &&& btree_height(after, root2) < btree_height(before, root) ==> btree_of(
                before,
                root,
            ).len() == 2
            &&& same_from(before, after, fso2 as int)
            &&& btree_of(before, root).exact() ==> btree_of(after, root2).exact()
            &&& (btree_of(after, root2), btree_height(after, root2)) == btree_of(
                before,
                root,
            ).cut_root(btree_height(before, root), key, fso as int)
        },
        Err(e) => out_of_room(
            faultless,
            before.len(),
            fso as int,
            btree_remove_growth(before, root, key),
            e,
        ),
    }
}

/// A key below the first key of a sound tree is not in the tree.
pub proof fn lemma_below_first(tree: Tree, height: nat, key: u64)
    requires
        tree.sound(height, 0, u64::MAX + 1),
        tree.len() > 0,
        key < tree.key(0),
    ensures
        lookup(tree.map(), key) == None::<u64>,
        tree.map().remove(key) == tree.map(),
{
    crate::tree_proofs::lemma_sound_tighten(tree, height, 0, u64::MAX + 1);
    lemma_flat_sound(tree, height, tree.key(0) as int, u64::MAX + 1);
    let flat = tree.flat();
    if crate::node::has_key(flat, key) {
        let i = choose|i: int| 0 <= i < flat.len() && #[trigger] flat[i].key == key;
        assert(tree.key(0) <= flat[i].key);
    }
    assert(tree.map().remove(key) =~= tree.map());
}

/// What [`remove`] returns for what [`remove_in_node`] returned at the root.
pub proof fn lemma_removed(
    faultless: bool,
    before: Seq<u8>,
    after: Seq<u8>,
    root: ObjectPointer,
    fso: u64,
    key: u64,
    scope: Scope,
    r: Result<(ObjectPointer, u64, Option<u64>), Error>,
    rebuilt: Tree,
    rebuilt_height: nat,
    first: u64,
)
    requires
        btree_at(before, root, scope.tree, scope.height),
        scope.tree == btree_of(before, root),
        scope.height == scope.tree.height(),
        scope.lo == 0,
        scope.hi == u64::MAX + 1,
        after.len() == before.len(),
        root.end() <= fso,
        !below_all(before, root, key),
        r is Ok ==> same_from(before, after, r->Ok_0.1 as int),
        cut_done(faultless, after, scope, fso as int, key, r, rebuilt, rebuilt_height, first),
    ensures
        removed(before, faultless, root, fso, key, after, r),
{
    reveal(cut_sound);
    reveal(cut_at);
    match r {
        Ok((root2, fso2, value)) => {
            lemma_btree_of(after, root2, rebuilt);
            lemma_sound_height(rebuilt, rebuilt_height, 0, u64::MAX + 1);
            assert(btree_at(after, root2, rebuilt, rebuilt_height));
            if scope.tree.exact() {
                lemma_cut_keeps_exact(
                    scope.tree,
                    scope.height,
                    0,
                    u64::MAX + 1,
                    key,
                    fso as int,
                );
            }
        },
        Err(e) => {},
    }
}

} // verus!
