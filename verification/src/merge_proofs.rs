//! What becomes of two neighbouring subtrees that are joined, or between
//! which entries are moved, and of the node above them.

use vstd::prelude::*;
use crate::tree::route;
use crate::tree_edit::lemma_route_unique;
use crate::descent::{lemma_child_scope, rooted, Scope};
use crate::node::{
    BTREE_B, BTREE_DEGREE, has_key, InternalNodeEntry, LeafNodeEntry, NodeEntry, sorted_keys,
};
use crate::object_pointer::ObjectPointer;
use crate::remove_proofs::removed;
use crate::sorted::{lemma_cut_segment, lemma_sorted_concat};
use crate::storage_proofs::lemma_holds_raise;
use crate::tree::{entries_map, holds, lookup, routes_to, Tree, upper};
use crate::tree_edit::{
    block_lo, lemma_cut_holds, lemma_cut_sound, lemma_join_holds, lemma_join_sound,
    lemma_splice_cut, sound_block,
};
use crate::tree_proofs::{
    lemma_flat_of_one, lemma_flat_of_two, lemma_flat_sound, lemma_sound_tighten,
    lemma_sound_widen, segment_lo,
};

verus! {

/// A key that routes to entry `i` routes between the entries `a..b` around
/// it.
pub open spec fn routes_within<V>(entries: Seq<NodeEntry<V>>, key: u64, a: int, b: int) -> bool {
    &&& 0 <= a < b <= entries.len()
    &&& a > 0 ==> entries[a].key <= key
    &&& b < entries.len() ==> key < entries[b].key
}

/// A key routes around the entry it routes to and a neighbour of that entry.
pub proof fn lemma_routes_within<V>(entries: Seq<NodeEntry<V>>, key: u64, i: int, a: int, b: int)
    requires
        sorted_keys(entries),
        routes_to(entries, key, i),
        0 <= a <= i < b <= entries.len(),
    ensures
        routes_within(entries, key, a, b),
{
    if a > 0 && a < i {
        assert(entries[a].key < entries[i].key);
    }
    if b < entries.len() && b > i + 1 {
        assert(entries[i + 1].key < entries[b].key);
    }
}

/// What holds of an internal node once the key was taken out of the subtree
/// to which it routes and the pointer of that subtree was replaced.
pub proof fn lemma_cut_one(
    scope: Scope,
    i: int,
    key: u64,
    link: InternalNodeEntry,
    child2: Tree,
    removed: Option<u64>,
)
    requires
        scope.tree is Internal,
        scope.tree.sound(scope.height, scope.lo, scope.hi),
        routes_to(scope.tree->Internal_entries, key, i),
        child2.sound(
            (scope.height - 1) as nat,
            scope.tree.key(i) as int,
            upper(scope.tree->Internal_entries, i, scope.hi),
        ),
        BTREE_B <= child2.len() <= BTREE_DEGREE,
        link.key == child2.key(0),
        child2.map() == scope.tree.children()[i].map().remove(key),
        removed == lookup(scope.tree.children()[i].map(), key),
    ensures
        scope.tree.splice(i, i + 1, seq![link], seq![child2]).sound(
            scope.height,
            scope.lo,
            scope.hi,
        ),
        scope.tree.splice(i, i + 1, seq![link], seq![child2]).len() == scope.tree.len(),
        scope.tree.splice(i, i + 1, seq![link], seq![child2]).map() == scope.tree.map().remove(
            key,
        ),
        removed == lookup(scope.tree.map(), key),
        scope.tree->Internal_entries.update(i, link) == scope.tree->Internal_entries.take(i)
            + seq![link] + scope.tree->Internal_entries.skip(i + 1),
{
    let tree = scope.tree;
    let entries = tree->Internal_entries;
    let children = tree->Internal_children;
    let height = scope.height;
    let blk_lo = block_lo(tree, i, scope.lo);
    let blk_hi = segment_lo(entries, i + 1, scope.hi);
    assert(scope.lo <= entries[i].key < scope.hi);
    assert(blk_hi == upper(entries, i, scope.hi));
    assert(entries[i].key < blk_hi) by {
        if i + 1 < entries.len() {
            assert(entries[i].key < entries[i + 1].key);
        }
    }
    let links = seq![link];
    let kids = seq![child2];
    lemma_sound_tighten(child2, (height - 1) as nat, entries[i].key as int, blk_hi);
    assert(sound_block(links, kids, height, blk_lo, blk_hi)) by {
        assert(upper(links, 0, blk_hi) == blk_hi);
        assert forall|j: int| 0 <= j < kids.len() implies {
            &&& (#[trigger] kids[j]).sound(
                (height - 1) as nat,
                links[j].key as int,
                upper(links, j, blk_hi),
            )
            &&& BTREE_B <= kids[j].len() <= BTREE_DEGREE
        } by {}
    }
    assert(children.subrange(i, i + 1) == seq![children[i]]);
    lemma_flat_of_one(children[i]);
    lemma_flat_of_one(child2);
    lemma_splice_cut(tree, height, scope.lo, scope.hi, i, i + 1, links, kids, key);
    assert(entries.update(i, link) == entries.take(i) + seq![link] + entries.skip(i + 1));
}

/// The subtrees under the entries `a` and `a + 1`, joined into one.
pub open spec fn merged_scope(scope: Scope, a: int) -> Scope {
    Scope {
        tree: scope.tree.children()[a].join(scope.tree.children()[a + 1]),
        height: (scope.height - 1) as nat,
        lo: scope.tree.key(a) as int,
        hi: upper(scope.tree->Internal_entries, a + 1, scope.hi),
    }
}

/// Two neighbouring subtrees of a rooted internal node, joined, are a sound
/// subtree whose own subtrees are stored below both.
pub proof fn lemma_merged_scope(device: Seq<u8>, scope: Scope, limit: int, a: int, sub_limit: int)
    requires
        scope.tree is Internal,
        holds(device, scope.tree, limit),
        scope.tree.sound(scope.height, scope.lo, scope.hi),
        0 <= a,
        a + 1 < scope.tree.len(),
        scope.tree->Internal_entries[a].value.offset <= sub_limit,
        scope.tree->Internal_entries[a + 1].value.offset <= sub_limit,
    ensures
        merged_scope(scope, a).tree.sound(
            merged_scope(scope, a).height,
            merged_scope(scope, a).lo,
            merged_scope(scope, a).hi,
        ),
        holds(device, merged_scope(scope, a).tree, sub_limit),
        merged_scope(scope, a).tree.node() == scope.tree.children()[a].node().join(
            scope.tree.children()[a + 1].node(),
        ),
        scope.tree.children()[a].node().kind() == scope.tree.children()[a + 1].node().kind(),
        merged_scope(scope, a).tree.len() == scope.tree.children()[a].len()
            + scope.tree.children()[a + 1].len(),
        merged_scope(scope, a).tree.flat() == scope.tree.children()[a].flat()
            + scope.tree.children()[a + 1].flat(),
{
    let entries = scope.tree->Internal_entries;
    let left = scope.tree.children()[a];
    let right = scope.tree.children()[a + 1];
    lemma_child_scope(device, scope, limit, a);
    lemma_child_scope(device, scope, limit, a + 1);
    assert(upper(entries, a, scope.hi) == entries[a + 1].key);
    lemma_join_sound(
        left,
        right,
        (scope.height - 1) as nat,
        entries[a].key as int,
        entries[a + 1].key as int,
        upper(entries, a + 1, scope.hi),
    );
    lemma_holds_raise(device, left, entries[a].value.offset as int, sub_limit);
    lemma_holds_raise(device, right, entries[a + 1].value.offset as int, sub_limit);
    lemma_join_holds(device, left, right, sub_limit);
}

/// What holds of an internal node once two neighbouring subtrees were joined,
/// the key was taken out of the joined subtree, and the two entries were
/// replaced by one.
pub proof fn lemma_cut_merged(
    scope: Scope,
    a: int,
    key: u64,
    link: InternalNodeEntry,
    merged2: Tree,
    removed: Option<u64>,
)
    requires
        scope.tree is Internal,
        scope.tree.sound(scope.height, scope.lo, scope.hi),
        routes_within(scope.tree->Internal_entries, key, a, a + 2),
        merged2.sound(
            (scope.height - 1) as nat,
            scope.tree.key(a) as int,
            upper(scope.tree->Internal_entries, a + 1, scope.hi),
        ),
        BTREE_B <= merged2.len() <= BTREE_DEGREE,
        link.key == merged2.key(0),
        merged2.map() == merged_scope(scope, a).tree.map().remove(key),
        removed == lookup(merged_scope(scope, a).tree.map(), key),
        merged_scope(scope, a).tree.flat() == scope.tree.children()[a].flat()
            + scope.tree.children()[a + 1].flat(),
    ensures
        scope.tree.splice(a, a + 2, seq![link], seq![merged2]).sound(
            scope.height,
            scope.lo,
            scope.hi,
        ),
        scope.tree.splice(a, a + 2, seq![link], seq![merged2]).len() == scope.tree.len() - 1,
        scope.tree.splice(a, a + 2, seq![link], seq![merged2]).map() == scope.tree.map().remove(
            key,
        ),
        removed == lookup(scope.tree.map(), key),
{
    let tree = scope.tree;
    let entries = tree->Internal_entries;
    let children = tree->Internal_children;
    let height = scope.height;
    let blk_lo = block_lo(tree, a, scope.lo);
    let blk_hi = segment_lo(entries, a + 2, scope.hi);
    assert(scope.lo <= entries[a].key < scope.hi);
    assert(blk_hi == upper(entries, a + 1, scope.hi));
    assert(entries[a].key < entries[a + 1].key);
    assert(entries[a + 1].key < blk_hi) by {
        assert(scope.lo <= entries[a + 1].key < scope.hi);
        if a + 2 < entries.len() {
            assert(entries[a + 1].key < entries[a + 2].key);
        }
    }
    let links = seq![link];
    let kids = seq![merged2];
    lemma_sound_tighten(merged2, (height - 1) as nat, entries[a].key as int, blk_hi);
    assert(sound_block(links, kids, height, blk_lo, blk_hi)) by {
        assert(upper(links, 0, blk_hi) == blk_hi);
        assert forall|j: int| 0 <= j < kids.len() implies {
            &&& (#[trigger] kids[j]).sound(
                (height - 1) as nat,
                links[j].key as int,
                upper(links, j, blk_hi),
            )
            &&& BTREE_B <= kids[j].len() <= BTREE_DEGREE
        } by {}
    }
    assert(children.subrange(a, a + 2) == seq![children[a], children[a + 1]]);
    lemma_flat_of_two(children[a], children[a + 1]);
    lemma_flat_of_one(merged2);
    lemma_splice_cut(tree, height, scope.lo, scope.hi, a, a + 2, links, kids, key);
}

/// What holds of an internal node once two neighbouring subtrees were
/// rebuilt as `left` and `right`, which together hold what the two held
/// without the key, and their entries were replaced.
pub proof fn lemma_cut_two(
    scope: Scope,
    a: int,
    key: u64,
    left_link: InternalNodeEntry,
    right_link: InternalNodeEntry,
    left: Tree,
    right: Tree,
    removed: Option<u64>,
)
    requires
        scope.tree is Internal,
        scope.tree.sound(scope.height, scope.lo, scope.hi),
        routes_within(scope.tree->Internal_entries, key, a, a + 2),
        left.sound((scope.height - 1) as nat, left_link.key as int, right_link.key as int),
        right.sound(
            (scope.height - 1) as nat,
            right_link.key as int,
            upper(scope.tree->Internal_entries, a + 1, scope.hi),
        ),
        BTREE_B <= left.len() <= BTREE_DEGREE,
        BTREE_B <= right.len() <= BTREE_DEGREE,
        scope.tree.key(a) <= left_link.key < right_link.key,
        right_link.key < upper(scope.tree->Internal_entries, a + 1, scope.hi),
        entries_map(left.flat() + right.flat()) == entries_map(
            scope.tree.children()[a].flat() + scope.tree.children()[a + 1].flat(),
        ).remove(key),
        removed == lookup(
            entries_map(scope.tree.children()[a].flat() + scope.tree.children()[a + 1].flat()),
            key,
        ),
    ensures
        scope.tree.splice(a, a + 2, seq![left_link, right_link], seq![left, right]).sound(
            scope.height,
            scope.lo,
            scope.hi,
        ),
        scope.tree.splice(a, a + 2, seq![left_link, right_link], seq![left, right]).len()
            == scope.tree.len(),
        scope.tree.splice(a, a + 2, seq![left_link, right_link], seq![left, right]).map()
            == scope.tree.map().remove(key),
        removed == lookup(scope.tree.map(), key),
{
    let tree = scope.tree;
    let entries = tree->Internal_entries;
    let children = tree->Internal_children;
    let height = scope.height;
    let blk_lo = block_lo(tree, a, scope.lo);
    let blk_hi = segment_lo(entries, a + 2, scope.hi);
    assert(scope.lo <= entries[a].key < scope.hi);
    assert(blk_hi == upper(entries, a + 1, scope.hi));
    let links = seq![left_link, right_link];
    let kids = seq![left, right];
    assert(sound_block(links, kids, height, blk_lo, blk_hi)) by {
        assert(upper(links, 0, blk_hi) == right_link.key);
        assert(upper(links, 1, blk_hi) == blk_hi);
        assert forall|j: int| 0 <= j < kids.len() implies {
            &&& (#[trigger] kids[j]).sound(
                (height - 1) as nat,
                links[j].key as int,
                upper(links, j, blk_hi),
            )
            &&& BTREE_B <= kids[j].len() <= BTREE_DEGREE
        } by {}
    }
    assert(children.subrange(a, a + 2) == seq![children[a], children[a + 1]]);
    lemma_flat_of_two(children[a], children[a + 1]);
    lemma_flat_of_two(left, right);
    lemma_splice_cut(tree, height, scope.lo, scope.hi, a, a + 2, links, kids, key);
}

/// The subtrees under the entries `a` and `a + 1` after half of the entries
/// of one were moved to the other: the tail of the left one to the front of
/// the right one when `from_left`, else the head of the right one to the end
/// of the left one.
#[verifier::opaque]
pub open spec fn shifted(tree: Tree, a: int, from_left: bool) -> (Tree, Tree) {
    let left = tree.children()[a];
    let right = tree.children()[a + 1];
    if from_left {
        let keep = left.len() - left.len() / 2;
        (left.take(keep), left.skip(keep).join(right))
    } else {
        let moved = (right.len() / 2) as int;
        (left.join(right.take(moved)), right.skip(moved))
    }
}

/// What is known of two neighbouring subtrees of a rooted internal node after
/// entries were moved from the fuller one to the other.
pub proof fn lemma_shifted(
    device: Seq<u8>,
    scope: Scope,
    limit: int,
    a: int,
    from_left: bool,
    sub_limit: int,
)
    requires
        scope.tree is Internal,
        holds(device, scope.tree, limit),
        scope.tree.sound(scope.height, scope.lo, scope.hi),
        0 <= a,
        a + 1 < scope.tree.len(),
        scope.tree->Internal_entries[a].value.offset <= sub_limit,
        scope.tree->Internal_entries[a + 1].value.offset <= sub_limit,
        scope.tree.children()[a].len() + scope.tree.children()[a + 1].len() > BTREE_DEGREE,
        from_left ==> scope.tree.children()[a + 1].len() <= BTREE_B,
        !from_left ==> scope.tree.children()[a].len() <= BTREE_B,
    ensures
        ({
            let left = scope.tree.children()[a];
            let right = scope.tree.children()[a + 1];
            let (left2, right2) = shifted(scope.tree, a, from_left);
            let mid = right2.key(0);
            let height = (scope.height - 1) as nat;
            &&& left2.sound(height, scope.tree.key(a) as int, mid as int)
            &&& right2.sound(height, mid as int, upper(scope.tree->Internal_entries, a + 1, scope.hi))
            &&& scope.tree.key(a) < mid < upper(scope.tree->Internal_entries, a + 1, scope.hi)
            &&& left2.flat() + right2.flat() == left.flat() + right.flat()
            &&& holds(device, left2, sub_limit)
            &&& holds(device, right2, sub_limit)
            &&& left.node().kind() == right.node().kind()
            &&& from_left ==> {
                &&& left2.node() == left.node().take(left.len() - left.len() / 2)
                &&& right2.node() == left.node().skip(left.len() - left.len() / 2).join(right.node())
                &&& BTREE_B <= left2.len() <= 3
                &&& 4 <= right2.len() <= BTREE_DEGREE - 1
                &&& mid <= scope.tree.key(a + 1)
            }
            &&& !from_left ==> {
                &&& left2.node() == left.node().join(right.node().take((right.len() / 2) as int))
                &&& right2.node() == right.node().skip((right.len() / 2) as int)
                &&& 4 <= left2.len() <= BTREE_DEGREE - 1
                &&& BTREE_B <= right2.len() <= 3
                &&& scope.tree.key(a + 1) <= mid
            }
        }),
{
    reveal(shifted);
    let entries = scope.tree->Internal_entries;
    let left = scope.tree.children()[a];
    let right = scope.tree.children()[a + 1];
    let height = (scope.height - 1) as nat;
    let lo = entries[a].key as int;
    let border = entries[a + 1].key as int;
    let hi = upper(entries, a + 1, scope.hi);
    lemma_child_scope(device, scope, limit, a);
    lemma_child_scope(device, scope, limit, a + 1);
    assert(upper(entries, a, scope.hi) == border);
    lemma_holds_raise(device, left, entries[a].value.offset as int, sub_limit);
    lemma_holds_raise(device, right, entries[a + 1].value.offset as int, sub_limit);
    lemma_join_sound(left, right, height, lo, border, hi);
    if from_left {
        let keep = left.len() - left.len() / 2;
        let mid = left.key(keep) as int;
        lemma_cut_sound(left, height, lo, border, keep);
        lemma_cut_holds(device, left, sub_limit, keep);
        lemma_sound_tighten(left.skip(keep), height, mid, border);
        lemma_join_sound(left.skip(keep), right, height, mid, border, hi);
        lemma_join_holds(device, left.skip(keep), right, sub_limit);
        lemma_sound_tighten(left.take(keep), height, lo, mid);
        assert(left.skip(keep).key(0) == left.key(keep));
        assert(left.skip(keep).join(right).key(0) == left.key(keep));
        assert(left.take(keep).flat() + (left.skip(keep).flat() + right.flat()) == left.flat()
            + right.flat());
    } else {
        let moved = (right.len() / 2) as int;
        let mid = right.key(moved) as int;
        lemma_cut_sound(right, height, border, hi, moved);
        lemma_cut_holds(device, right, sub_limit, moved);
        lemma_join_sound(left, right.take(moved), height, lo, border, mid);
        lemma_join_holds(device, left, right.take(moved), sub_limit);
        lemma_sound_tighten(right.skip(moved), height, mid, hi);
        lemma_sound_tighten(right, height, border, hi);
        assert(right.skip(moved).key(0) == right.key(moved));
        assert(left.flat() + right.take(moved).flat() + right.skip(moved).flat() == left.flat()
            + (right.take(moved).flat() + right.skip(moved).flat()));
    }
}

/// Of the two subtrees after the move, the one that received entries, with
/// what is known of it.
pub open spec fn shifted_child(scope: Scope, a: int, from_left: bool) -> Scope {
    let (left2, right2) = shifted(scope.tree, a, from_left);
    if from_left {
        Scope {
            tree: right2,
            height: (scope.height - 1) as nat,
            lo: right2.key(0) as int,
            hi: upper(scope.tree->Internal_entries, a + 1, scope.hi),
        }
    } else {
        Scope {
            tree: left2,
            height: (scope.height - 1) as nat,
            lo: scope.tree.key(a) as int,
            hi: right2.key(0) as int,
        }
    }
}

/// Of the two subtrees after the move, the one that gave entries away.
pub open spec fn shifted_neighbor(scope: Scope, a: int, from_left: bool) -> Tree {
    if from_left {
        shifted(scope.tree, a, from_left).0
    } else {
        shifted(scope.tree, a, from_left).1
    }
}

/// The two subtrees after the move, in order, once the one that received
/// entries was rebuilt as `rebuilt`.
pub open spec fn shifted_pair(scope: Scope, a: int, from_left: bool, rebuilt: Tree) -> (Tree, Tree) {
    if from_left {
        (shifted(scope.tree, a, from_left).0, rebuilt)
    } else {
        (rebuilt, shifted(scope.tree, a, from_left).1)
    }
}

/// The entries of the two subtrees after the move. The subtree that
/// received entries and was rebuilt has `child_key`, its first key, for its
/// key. The other one keeps its key when it is the first of the two, and has
/// the first key that was left to it when it is the second.
pub open spec fn shifted_links(
    scope: Scope,
    a: int,
    from_left: bool,
    child_key: u64,
    child: ObjectPointer,
    neighbor: ObjectPointer,
) -> Seq<InternalNodeEntry> {
    let right_key = shifted(scope.tree, a, from_left).1.key(0);
    if from_left {
        seq![
            NodeEntry { key: scope.tree.key(a), value: neighbor },
            NodeEntry { key: child_key, value: child },
        ]
    } else {
        seq![
            NodeEntry { key: child_key, value: child },
            NodeEntry { key: right_key, value: neighbor },
        ]
    }
}

/// What holds of an internal node once entries were moved between two
/// neighbouring subtrees, the key was taken out of the one that received
/// them, and both entries were replaced.
pub proof fn lemma_cut_shifted(
    device: Seq<u8>,
    scope: Scope,
    limit: int,
    a: int,
    from_left: bool,
    sub_limit: int,
    key: u64,
    child: ObjectPointer,
    neighbor: ObjectPointer,
    rebuilt: Tree,
    removed: Option<u64>,
)
    requires
        scope.tree is Internal,
        holds(device, scope.tree, limit),
        scope.tree.sound(scope.height, scope.lo, scope.hi),
        0 <= a,
        a + 1 < scope.tree.len(),
        scope.tree->Internal_entries[a].value.offset <= sub_limit,
        scope.tree->Internal_entries[a + 1].value.offset <= sub_limit,
        scope.tree.children()[a].len() + scope.tree.children()[a + 1].len() > BTREE_DEGREE,
        from_left ==> scope.tree.children()[a + 1].len() <= BTREE_B && routes_to(
            scope.tree->Internal_entries,
            key,
            a + 1,
        ),
        !from_left ==> scope.tree.children()[a].len() <= BTREE_B && routes_to(
            scope.tree->Internal_entries,
            key,
            a,
        ),
        rebuilt.sound(
            shifted_child(scope, a, from_left).height,
            shifted_child(scope, a, from_left).lo,
            shifted_child(scope, a, from_left).hi,
        ),
        shifted_child(scope, a, from_left).tree.len() <= rebuilt.len() + 1,
        rebuilt.len() <= shifted_child(scope, a, from_left).tree.len(),
        rebuilt.map() == shifted_child(scope, a, from_left).tree.map().remove(key),
        removed == lookup(shifted_child(scope, a, from_left).tree.map(), key),
    ensures
        ({
            let pair = shifted_pair(scope, a, from_left, rebuilt);
            let links = shifted_links(scope, a, from_left, rebuilt.key(0), child, neighbor);
            let after = scope.tree.splice(a, a + 2, links, seq![pair.0, pair.1]);
            &&& after.sound(scope.height, scope.lo, scope.hi)
            &&& after.len() == scope.tree.len()
            &&& after.map() == scope.tree.map().remove(key)
            &&& removed == lookup(scope.tree.map(), key)
        }),
{
    let entries = scope.tree->Internal_entries;
    let left = scope.tree.children()[a];
    let right = scope.tree.children()[a + 1];
    let (left2, right2) = shifted(scope.tree, a, from_left);
    let mid = right2.key(0);
    let height = (scope.height - 1) as nat;
    let lo = entries[a].key as int;
    let hi = upper(entries, a + 1, scope.hi);
    let pair = shifted_pair(scope, a, from_left, rebuilt);
    let links = shifted_links(scope, a, from_left, rebuilt.key(0), child, neighbor);
    let none = Seq::<LeafNodeEntry>::empty();
    lemma_shifted(device, scope, limit, a, from_left, sub_limit);
    lemma_flat_sound(left2, height, lo, mid as int);
    lemma_flat_sound(right2, height, mid as int, hi);
    lemma_sorted_concat(left2.flat(), right2.flat(), lo, mid as int, hi);
    if from_left {
        lemma_flat_sound(rebuilt, height, mid as int, hi);
        lemma_sorted_concat(left2.flat(), rebuilt.flat(), lo, mid as int, hi);
        assert(left2.flat() + right2.flat() + none == left2.flat() + right2.flat());
        assert(left2.flat() + rebuilt.flat() + none == left2.flat() + rebuilt.flat());
        assert(!has_key(left2.flat(), key)) by {
            if has_key(left2.flat(), key) {
                let i = choose|i: int|
                    0 <= i < left2.flat().len() && #[trigger] left2.flat()[i].key == key;
                assert(left2.flat()[i].key < mid);
            }
        }
        lemma_cut_segment(left2.flat(), right2.flat(), rebuilt.flat(), none, key);
        lemma_routes_within(entries, key, a + 1, a, a + 2);
    } else {
        lemma_flat_sound(rebuilt, height, lo, mid as int);
        lemma_sorted_concat(rebuilt.flat(), right2.flat(), lo, mid as int, hi);
        assert(none + left2.flat() + right2.flat() == left2.flat() + right2.flat());
        assert(none + rebuilt.flat() + right2.flat() == rebuilt.flat() + right2.flat());
        assert(!has_key(right2.flat(), key)) by {
            if has_key(right2.flat(), key) {
                let i = choose|i: int|
                    0 <= i < right2.flat().len() && #[trigger] right2.flat()[i].key == key;
                assert(mid <= right2.flat()[i].key);
            }
        }
        lemma_cut_segment(none, left2.flat(), rebuilt.flat(), right2.flat(), key);
        lemma_routes_within(entries, key, a, a, a + 2);
    }
    if from_left {
        lemma_sound_tighten(rebuilt, height, mid as int, hi);
        lemma_sound_widen(left2, height, lo, mid as int, lo, rebuilt.key(0) as int);
    } else {
        lemma_sound_tighten(rebuilt, height, lo, mid as int);
    }
    lemma_cut_two(scope, a, key, links[0], links[1], pair.0, pair.1, removed);
    assert(links == seq![links[0], links[1]]);
}

/// What the nodes in memory are after the move, and that the subtree that
/// received entries is rooted where both subtrees were.
pub proof fn lemma_shift_rooted(
    device: Seq<u8>,
    scope: Scope,
    limit: int,
    fso: int,
    a: int,
    from_left: bool,
    sub_limit: int,
)
    requires
        scope.tree is Internal,
        holds(device, scope.tree, limit),
        scope.tree.sound(scope.height, scope.lo, scope.hi),
        limit <= fso,
        crate::tree::DATA_START <= fso,
        0 <= a,
        a + 1 < scope.tree.len(),
        scope.tree->Internal_entries[a].value.offset <= sub_limit < limit,
        scope.tree->Internal_entries[a + 1].value.offset <= sub_limit,
        scope.tree.children()[a].len() + scope.tree.children()[a + 1].len() > BTREE_DEGREE,
        from_left ==> scope.tree.children()[a + 1].len() <= BTREE_B,
        !from_left ==> scope.tree.children()[a].len() <= BTREE_B,
    ensures
        ({
            let left = scope.tree.children()[a].node();
            let right = scope.tree.children()[a + 1].node();
            let child = shifted_child(scope, a, from_left);
            let neighbor = shifted_neighbor(scope, a, from_left);
            &&& left.kind() == right.kind()
            &&& rooted(device, child.tree.node(), child, sub_limit, fso)
            &&& 4 <= child.tree.len() <= BTREE_DEGREE - 1
            &&& BTREE_B <= neighbor.len() <= 3
            &&& from_left ==> {
                &&& neighbor.node() == left.take(left.len() - left.len() / 2)
                &&& child.tree.node() == left.skip(left.len() - left.len() / 2).join(right)
                &&& shifted(scope.tree, a, from_left).1.key(0) == child.tree.node().key(0)
            }
            &&& !from_left ==> {
                &&& child.tree.node() == left.join(right.take((right.len() / 2) as int))
                &&& neighbor.node() == right.skip((right.len() / 2) as int)
                &&& shifted(scope.tree, a, from_left).1.key(0) == neighbor.node().key(0)
            }
        }),
{
    lemma_shifted(device, scope, limit, a, from_left, sub_limit);
}

/// The number of bytes that a removal of `key` appends for a tree of
/// `height`: every node on the way to the key is written anew, a leaf
/// without the entry of the key, and an internal node with one entry less
/// when the two nodes below it were merged. A root of two entries whose
/// subtrees were merged is not written at all, and where entries were moved
/// between two nodes, the node that gave them away is written too.
pub open spec fn remove_growth(tree: Tree, height: nat, key: u64) -> int
    decreases height,
{
    match tree {
        Tree::Leaf { entries } => 16 * (entries.len() - if has_key(entries, key) {
            1int
        } else {
            0int
        }),
        Tree::Internal { entries, children } => {
            let i = route(entries, key);
            let from_left = i > 0;
            let a = if from_left {
                i - 1
            } else {
                i
            };
            if height == 0 || !(0 <= i < children.len()) {
                0
            } else if children[i].len() > BTREE_B {
                25 * entries.len() + remove_growth(children[i], (height - 1) as nat, key)
            } else if !(a + 1 < children.len()) {
                0
            } else if children[a].len() + children[a + 1].len() <= BTREE_DEGREE {
                (if entries.len() > 2 {
                    25 * (entries.len() - 1)
                } else {
                    0
                }) + remove_growth(children[a].join(children[a + 1]), (height - 1) as nat, key)
            } else {
                25 * entries.len() + remove_growth(
                    if from_left {
                        shifted(tree, a, from_left).1
                    } else {
                        shifted(tree, a, from_left).0
                    },
                    (height - 1) as nat,
                    key,
                ) + (if from_left {
                    shifted(tree, a, from_left).0
                } else {
                    shifted(tree, a, from_left).1
                }).node().byte_len()
            }
        },
    }
}

/// The pair of neighbouring entries that a removal merges when the child at
/// `index` has no entry to spare starts at the entry before it, or at the
/// entry itself when it is the first.
pub open spec fn pair_start(index: int) -> int {
    if index > 0 {
        index - 1
    } else {
        index
    }
}

/// What a removal appends when the child on the way has entries to spare.
pub proof fn lemma_growth_one(scope: Scope, i: int, key: u64)
    requires
        scope.tree is Internal,
        scope.tree.sound(scope.height, scope.lo, scope.hi),
        routes_to(scope.tree->Internal_entries, key, i),
        scope.tree.children()[i].len() > BTREE_B,
    ensures
        remove_growth(scope.tree, scope.height, key) == 25 * scope.tree.len() + remove_growth(
            scope.tree.children()[i],
            (scope.height - 1) as nat,
            key,
        ),
{
    lemma_route_unique(scope.tree->Internal_entries, key, i);
}

/// What a removal appends when the child on the way is merged with its
/// neighbour.
pub proof fn lemma_growth_merged(scope: Scope, index: int, key: u64)
    requires
        scope.tree is Internal,
        scope.tree.sound(scope.height, scope.lo, scope.hi),
        routes_to(scope.tree->Internal_entries, key, index),
        scope.tree.len() >= 2,
        scope.tree.children()[index].len() <= BTREE_B,
        scope.tree.children()[pair_start(index)].len() + scope.tree.children()[pair_start(index)
            + 1].len() <= BTREE_DEGREE,
    ensures
        remove_growth(scope.tree, scope.height, key) == (if scope.tree.len() > 2 {
            25 * (scope.tree.len() - 1)
        } else {
            0
        }) + remove_growth(
            merged_scope(scope, pair_start(index)).tree,
            (scope.height - 1) as nat,
            key,
        ),
{
    lemma_route_unique(scope.tree->Internal_entries, key, index);
}

/// What a removal appends when entries are moved to the child on the way
/// from its neighbour.
pub proof fn lemma_growth_shifted(scope: Scope, index: int, key: u64)
    requires
        scope.tree is Internal,
        scope.tree.sound(scope.height, scope.lo, scope.hi),
        routes_to(scope.tree->Internal_entries, key, index),
        scope.tree.len() >= 2,
        scope.tree.children()[index].len() <= BTREE_B,
        scope.tree.children()[pair_start(index)].len() + scope.tree.children()[pair_start(index)
            + 1].len() > BTREE_DEGREE,
    ensures
        remove_growth(scope.tree, scope.height, key) == 25 * scope.tree.len() + remove_growth(
            shifted_child(scope, pair_start(index), index > 0).tree,
            (scope.height - 1) as nat,
            key,
        ) + shifted_neighbor(scope, pair_start(index), index > 0).node().byte_len(),
{
    lemma_route_unique(scope.tree->Internal_entries, key, index);
}

/// After entries were moved between two neighbouring subtrees of a sound
/// node, the subtree that received them is sound between the bounds
/// returned and has four entries, and the other has at most three.
pub proof fn lemma_shifted_sound(
    tree: Tree,
    height: nat,
    lo: int,
    hi: int,
    a: int,
    from_left: bool,
) -> (bounds: (int, int))
    requires
        tree is Internal,
        tree.sound(height, lo, hi),
        0 <= a,
        a + 1 < tree.len(),
        tree.children()[a].len() + tree.children()[a + 1].len() > BTREE_DEGREE,
        from_left ==> tree.children()[a + 1].len() <= BTREE_B,
        !from_left ==> tree.children()[a].len() <= BTREE_B,
    ensures
        ({
            let received = if from_left {
                shifted(tree, a, from_left).1
            } else {
                shifted(tree, a, from_left).0
            };
            let given = if from_left {
                shifted(tree, a, from_left).0
            } else {
                shifted(tree, a, from_left).1
            };
            &&& received.sound((height - 1) as nat, bounds.0, bounds.1)
            &&& received.len() == 4
            &&& BTREE_B <= given.len() <= 3
            &&& 0 <= given.node().byte_len() <= 75
        }),
{
    reveal(shifted);
    let entries = tree->Internal_entries;
    let left = tree.children()[a];
    let right = tree.children()[a + 1];
    let below = (height - 1) as nat;
    let from = entries[a].key as int;
    let border = entries[a + 1].key as int;
    let to = upper(entries, a + 1, hi);
    assert(left.sound(below, from, upper(entries, a, hi)));
    assert(right.sound(below, border, to));
    assert(upper(entries, a, hi) == border);
    assert(lo <= entries[a].key < hi);
    assert(lo <= entries[a + 1].key < hi);
    assert(entries[a].key < entries[a + 1].key);
    assert(border < to) by {
        if a + 2 < entries.len() {
            assert(entries[a + 1].key < entries[a + 2].key);
        }
    }
    if from_left {
        let keep = left.len() - left.len() / 2;
        let mid = left.key(keep) as int;
        lemma_cut_sound(left, below, from, border, keep);
        lemma_sound_tighten(left.skip(keep), below, mid, border);
        lemma_join_sound(left.skip(keep), right, below, mid, border, to);
        (mid, to)
    } else {
        let moved = (right.len() / 2) as int;
        let mid = right.key(moved) as int;
        lemma_cut_sound(right, below, border, to, moved);
        lemma_join_sound(left, right.take(moved), below, from, border, mid);
        (from, mid)
    }
}

/// What a removal appends for a sound tree lies within what it appends at
/// most for a tree of that height.
pub proof fn lemma_remove_growth_bound(tree: Tree, height: nat, lo: int, hi: int, key: u64)
    requires
        tree.sound(height, lo, hi),
        tree.len() <= BTREE_DEGREE,
    ensures
        0 <= remove_growth(tree, height, key) <= 200 * height + 80,
    decreases height,
{
    match tree {
        Tree::Leaf { .. } => {},
        Tree::Internal { entries, children } => {
            let i = route(entries, key);
            let from_left = i > 0;
            let a = pair_start(i);
            let below = (height - 1) as nat;
            if 0 <= i < children.len() {
                assert(children[i].sound(below, entries[i].key as int, upper(entries, i, hi)));
                if children[i].len() > BTREE_B {
                    lemma_remove_growth_bound(
                        children[i],
                        below,
                        entries[i].key as int,
                        upper(entries, i, hi),
                        key,
                    );
                } else if a + 1 < children.len() {
                    assert(children[a].sound(below, entries[a].key as int, upper(entries, a, hi)));
                    assert(children[a + 1].sound(
                        below,
                        entries[a + 1].key as int,
                        upper(entries, a + 1, hi),
                    ));
                    assert(lo <= entries[a].key < hi);
                    assert(lo <= entries[a + 1].key < hi);
                    assert(entries[a].key < entries[a + 1].key);
                    assert(entries[a + 1].key < upper(entries, a + 1, hi)) by {
                        if a + 2 < entries.len() {
                            assert(entries[a + 1].key < entries[a + 2].key);
                        }
                    }
                    if children[a].len() + children[a + 1].len() <= BTREE_DEGREE {
                        lemma_join_sound(
                            children[a],
                            children[a + 1],
                            below,
                            entries[a].key as int,
                            entries[a + 1].key as int,
                            upper(entries, a + 1, hi),
                        );
                        lemma_remove_growth_bound(
                            children[a].join(children[a + 1]),
                            below,
                            entries[a].key as int,
                            upper(entries, a + 1, hi),
                            key,
                        );
                    } else {
                        let bounds = lemma_shifted_sound(tree, height, lo, hi, a, from_left);
                        let received = if from_left {
                            shifted(tree, a, from_left).1
                        } else {
                            shifted(tree, a, from_left).0
                        };
                        lemma_remove_growth_bound(received, below, bounds.0, bounds.1, key);
                    }
                }
            }
        },
    }
}

} // verus!
