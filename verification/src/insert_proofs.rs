//! Why insertion keeps a tree sound: what holds after the pair went into a
//! subtree, whole or split in two.

use vstd::prelude::*;
use crate::descent::{
    appended, child_scope, lemma_child_scope, lemma_patch_holds, lesser, link_to, node_bytes,
    out_of_room, rooted, Scope,
};
use crate::device::{same_below, same_from};
use crate::error::Error;
use crate::node::{
    BTREE_B, BTREE_DEGREE, BTREE_SPLIT, has_key, insertion_point, InternalNodeEntry, LeafNodeEntry,
    sorted_keys,
};
use crate::object::NodeView;
use crate::object_pointer::ObjectPointer;
use crate::sorted::{lemma_map_insert, lemma_map_update, lemma_put_segment, lemma_sorted_concat};
use crate::storage_proofs::{lemma_btree_of, lemma_stored_fresh};
use crate::tree::{
    btree_at, btree_height, btree_insert_growth, btree_map, btree_of, entries_map, holds,
    holds_child, is_btree, lookup, routes_to, stored, Tree, upper, within, DATA_START,
};
use crate::tree_edit::{
    block_lo, lemma_cut_sound, lemma_exact_first, lemma_insert_growth_halves, lemma_route_unique,
    lemma_splice_exact, lemma_splice_put, sound_block,
};
use crate::tree_put::{lemma_root_put, lemma_root_split, pointer_of, put_placed, split_placed};
use crate::tree_proofs::{
    lemma_flat_internal, lemma_flat_of_one, lemma_flat_of_two, lemma_flat_sound, lemma_sound_height,
    lemma_sound_tighten, lemma_sound_widen, segment_lo,
};

verus! {

/// The outcome of putting `entry` into the subtree of `scope`: the subtree
/// `after` is the one that [`Tree::put`] names, its root node is the last
/// node written, and it is stored, sound, and holds what the subtree held and
/// the pair.
pub open spec fn put_done(
    faultless: bool,
    device: Seq<u8>,
    scope: Scope,
    fso: int,
    entry: LeafNodeEntry,
    r: Result<(InternalNodeEntry, u64, Option<u64>), Error>,
    after: Tree,
) -> bool {
    &&& put_sound(faultless, device, scope, fso, entry, r, after)
    &&& put_placed(scope, fso, entry, r, after)
}

/// The outcome of splitting the full subtree of `scope` and putting `entry`
/// into one of the halves: the halves are those that [`Tree::split_put`]
/// names, under the entries of [`Tree::split_links`], and they are stored,
/// sound, and together hold what the subtree held and the pair.
pub open spec fn split_done(
    faultless: bool,
    device: Seq<u8>,
    scope: Scope,
    fso: int,
    entry: LeafNodeEntry,
    r: Result<(InternalNodeEntry, InternalNodeEntry, u64, Option<u64>), Error>,
    left: Tree,
    right: Tree,
) -> bool {
    &&& split_sound(faultless, device, scope, fso, entry, r, left, right)
    &&& split_placed(scope, fso, entry, r, left, right)
}

/// What is stored after `entry` was put into the subtree of `scope`: the
/// subtree `after`, stored anew under the pointer of the entry returned,
/// holds what the subtree held and the pair.
pub open spec fn put_sound(
    faultless: bool,
    device: Seq<u8>,
    scope: Scope,
    fso: int,
    entry: LeafNodeEntry,
    r: Result<(InternalNodeEntry, u64, Option<u64>), Error>,
    after: Tree,
) -> bool {
    match r {
        Ok((link, fso2, previous)) => {
            &&& stored(device, link.value, after)
            &&& fso <= link.value.offset
            &&& link.value.end() <= fso2
            &&& fso2 == fso + scope.tree.insert_growth(entry.key)
            &&& fso2 <= device.len()
            &&& after.sound(scope.height, lesser(scope.lo, entry.key as int), scope.hi)
            &&& scope.tree.len() <= after.len() <= scope.tree.len() + 1
            &&& after.len() > 0
            &&& link.key == after.key(0)
            &&& after.map() == scope.tree.map().insert(entry.key, entry.value)
            &&& previous == lookup(scope.tree.map(), entry.key)
            &&& scope.tree.exact() ==> after.exact()
        },
        Err(e) => out_of_room(
            faultless,
            device.len(),
            fso,
            scope.tree.insert_growth(entry.key),
            e,
        ),
    }
}

/// What is stored after the full subtree of `scope` was split and `entry`
/// was put into one of the halves: the subtrees `left` and `right`, stored
/// under the pointers of the two entries returned, together hold what the
/// subtree held and the pair.
pub open spec fn split_sound(
    faultless: bool,
    device: Seq<u8>,
    scope: Scope,
    fso: int,
    entry: LeafNodeEntry,
    r: Result<(InternalNodeEntry, InternalNodeEntry, u64, Option<u64>), Error>,
    left: Tree,
    right: Tree,
) -> bool {
    match r {
        Ok((left_link, right_link, fso2, previous)) => {
            &&& stored(device, left_link.value, left)
            &&& stored(device, right_link.value, right)
            &&& fso <= left_link.value.offset
            &&& fso <= right_link.value.offset
            &&& left_link.value.end() <= fso2
            &&& right_link.value.end() <= fso2
            &&& fso2 == fso + scope.tree.insert_growth(entry.key)
            &&& fso2 <= device.len()
            &&& left.sound(scope.height, lesser(scope.lo, entry.key as int), right_link.key as int)
            &&& right.sound(scope.height, right_link.key as int, scope.hi)
            &&& BTREE_B <= left.len() <= BTREE_DEGREE
            &&& BTREE_B <= right.len() <= BTREE_DEGREE
            &&& left_link.key == left.key(0)
            &&& right_link.key == right.key(0)
            &&& sorted_keys(left.flat() + right.flat())
            &&& entries_map(left.flat() + right.flat()) == scope.tree.map().insert(
                entry.key,
                entry.value,
            )
            &&& previous == lookup(scope.tree.map(), entry.key)
            &&& scope.tree.exact() ==> left.exact() && right.exact()
        },
        Err(e) => out_of_room(
            faultless,
            device.len(),
            fso,
            scope.tree.insert_growth(entry.key),
            e,
        ),
    }
}

/// What putting `entry` into the sorted leaf entries `before` gives.
pub proof fn lemma_leaf_put(
    before: Seq<LeafNodeEntry>,
    after: Seq<LeafNodeEntry>,
    entry: LeafNodeEntry,
    previous: Option<u64>,
    lo: int,
    hi: int,
)
    requires
        sorted_keys(before),
        within(before, lo, hi),
        entry.key < hi,
        match previous {
            Some(value) => exists|i: int|
                {
                    &&& 0 <= i < before.len()
                    &&& (#[trigger] before[i]).key == entry.key
                    &&& before[i].value == value
                    &&& after == before.update(i, entry)
                },
            None => exists|i: int|
                {
                    &&& 0 <= i <= before.len()
                    &&& after == #[trigger] before.insert(i, entry)
                    &&& sorted_keys(before) ==> insertion_point(before, entry.key, i)
                },
        },
    ensures
        sorted_keys(after),
        within(after, lesser(lo, entry.key as int), hi),
        entries_map(after) == entries_map(before).insert(entry.key, entry.value),
        previous == lookup(entries_map(before), entry.key),
        before.len() <= after.len() <= before.len() + 1,
        after.len() == before.len() + if has_key(before, entry.key) {
            0int
        } else {
            1int
        },
        after.len() > 0,
{
    let lo2 = lesser(lo, entry.key as int);
    match previous {
        Some(value) => {
            let i = choose|i: int|
                {
                    &&& 0 <= i < before.len()
                    &&& (#[trigger] before[i]).key == entry.key
                    &&& before[i].value == value
                    &&& after == before.update(i, entry)
                };
            lemma_map_update(before, i, entry);
            assert forall|j: int| 0 <= j < after.len() implies lo2 <= (#[trigger] after[j]).key
                < hi by {
                assert(lo <= before[j].key < hi);
            }
        },
        None => {
            let i = choose|i: int|
                {
                    &&& 0 <= i <= before.len()
                    &&& after == #[trigger] before.insert(i, entry)
                    &&& sorted_keys(before) ==> insertion_point(before, entry.key, i)
                };
            lemma_map_insert(before, i, entry);
            assert forall|j: int| 0 <= j < after.len() implies lo2 <= (#[trigger] after[j]).key
                < hi by {
                if j < i {
                    assert(lo <= before[j].key < hi);
                } else if j > i {
                    assert(lo <= before[j - 1].key < hi);
                }
            }
        },
    }
}

/// What holds of the halves of a full node after the pair went into the left
/// half.
pub proof fn lemma_split_left(scope: Scope, entry: LeafNodeEntry, left: Tree, previous: Option<u64>)
    requires
        scope.tree.sound(scope.height, scope.lo, scope.hi),
        scope.tree.len() == BTREE_DEGREE,
        entry.key < scope.tree.key(BTREE_SPLIT as int),
        left.sound(
            scope.height,
            lesser(scope.lo, entry.key as int),
            scope.tree.key(BTREE_SPLIT as int) as int,
        ),
        BTREE_SPLIT <= left.len() <= BTREE_SPLIT + 1,
        left.map() == scope.tree.take(BTREE_SPLIT as int).map().insert(entry.key, entry.value),
        previous == lookup(scope.tree.take(BTREE_SPLIT as int).map(), entry.key),
    ensures
        scope.tree.skip(BTREE_SPLIT as int).sound(
            scope.height,
            scope.tree.key(BTREE_SPLIT as int) as int,
            scope.hi,
        ),
        scope.tree.skip(BTREE_SPLIT as int).len() == BTREE_B,
        scope.tree.skip(BTREE_SPLIT as int).key(0) == scope.tree.key(BTREE_SPLIT as int),
        sorted_keys(left.flat() + scope.tree.skip(BTREE_SPLIT as int).flat()),
        entries_map(left.flat() + scope.tree.skip(BTREE_SPLIT as int).flat())
            == scope.tree.map().insert(entry.key, entry.value),
        previous == lookup(scope.tree.map(), entry.key),
        scope.tree.insert_growth(entry.key) == scope.tree.take(BTREE_SPLIT as int).insert_growth(
            entry.key,
        ) + node_bytes(scope.height, 2),
{
    let tree = scope.tree;
    let n = BTREE_SPLIT as int;
    let mid = tree.key(n) as int;
    let front = tree.take(n);
    let back = tree.skip(n);
    lemma_insert_growth_halves(tree, scope.height, scope.lo, scope.hi, entry.key);
    lemma_cut_sound(tree, scope.height, scope.lo, scope.hi, n);
    lemma_flat_sound(tree, scope.height, scope.lo, scope.hi);
    lemma_flat_sound(left, scope.height, lesser(scope.lo, entry.key as int), mid);
    lemma_flat_sound(back, scope.height, mid, scope.hi);
    lemma_sound_tighten(back, scope.height, mid, scope.hi);
    lemma_sorted_concat(
        left.flat(),
        back.flat(),
        lesser(scope.lo, entry.key as int),
        mid,
        scope.hi,
    );
    let none = Seq::<LeafNodeEntry>::empty();
    assert(none + front.flat() + back.flat() == tree.flat());
    assert(none + left.flat() + back.flat() == left.flat() + back.flat());
    lemma_put_segment(none, front.flat(), left.flat(), back.flat(), entry.key, entry.value);
}

/// What holds of the halves of a full node after the pair went into the
/// right half.
pub proof fn lemma_split_right(scope: Scope, entry: LeafNodeEntry, right: Tree, previous: Option<u64>)
    requires
        scope.tree.sound(scope.height, scope.lo, scope.hi),
        scope.tree.len() == BTREE_DEGREE,
        entry.key >= scope.tree.key(BTREE_SPLIT as int),
        entry.key < scope.hi,
        right.sound(scope.height, scope.tree.key(BTREE_SPLIT as int) as int, scope.hi),
        BTREE_B <= right.len() <= BTREE_B + 1,
        right.map() == scope.tree.skip(BTREE_SPLIT as int).map().insert(entry.key, entry.value),
        previous == lookup(scope.tree.skip(BTREE_SPLIT as int).map(), entry.key),
    ensures
        scope.tree.take(BTREE_SPLIT as int).sound(
            scope.height,
            lesser(scope.lo, entry.key as int),
            right.key(0) as int,
        ),
        right.sound(scope.height, right.key(0) as int, scope.hi),
        scope.tree.take(BTREE_SPLIT as int).len() == BTREE_SPLIT,
        scope.tree.take(BTREE_SPLIT as int).key(0) == scope.tree.key(0),
        sorted_keys(scope.tree.take(BTREE_SPLIT as int).flat() + right.flat()),
        entries_map(scope.tree.take(BTREE_SPLIT as int).flat() + right.flat())
            == scope.tree.map().insert(entry.key, entry.value),
        previous == lookup(scope.tree.map(), entry.key),
        scope.tree.insert_growth(entry.key) == scope.tree.skip(BTREE_SPLIT as int).insert_growth(
            entry.key,
        ) + node_bytes(scope.height, 3),
{
    let tree = scope.tree;
    let n = BTREE_SPLIT as int;
    let mid = tree.key(n) as int;
    let front = tree.take(n);
    let back = tree.skip(n);
    lemma_insert_growth_halves(tree, scope.height, scope.lo, scope.hi, entry.key);
    lemma_cut_sound(tree, scope.height, scope.lo, scope.hi, n);
    lemma_flat_sound(tree, scope.height, scope.lo, scope.hi);
    lemma_sound_tighten(right, scope.height, mid, scope.hi);
    lemma_sound_widen(
        front,
        scope.height,
        scope.lo,
        mid,
        lesser(scope.lo, entry.key as int),
        right.key(0) as int,
    );
    lemma_flat_sound(front, scope.height, lesser(scope.lo, entry.key as int), right.key(0) as int);
    lemma_flat_sound(right, scope.height, right.key(0) as int, scope.hi);
    lemma_sorted_concat(
        front.flat(),
        right.flat(),
        lesser(scope.lo, entry.key as int),
        right.key(0) as int,
        scope.hi,
    );
    let none = Seq::<LeafNodeEntry>::empty();
    assert(front.flat() + back.flat() + none == tree.flat());
    assert(front.flat() + right.flat() + none == front.flat() + right.flat());
    lemma_put_segment(front.flat(), back.flat(), right.flat(), none, entry.key, entry.value);
}

/// What holds of an internal node once the pair went into the subtree to
/// which its key routes and the entry of that subtree was replaced.
pub proof fn lemma_put_one(
    scope: Scope,
    i: int,
    entry: LeafNodeEntry,
    link: InternalNodeEntry,
    child2: Tree,
    previous: Option<u64>,
)
    requires
        scope.tree is Internal,
        scope.tree.sound(scope.height, scope.lo, scope.hi),
        routes_to(scope.tree->Internal_entries, entry.key, i),
        entry.key < scope.hi,
        child2.sound(
            (scope.height - 1) as nat,
            lesser(scope.tree.key(i) as int, entry.key as int),
            upper(scope.tree->Internal_entries, i, scope.hi),
        ),
        BTREE_B <= child2.len() <= BTREE_DEGREE,
        link.key == child2.key(0),
        child2.map() == scope.tree.children()[i].map().insert(entry.key, entry.value),
        previous == lookup(scope.tree.children()[i].map(), entry.key),
    ensures
        scope.tree.splice(i, i + 1, seq![link], seq![child2]).sound(
            scope.height,
            lesser(scope.lo, entry.key as int),
            scope.hi,
        ),
        scope.tree.splice(i, i + 1, seq![link], seq![child2]).len() == scope.tree.len(),
        scope.tree.splice(i, i + 1, seq![link], seq![child2]).map() == scope.tree.map().insert(
            entry.key,
            entry.value,
        ),
        previous == lookup(scope.tree.map(), entry.key),
        scope.tree->Internal_entries.update(i, link) == scope.tree->Internal_entries.take(i)
            + seq![link] + scope.tree->Internal_entries.skip(i + 1),
{
    let tree = scope.tree;
    let entries = tree->Internal_entries;
    let children = tree->Internal_children;
    let height = scope.height;
    let lo2 = lesser(scope.lo, entry.key as int);
    let blk_lo = block_lo(tree, i, lo2);
    let blk_hi = segment_lo(entries, i + 1, scope.hi);
    let child_lo = lesser(entries[i].key as int, entry.key as int);
    assert(scope.lo <= entries[i].key < scope.hi);
    assert(blk_hi == upper(entries, i, scope.hi));
    lemma_sound_tighten(child2, (height - 1) as nat, child_lo, blk_hi);
    let links = seq![link];
    let kids = seq![child2];
    assert(sound_block(links, kids, height, blk_lo, blk_hi)) by {
        assert(upper(links, 0, blk_hi) == blk_hi);
        assert forall|j: int| 0 <= j < kids.len() implies {
            &&& (#[trigger] kids[j]).sound(
                (height - 1) as nat,
                links[j].key as int,
                upper(links, j, blk_hi),
            )
            &&& BTREE_B <= kids[j].len() <= BTREE_DEGREE
        } by {}
    }
    assert(children.subrange(i, i + 1) == seq![children[i]]);
    lemma_flat_of_one(children[i]);
    lemma_flat_of_one(child2);
    lemma_splice_put(
        tree,
        height,
        scope.lo,
        scope.hi,
        lo2,
        i,
        i + 1,
        links,
        kids,
        entry.key,
        entry.value,
    );
    assert(entries.update(i, link) == entries.take(i) + seq![link] + entries.skip(i + 1));
}

/// What holds of an internal node once the subtree to which the key routes
/// was split, the pair went into one half, and the entry of that subtree was
/// replaced by the entries of the two halves.
pub proof fn lemma_put_two(
    scope: Scope,
    i: int,
    entry: LeafNodeEntry,
    left_link: InternalNodeEntry,
    right_link: InternalNodeEntry,
    left: Tree,
    right: Tree,
    previous: Option<u64>,
)
    requires
        scope.tree is Internal,
        scope.tree.sound(scope.height, scope.lo, scope.hi),
        routes_to(scope.tree->Internal_entries, entry.key, i),
        entry.key < scope.hi,
        left.sound(
            (scope.height - 1) as nat,
            lesser(scope.tree.key(i) as int, entry.key as int),
            right_link.key as int,
        ),
        right.sound(
            (scope.height - 1) as nat,
            right_link.key as int,
            upper(scope.tree->Internal_entries, i, scope.hi),
        ),
        BTREE_B <= left.len() <= BTREE_DEGREE,
        BTREE_B <= right.len() <= BTREE_DEGREE,
        left_link.key == left.key(0),
        right_link.key == right.key(0),
        entries_map(left.flat() + right.flat()) == scope.tree.children()[i].map().insert(
            entry.key,
            entry.value,
        ),
        previous == lookup(scope.tree.children()[i].map(), entry.key),
    ensures
        scope.tree.splice(i, i + 1, seq![left_link, right_link], seq![left, right]).sound(
            scope.height,
            lesser(scope.lo, entry.key as int),
            scope.hi,
        ),
        scope.tree.splice(i, i + 1, seq![left_link, right_link], seq![left, right]).len()
            == scope.tree.len() + 1,
        scope.tree.splice(i, i + 1, seq![left_link, right_link], seq![left, right]).map()
            == scope.tree.map().insert(entry.key, entry.value),
        previous == lookup(scope.tree.map(), entry.key),
        left_link.key < right_link.key,
        i > 0 ==> scope.tree.key(i) <= left_link.key,
        right_link.key < upper(scope.tree->Internal_entries, i, scope.hi),
{
    let tree = scope.tree;
    let entries = tree->Internal_entries;
    let children = tree->Internal_children;
    let height = scope.height;
    let lo2 = lesser(scope.lo, entry.key as int);
    let blk_lo = block_lo(tree, i, lo2);
    let blk_hi = segment_lo(entries, i + 1, scope.hi);
    let child_lo = lesser(entries[i].key as int, entry.key as int);
    assert(scope.lo <= entries[i].key < scope.hi);
    assert(blk_hi == upper(entries, i, scope.hi));
    lemma_sound_tighten(left, (height - 1) as nat, child_lo, right_link.key as int);
    lemma_sound_tighten(right, (height - 1) as nat, right_link.key as int, blk_hi);
    let links = seq![left_link, right_link];
    let kids = seq![left, right];
    assert(sound_block(links, kids, height, blk_lo, blk_hi)) by {
        assert(upper(links, 0, blk_hi) == right_link.key);
        assert(upper(links, 1, blk_hi) == blk_hi);
        assert forall|j: int| 0 <= j < kids.len() implies {
            &&& (#[trigger] kids[j]).sound(
                (height - 1) as nat,
                links[j].key as int,
                upper(links, j, blk_hi),
            )
            &&& BTREE_B <= kids[j].len() <= BTREE_DEGREE
        } by {}
    }
    assert(children.subrange(i, i + 1) == seq![children[i]]);
    lemma_flat_of_one(children[i]);
    lemma_flat_of_two(left, right);
    lemma_splice_put(
        tree,
        height,
        scope.lo,
        scope.hi,
        lo2,
        i,
        i + 1,
        links,
        kids,
        entry.key,
        entry.value,
    );
}

/// The entries of an internal node after the entry at `i` was replaced by
/// `left_link` and `right_link` was put where the search says it belongs.
pub proof fn lemma_links_after_split(
    entries: Seq<InternalNodeEntry>,
    middle: Seq<InternalNodeEntry>,
    after: Seq<InternalNodeEntry>,
    i: int,
    left_link: InternalNodeEntry,
    right_link: InternalNodeEntry,
    replaced: Option<ObjectPointer>,
    hi: int,
)
    requires
        sorted_keys(entries),
        0 <= i < entries.len(),
        left_link.key < right_link.key,
        i > 0 ==> entries[i].key <= left_link.key,
        right_link.key < upper(entries, i, hi),
        middle == entries.update(i, left_link),
        match replaced {
            Some(value) => exists|j: int|
                {
                    &&& 0 <= j < middle.len()
                    &&& (#[trigger] middle[j]).key == right_link.key
                    &&& middle[j].value == value
                    &&& after == middle.update(j, right_link)
                },
            None => exists|j: int|
                {
                    &&& 0 <= j <= middle.len()
                    &&& after == #[trigger] middle.insert(j, right_link)
                    &&& sorted_keys(middle) ==> insertion_point(middle, right_link.key, j)
                },
        },
    ensures
        replaced is None,
        after == entries.take(i) + seq![left_link, right_link] + entries.skip(i + 1),
{
    assert forall|x: int| 0 <= x < i implies (#[trigger] middle[x]).key < right_link.key by {
        assert(entries[x].key < entries[i].key);
    }
    assert forall|x: int| i < x < middle.len() implies right_link.key < (#[trigger] middle[x]).key by {
        if x > i + 1 {
            assert(entries[i + 1].key < entries[x].key);
        }
    }
    assert(sorted_keys(middle)) by {
        assert forall|x: int, y: int| 0 <= x < y < middle.len() implies middle[x].key
            < middle[y].key by {
            assert(entries[x].key < entries[y].key);
            if x == i {
                assert(right_link.key < middle[y].key);
            } else if y == i {
                assert(entries[x].key < entries[i].key);
            }
        }
    }
    match replaced {
        Some(value) => {
            let j = choose|j: int|
                {
                    &&& 0 <= j < middle.len()
                    &&& (#[trigger] middle[j]).key == right_link.key
                    &&& middle[j].value == value
                    &&& after == middle.update(j, right_link)
                };
            if j < i {
                assert(middle[j].key < right_link.key);
            } else if j > i {
                assert(right_link.key < middle[j].key);
            }
        },
        None => {
            let j = choose|j: int|
                {
                    &&& 0 <= j <= middle.len()
                    &&& after == #[trigger] middle.insert(j, right_link)
                    &&& sorted_keys(middle) ==> insertion_point(middle, right_link.key, j)
                };
            if j <= i {
                assert(right_link.key < middle[i].key);
            } else if j > i + 1 {
                assert(middle[i + 1].key < right_link.key);
            }
            assert(j == i + 1);
            assert(after == entries.take(i) + seq![left_link, right_link] + entries.skip(i + 1));
        },
    }
}

/// What an internal node returns once the pair went into a child with room
/// and the node was appended.
pub proof fn lemma_insert_one_done(
    faultless: bool,
    start: Seq<u8>,
    middle: Seq<u8>,
    last: Seq<u8>,
    scope: Scope,
    limit: int,
    fso: int,
    entry: LeafNodeEntry,
    i: int,
    link: InternalNodeEntry,
    fso2: u64,
    previous: Option<u64>,
    child2: Tree,
    links2: Seq<InternalNodeEntry>,
    cowed: Result<ObjectPointer, Error>,
    fso3: u64,
)
    requires
        scope.tree is Internal,
        rooted(start, scope.tree.node(), scope, limit, fso),
        0 < scope.tree.len() < BTREE_DEGREE,
        entry.key < scope.hi,
        routes_to(scope.tree->Internal_entries, entry.key, i),
        same_below(start, middle, fso),
        child_scope(scope, i).tree.len() < BTREE_DEGREE,
        put_sound(
            faultless,
            middle,
            child_scope(scope, i),
            fso,
            entry,
            Ok::<(InternalNodeEntry, u64, Option<u64>), Error>((link, fso2, previous)),
            child2,
        ),
        links2 == scope.tree->Internal_entries.update(i, link),
        appended(faultless, middle, last, fso2 as int, fso3 as int, NodeView::Internal(links2), cowed),
    ensures
        put_sound(
            faultless,
            last,
            scope,
            fso,
            entry,
            match cowed {
                Ok(pointer) => Ok((link_to(NodeView::Internal(links2), pointer), fso3, previous)),
                Err(e) => Err(e),
            },
            scope.tree.splice(i, i + 1, seq![link], seq![child2]),
        ),
{
    let after = scope.tree.splice(i, i + 1, seq![link], seq![child2]);
    lemma_child_scope(start, scope, limit, i);
    lemma_route_unique(scope.tree->Internal_entries, entry.key, i);
    lemma_put_one(scope, i, entry, link, child2, previous);
    if scope.tree.exact() {
        let below = child_scope(scope, i);
        assert(scope.tree.children()[i].exact());
        lemma_exact_first(child2, below.height, lesser(below.lo, entry.key as int), below.hi);
        let kids = seq![child2];
        let links = seq![link];
        assert forall|j: int| 0 <= j < kids.len() implies {
            &&& (#[trigger] kids[j]).exact()
            &&& kids[j].flat().len() > 0
            &&& links[j].key == kids[j].flat()[0].key
        } by {}
        lemma_splice_exact(scope.tree, i, i + 1, links, kids);
    }
    lemma_patch_holds(
        start,
        middle,
        scope.tree,
        limit,
        fso,
        fso2 as int,
        i,
        i + 1,
        seq![link],
        seq![child2],
    );
    NodeView::Internal(links2).lemma_byte_len();
    match cowed {
        Ok(pointer) => {
            lemma_stored_fresh(middle, last, pointer, after, fso2 as int);
        },
        Err(e) => {},
    }
}

/// What an internal node returns once a full child was split, the pair went
/// into one half, and the node was appended.
pub proof fn lemma_insert_two_done(
    faultless: bool,
    start: Seq<u8>,
    middle: Seq<u8>,
    last: Seq<u8>,
    scope: Scope,
    limit: int,
    fso: int,
    entry: LeafNodeEntry,
    i: int,
    left_link: InternalNodeEntry,
    right_link: InternalNodeEntry,
    fso2: u64,
    previous: Option<u64>,
    left: Tree,
    right: Tree,
    links2: Seq<InternalNodeEntry>,
    cowed: Result<ObjectPointer, Error>,
    fso3: u64,
)
    requires
        scope.tree is Internal,
        rooted(start, scope.tree.node(), scope, limit, fso),
        0 < scope.tree.len() < BTREE_DEGREE,
        entry.key < scope.hi,
        routes_to(scope.tree->Internal_entries, entry.key, i),
        same_below(start, middle, fso),
        child_scope(scope, i).tree.len() == BTREE_DEGREE,
        split_sound(
            faultless,
            middle,
            child_scope(scope, i),
            fso,
            entry,
            Ok::<(InternalNodeEntry, InternalNodeEntry, u64, Option<u64>), Error>(
                (left_link, right_link, fso2, previous),
            ),
            left,
            right,
        ),
        links2 == scope.tree->Internal_entries.take(i) + seq![left_link, right_link]
            + scope.tree->Internal_entries.skip(i + 1),
        appended(faultless, middle, last, fso2 as int, fso3 as int, NodeView::Internal(links2), cowed),
    ensures
        put_sound(
            faultless,
            last,
            scope,
            fso,
            entry,
            match cowed {
                Ok(pointer) => Ok((link_to(NodeView::Internal(links2), pointer), fso3, previous)),
                Err(e) => Err(e),
            },
            scope.tree.splice(i, i + 1, seq![left_link, right_link], seq![left, right]),
        ),
{
    let after = scope.tree.splice(i, i + 1, seq![left_link, right_link], seq![left, right]);
    lemma_child_scope(start, scope, limit, i);
    lemma_route_unique(scope.tree->Internal_entries, entry.key, i);
    lemma_put_two(scope, i, entry, left_link, right_link, left, right, previous);
    if scope.tree.exact() {
        let below = child_scope(scope, i);
        assert(scope.tree.children()[i].exact());
        lemma_exact_first(
            left,
            below.height,
            lesser(below.lo, entry.key as int),
            right_link.key as int,
        );
        lemma_exact_first(right, below.height, right_link.key as int, below.hi);
        let kids = seq![left, right];
        let links = seq![left_link, right_link];
        assert forall|j: int| 0 <= j < kids.len() implies {
            &&& (#[trigger] kids[j]).exact()
            &&& kids[j].flat().len() > 0
            &&& links[j].key == kids[j].flat()[0].key
        } by {}
        lemma_splice_exact(scope.tree, i, i + 1, links, kids);
    }
    lemma_patch_holds(
        start,
        middle,
        scope.tree,
        limit,
        fso,
        fso2 as int,
        i,
        i + 1,
        seq![left_link, right_link],
        seq![left, right],
    );
    NodeView::Internal(links2).lemma_byte_len();
    match cowed {
        Ok(pointer) => {
            lemma_stored_fresh(middle, last, pointer, after, fso2 as int);
        },
        Err(e) => {},
    }
}

/// The most bytes that an insertion into a tree of `height` appends.
pub open spec fn insert_room(height: nat) -> int {
    150 * (height as int) + 146
}

/// The outcome of [`insert_in_btree`] on a sound B-tree: a sound B-tree under
/// the new root that holds what the old one held and the pair, or no room on
/// the device.
///
/// The new tree is the one that [`Tree::put_root`] names, node for node and
/// pointer for pointer. Its root is the last node written, right before the
/// new free-space offset, and no byte from that offset on has changed. The
/// tree is one level higher exactly when the old root was full.
pub open spec fn inserted(
    before: Seq<u8>,
    faultless: bool,
    root: ObjectPointer,
    fso: u64,
    entry: LeafNodeEntry,
    after: Seq<u8>,
    r: Result<(ObjectPointer, u64, Option<u64>), Error>,
) -> bool {
    match r {
        Ok((root2, fso2, previous)) => {
            &&& is_btree(after, root2, fso2 as int)
            &&& btree_map(after, root2) == btree_map(before, root).insert(entry.key, entry.value)
            &&& previous == lookup(btree_map(before, root), entry.key)
            &&& fso2 == fso + btree_insert_growth(before, root, entry.key)
            &&& fso <= root2.offset
            &&& root2.end() == fso2
            &&& root2 == pointer_of(btree_of(after, root2), fso2 as int)
            &&& fso2 <= after.len()
            &&& same_from(before, after, fso2 as int)
            &&& btree_of(after, root2) == btree_of(before, root).put_root(
                btree_height(before, root),
                entry,
                fso as int,
            )
            &&& btree_height(after, root2) == btree_height(before, root) + if btree_of(
                before,
                root,
            ).len() == BTREE_DEGREE {
                1int
            } else {
                0int
            }
            &&& btree_of(before, root).exact() ==> btree_of(after, root2).exact()
        },
        Err(e) => out_of_room(
            faultless,
            before.len(),
            fso as int,
            btree_insert_growth(before, root, entry.key),
            e,
        ),
    }
}

/// What holds of the new root over the two halves of the old one.
pub proof fn lemma_new_root(
    scope: Scope,
    entry: LeafNodeEntry,
    left_link: InternalNodeEntry,
    right_link: InternalNodeEntry,
    left: Tree,
    right: Tree,
)
    requires
        scope.lo == 0,
        scope.hi == u64::MAX + 1,
        left.sound(scope.height, lesser(scope.lo, entry.key as int), right_link.key as int),
        right.sound(scope.height, right_link.key as int, scope.hi),
        BTREE_B <= left.len() <= BTREE_DEGREE,
        BTREE_B <= right.len() <= BTREE_DEGREE,
        left_link.key == left.key(0),
        right_link.key == right.key(0),
    ensures
        left.exact() && right.exact() ==> (Tree::Internal {
            entries: seq![left_link, right_link],
            children: seq![left, right],
        }).exact(),
        (Tree::Internal {
            entries: seq![left_link, right_link],
            children: seq![left, right],
        }).sound_root(scope.height + 1),
        (Tree::Internal {
            entries: seq![left_link, right_link],
            children: seq![left, right],
        }).flat() == left.flat() + right.flat(),
{
    let links = seq![left_link, right_link];
    let kids = seq![left, right];
    let root = Tree::Internal { entries: links, children: kids };
    lemma_sound_tighten(left, scope.height, 0, right_link.key as int);
    lemma_sound_tighten(right, scope.height, right_link.key as int, scope.hi);
    assert(upper(links, 0, scope.hi) == right_link.key);
    assert(upper(links, 1, scope.hi) == scope.hi);
    assert forall|j: int| 0 <= j < kids.len() implies {
        &&& (#[trigger] kids[j]).sound(scope.height, links[j].key as int, upper(links, j, scope.hi))
        &&& BTREE_B <= kids[j].len() <= BTREE_DEGREE
    } by {}
    lemma_flat_internal(root);
    lemma_flat_of_two(left, right);
    if left.exact() && right.exact() {
        lemma_exact_first(left, scope.height, 0, right_link.key as int);
        lemma_exact_first(right, scope.height, right_link.key as int, scope.hi);
        assert forall|j: int| 0 <= j < kids.len() implies {
            &&& (#[trigger] kids[j]).exact()
            &&& kids[j].flat().len() > 0
            &&& links[j].key == kids[j].flat()[0].key
        } by {}
    }
}

/// What [`insert_in_btree`] returns for what [`insert_in_node`] returned at
/// a root with room.
pub proof fn lemma_inserted_put(
    faultless: bool,
    before: Seq<u8>,
    after: Seq<u8>,
    root: ObjectPointer,
    fso: u64,
    entry: LeafNodeEntry,
    scope: Scope,
    link: InternalNodeEntry,
    fso2: u64,
    previous: Option<u64>,
    rebuilt: Tree,
)
    requires
        btree_at(before, root, scope.tree, scope.height),
        scope.tree == btree_of(before, root),
        scope.height == scope.tree.height(),
        scope.lo == 0,
        scope.hi == u64::MAX + 1,
        scope.tree.len() < BTREE_DEGREE,
        root.end() <= fso,
        same_from(before, after, fso2 as int),
        put_done(
            faultless,
            after,
            scope,
            fso as int,
            entry,
            Ok::<(InternalNodeEntry, u64, Option<u64>), Error>((link, fso2, previous)),
            rebuilt,
        ),
    ensures
        inserted(
            before,
            faultless,
            root,
            fso,
            entry,
            after,
            Ok::<(ObjectPointer, u64, Option<u64>), Error>((link.value, fso2, previous)),
        ),
{
    lemma_root_put(scope, fso as int, entry, link, fso2 as int, rebuilt);
    lemma_btree_of(after, link.value, rebuilt);
    lemma_sound_height(rebuilt, scope.height, 0, u64::MAX + 1);
    assert(btree_at(after, link.value, rebuilt, scope.height));
}

/// What [`insert_in_btree`] returns once a full root was split, the pair
/// went into one half, and a new root over both was appended.
pub proof fn lemma_inserted_split(
    faultless: bool,
    before: Seq<u8>,
    middle: Seq<u8>,
    after: Seq<u8>,
    root: ObjectPointer,
    fso: u64,
    entry: LeafNodeEntry,
    scope: Scope,
    left_link: InternalNodeEntry,
    right_link: InternalNodeEntry,
    fso2: u64,
    previous: Option<u64>,
    left: Tree,
    right: Tree,
    pointer: ObjectPointer,
    fso3: u64,
)
    requires
        btree_at(before, root, scope.tree, scope.height),
        scope.tree == btree_of(before, root),
        scope.height == scope.tree.height(),
        scope.lo == 0,
        scope.hi == u64::MAX + 1,
        scope.tree.len() == BTREE_DEGREE,
        root.end() <= fso,
        DATA_START <= fso,
        same_from(before, after, fso3 as int),
        split_done(
            faultless,
            middle,
            scope,
            fso as int,
            entry,
            Ok::<(InternalNodeEntry, InternalNodeEntry, u64, Option<u64>), Error>(
                (left_link, right_link, fso2, previous),
            ),
            left,
            right,
        ),
        appended(
            faultless,
            middle,
            after,
            fso2 as int,
            fso3 as int,
            NodeView::Internal(seq![left_link, right_link]),
            Ok::<ObjectPointer, Error>(pointer),
        ),
    ensures
        inserted(
            before,
            faultless,
            root,
            fso,
            entry,
            after,
            Ok::<(ObjectPointer, u64, Option<u64>), Error>((pointer, fso3, previous)),
        ),
{
    let tree = Tree::Internal {
        entries: seq![left_link, right_link],
        children: seq![left, right],
    };
    lemma_new_root(scope, entry, left_link, right_link, left, right);
    lemma_root_split(scope, fso as int, entry, left_link, right_link, left, right);
    NodeView::Internal(seq![left_link, right_link]).lemma_byte_len();
    assert(holds(middle, tree, fso2 as int)) by {
        let links = seq![left_link, right_link];
        let kids = seq![left, right];
        assert forall|i: int| 0 <= i < kids.len() implies holds_child(
            middle,
            links[i],
            #[trigger] kids[i],
            fso2 as int,
        ) by {}
    }
    lemma_stored_fresh(middle, after, pointer, tree, fso2 as int);
    lemma_btree_of(after, pointer, tree);
    lemma_sound_height(tree, scope.height + 1, 0, u64::MAX + 1);
    assert(btree_at(after, pointer, tree, scope.height + 1));
}

} // verus!
