//! The tree that an insertion leaves: which nodes are written anew, what
//! each of them holds, and where each comes to stand.

use vstd::prelude::*;
use crate::descent::{child_scope, Scope};
use crate::error::Error;
use crate::node::{
    has_key, insertion_point, sorted_keys, InternalNodeEntry, LeafNodeEntry, NodeEntry,
    BTREE_DEGREE,
};
use crate::object_pointer::{ObjectPointer, ObjectType};
use crate::tree::{route, routes_to, Tree};
use crate::tree_edit::lemma_route_unique;

verus! {

/// The leaf entries `entries` with `entry` put in: over the entry with the
/// same key where there is one, else where the key belongs.
pub open spec fn leaf_put(entries: Seq<LeafNodeEntry>, entry: LeafNodeEntry) -> Seq<LeafNodeEntry> {
    if has_key(entries, entry.key) {
        entries.update(
            choose|i: int| 0 <= i < entries.len() && #[trigger] entries[i].key == entry.key,
            entry,
        )
    } else {
        entries.insert(choose|i: int| insertion_point(entries, entry.key, i), entry)
    }
}

/// The pointer to `tree` when the root node of `tree` is the last node
/// written before `end`.
pub open spec fn pointer_of(tree: Tree, end: int) -> ObjectPointer {
    ObjectPointer {
        offset: (end - tree.node().byte_len()) as u64,
        len: tree.node().byte_len() as u64,
        object_type: tree.kind(),
    }
}

/// The entry that a parent holds for `tree` when the root node of `tree` is
/// the last node written before `end`.
pub open spec fn link_of(tree: Tree, end: int) -> InternalNodeEntry {
    NodeEntry { key: tree.key(0), value: pointer_of(tree, end) }
}

impl Tree {
    /// The tree, of height `height` and with room in its root node, after
    /// `entry` was put into it with the free-space offset at `fso`.
    ///
    /// The pair goes into the leaf to which its key routes. Every node on the
    /// way is written anew, the leaf first and the root last, each right
    /// after the one before it. A full node on the way is cut in two before
    /// the pair goes into one of the halves, and the node above it gets an
    /// entry for each half.
    pub open spec fn put(self, height: nat, entry: LeafNodeEntry, fso: int) -> Tree
        decreases height, 0nat,
    {
        match self {
            Tree::Leaf { entries } => Tree::Leaf { entries: leaf_put(entries, entry) },
            Tree::Internal { entries, children } => {
                let i = route(entries, entry.key);
                if height == 0 || !(0 <= i < children.len()) {
                    self
                } else if children[i].len() == BTREE_DEGREE {
                    let halves = children[i].split_put((height - 1) as nat, entry, fso);
                    let links = children[i].split_links((height - 1) as nat, entry, fso);
                    self.splice(i, i + 1, seq![links.0, links.1], seq![halves.0, halves.1])
                } else {
                    let child = children[i].put((height - 1) as nat, entry, fso);
                    self.splice(
                        i,
                        i + 1,
                        seq![link_of(child, fso + children[i].insert_growth(entry.key))],
                        seq![child],
                    )
                }
            },
        }
    }

    /// The two halves of the full tree after it was cut at `B+1` and `entry`
    /// was put into the half that owns its key: the right half when the key
    /// is not below the first key of that half, else the left one.
    pub open spec fn split_put(self, height: nat, entry: LeafNodeEntry, fso: int) -> (Tree, Tree)
        decreases height, 1nat,
    {
        if entry.key < self.key(3) {
            (self.take(3).put(height, entry, fso), self.skip(3))
        } else {
            (self.take(3), self.skip(3).put(height, entry, fso))
        }
    }

    /// The entries that a parent holds for the two halves of
    /// [`Tree::split_put`]. The half that took the pair is written first, the
    /// other half right after it.
    pub open spec fn split_links(self, height: nat, entry: LeafNodeEntry, fso: int) -> (
        InternalNodeEntry,
        InternalNodeEntry,
    )
        decreases height, 2nat,
    {
        let halves = self.split_put(height, entry, fso);
        if entry.key < self.key(3) {
            let end = fso + self.take(3).insert_growth(entry.key);
            (link_of(halves.0, end), link_of(halves.1, end + halves.1.node().byte_len()))
        } else {
            let end = fso + self.skip(3).insert_growth(entry.key);
            (link_of(halves.0, end + halves.0.node().byte_len()), link_of(halves.1, end))
        }
    }

    /// The tree, of height `height`, after `entry` was put into it at the
    /// root of a store: a full root is cut in two first, and a new root over
    /// the two halves is written last.
    pub open spec fn put_root(self, height: nat, entry: LeafNodeEntry, fso: int) -> Tree {
        if self.len() == BTREE_DEGREE {
            let halves = self.split_put(height, entry, fso);
            let links = self.split_links(height, entry, fso);
            Tree::Internal {
                entries: seq![links.0, links.1],
                children: seq![halves.0, halves.1],
            }
        } else {
            self.put(height, entry, fso)
        }
    }
}

/// The subtree `after` is what [`Tree::put`] makes of the subtree of
/// `scope`, and `link`, the entry for it, says that its root node is the
/// last node written before `fso2`.
pub open spec fn put_at(
    scope: Scope,
    fso: int,
    entry: LeafNodeEntry,
    link: InternalNodeEntry,
    fso2: int,
    after: Tree,
) -> bool {
    &&& after == scope.tree.put(scope.height, entry, fso)
    &&& link == link_of(after, fso2)
    &&& link.value.end() == fso2
}

/// The halves `left` and `right` are what [`Tree::split_put`] makes of the
/// full subtree of `scope`, under the entries of [`Tree::split_links`].
pub open spec fn split_at(
    scope: Scope,
    fso: int,
    entry: LeafNodeEntry,
    left_link: InternalNodeEntry,
    right_link: InternalNodeEntry,
    left: Tree,
    right: Tree,
) -> bool {
    &&& (left, right) == scope.tree.split_put(scope.height, entry, fso)
    &&& (left_link, right_link) == scope.tree.split_links(scope.height, entry, fso)
}

/// Where the outcome of an insertion into the subtree of `scope` stands: the
/// subtree `after` is the one that [`Tree::put`] names, and its root node is
/// the last node written.
pub open spec fn put_placed(
    scope: Scope,
    fso: int,
    entry: LeafNodeEntry,
    r: Result<(InternalNodeEntry, u64, Option<u64>), Error>,
    after: Tree,
) -> bool {
    r matches Ok((link, fso2, _)) ==> put_at(scope, fso, entry, link, fso2 as int, after)
}

/// Where the outcome of an insertion into the full subtree of `scope`
/// stands: the halves are those that [`Tree::split_put`] names, under the
/// entries of [`Tree::split_links`].
pub open spec fn split_placed(
    scope: Scope,
    fso: int,
    entry: LeafNodeEntry,
    r: Result<(InternalNodeEntry, InternalNodeEntry, u64, Option<u64>), Error>,
    left: Tree,
    right: Tree,
) -> bool {
    r matches Ok((left_link, right_link, _, _)) ==> split_at(
        scope,
        fso,
        entry,
        left_link,
        right_link,
        left,
        right,
    )
}

/// What [`crate::node::Node::insert`] makes of sorted leaf entries is what
/// [`leaf_put`] names.
pub proof fn lemma_leaf_put_is(
    before: Seq<LeafNodeEntry>,
    after: Seq<LeafNodeEntry>,
    entry: LeafNodeEntry,
    previous: Option<u64>,
)
    requires
        sorted_keys(before),
        match previous {
            Some(value) => exists|i: int|
                {
                    &&& 0 <= i < before.len()
                    &&& (#[trigger] before[i]).key == entry.key
                    &&& before[i].value == value
                    &&& after == before.update(i, entry)
                },
            None => exists|i: int|
                {
                    &&& 0 <= i <= before.len()
                    &&& after == #[trigger] before.insert(i, entry)
                    &&& sorted_keys(before) ==> insertion_point(before, entry.key, i)
                },
        },
    ensures
        after == leaf_put(before, entry),
{
    match previous {
        Some(value) => {
            let i = choose|i: int|
                {
                    &&& 0 <= i < before.len()
                    &&& (#[trigger] before[i]).key == entry.key
                    &&& before[i].value == value
                    &&& after == before.update(i, entry)
                };
            assert(has_key(before, entry.key));
            let j = choose|j: int| 0 <= j < before.len() && #[trigger] before[j].key == entry.key;
            if i < j {
                assert(before[i].key < before[j].key);
            } else if j < i {
                assert(before[j].key < before[i].key);
            }
        },
        None => {
            let i = choose|i: int|
                {
                    &&& 0 <= i <= before.len()
                    &&& after == #[trigger] before.insert(i, entry)
                    &&& sorted_keys(before) ==> insertion_point(before, entry.key, i)
                };
            assert(insertion_point(before, entry.key, i));
            if has_key(before, entry.key) {
                let k = choose|k: int| 0 <= k < before.len() && #[trigger] before[k].key == entry.key;
                if k < i {
                    assert(before[k].key < entry.key);
                } else {
                    assert(entry.key < before[k].key);
                }
            }
            let j = choose|j: int| insertion_point(before, entry.key, j);
            if i < j {
                assert(before[i].key < entry.key);
                assert(entry.key < before[i].key);
            } else if j < i {
                assert(before[j].key < entry.key);
                assert(entry.key < before[j].key);
            }
        },
    }
}

/// An internal node over a child with room, once the pair went into the
/// child and the node was written right after it, is the tree that
/// [`Tree::put`] names.
pub proof fn lemma_placed_one(
    scope: Scope,
    fso: int,
    entry: LeafNodeEntry,
    i: int,
    link: InternalNodeEntry,
    fso2: u64,
    previous: Option<u64>,
    child2: Tree,
    pointer: ObjectPointer,
    fso3: u64,
)
    requires
        scope.tree is Internal,
        scope.tree.sound(scope.height, scope.lo, scope.hi),
        routes_to(scope.tree->Internal_entries, entry.key, i),
        child_scope(scope, i).tree.len() < BTREE_DEGREE,
        put_placed(
            child_scope(scope, i),
            fso,
            entry,
            Ok::<(InternalNodeEntry, u64, Option<u64>), Error>((link, fso2, previous)),
            child2,
        ),
        fso2 == fso + child_scope(scope, i).tree.insert_growth(entry.key),
        pointer.offset == fso2,
        pointer.len == 25 * scope.tree.len(),
        pointer.object_type == ObjectType::InternalNode,
        fso3 == fso2 + 25 * scope.tree.len(),
    ensures
        put_placed(
            scope,
            fso,
            entry,
            Ok::<(InternalNodeEntry, u64, Option<u64>), Error>(
                (
                    NodeEntry {
                        key: scope.tree.splice(i, i + 1, seq![link], seq![child2]).key(0),
                        value: pointer,
                    },
                    fso3,
                    previous,
                ),
            ),
            scope.tree.splice(i, i + 1, seq![link], seq![child2]),
        ),
{
    lemma_route_unique(scope.tree->Internal_entries, entry.key, i);
    let after = scope.tree.splice(i, i + 1, seq![link], seq![child2]);
    assert(after->Internal_entries.len() == scope.tree.len());
}

/// An internal node over a full child, once the child was cut in two, the
/// pair went into one half, and the node was written right after the halves,
/// is the tree that [`Tree::put`] names.
pub proof fn lemma_placed_two(
    scope: Scope,
    fso: int,
    entry: LeafNodeEntry,
    i: int,
    left_link: InternalNodeEntry,
    right_link: InternalNodeEntry,
    fso2: u64,
    previous: Option<u64>,
    left: Tree,
    right: Tree,
    pointer: ObjectPointer,
    fso3: u64,
)
    requires
        scope.tree is Internal,
        scope.tree.sound(scope.height, scope.lo, scope.hi),
        routes_to(scope.tree->Internal_entries, entry.key, i),
        child_scope(scope, i).tree.len() == BTREE_DEGREE,
        split_placed(
            child_scope(scope, i),
            fso,
            entry,
            Ok::<(InternalNodeEntry, InternalNodeEntry, u64, Option<u64>), Error>(
                (left_link, right_link, fso2, previous),
            ),
            left,
            right,
        ),
        pointer.offset == fso2,
        pointer.len == 25 * (scope.tree.len() + 1),
        pointer.object_type == ObjectType::InternalNode,
        fso3 == fso2 + 25 * (scope.tree.len() + 1),
    ensures
        put_placed(
            scope,
            fso,
            entry,
            Ok::<(InternalNodeEntry, u64, Option<u64>), Error>(
                (
                    NodeEntry {
                        key: scope.tree.splice(
                            i,
                            i + 1,
                            seq![left_link, right_link],
                            seq![left, right],
                        ).key(0),
                        value: pointer,
                    },
                    fso3,
                    previous,
                ),
            ),
            scope.tree.splice(i, i + 1, seq![left_link, right_link], seq![left, right]),
        ),
{
    lemma_route_unique(scope.tree->Internal_entries, entry.key, i);
    let after = scope.tree.splice(i, i + 1, seq![left_link, right_link], seq![left, right]);
    assert(after->Internal_entries.len() == scope.tree.len() + 1);
}

/// A leaf, once the pair went into it and it was written, is the tree that
/// [`Tree::put`] names.
pub proof fn lemma_placed_leaf(
    scope: Scope,
    fso: int,
    entry: LeafNodeEntry,
    after: Seq<LeafNodeEntry>,
    previous: Option<u64>,
    pointer: ObjectPointer,
    fso2: u64,
)
    requires
        scope.tree is Leaf,
        after == leaf_put(scope.tree->Leaf_entries, entry),
        after.len() > 0,
        0 <= fso,
        pointer.offset == fso,
        pointer.len == 16 * after.len(),
        pointer.object_type == ObjectType::LeafNode,
        fso2 == fso + 16 * after.len(),
    ensures
        put_placed(
            scope,
            fso,
            entry,
            Ok::<(InternalNodeEntry, u64, Option<u64>), Error>(
                (NodeEntry { key: after[0].key, value: pointer }, fso2, previous),
            ),
            Tree::Leaf { entries: after },
        ),
{
}

/// The halves of a full node, once the pair went into the left half and the
/// right half was written right after it, are those that
/// [`Tree::split_put`] names.
pub proof fn lemma_placed_left(
    scope: Scope,
    fso: int,
    entry: LeafNodeEntry,
    left_link: InternalNodeEntry,
    fso2: u64,
    previous: Option<u64>,
    left: Tree,
    pointer: ObjectPointer,
    fso3: u64,
)
    requires
        entry.key < scope.tree.key(3),
        scope.tree.len() > 3,
        put_placed(
            Scope { tree: scope.tree.take(3), height: scope.height, lo: scope.lo, hi: scope.tree.key(3) as int },
            fso,
            entry,
            Ok::<(InternalNodeEntry, u64, Option<u64>), Error>((left_link, fso2, previous)),
            left,
        ),
        fso2 == fso + scope.tree.take(3).insert_growth(entry.key),
        pointer.offset == fso2,
        pointer.len == scope.tree.skip(3).node().byte_len(),
        pointer.object_type == scope.tree.kind(),
        fso3 == fso2 + scope.tree.skip(3).node().byte_len(),
    ensures
        split_placed(
            scope,
            fso,
            entry,
            Ok::<(InternalNodeEntry, InternalNodeEntry, u64, Option<u64>), Error>(
                (
                    left_link,
                    NodeEntry { key: scope.tree.key(3), value: pointer },
                    fso3,
                    previous,
                ),
            ),
            left,
            scope.tree.skip(3),
        ),
{
    let back = scope.tree.skip(3);
    match scope.tree {
        Tree::Leaf { entries } => {
            assert(entries.skip(3)[0] == entries[3]);
        },
        Tree::Internal { entries, .. } => {
            assert(entries.skip(3)[0] == entries[3]);
        },
    }
    assert(back.key(0) == scope.tree.key(3));
    assert(back.kind() == scope.tree.kind());
}

/// The halves of a full node, once the pair went into the right half and
/// the left half was written right after it, are those that
/// [`Tree::split_put`] names.
pub proof fn lemma_placed_right(
    scope: Scope,
    fso: int,
    entry: LeafNodeEntry,
    right_link: InternalNodeEntry,
    fso2: u64,
    previous: Option<u64>,
    right: Tree,
    pointer: ObjectPointer,
    fso3: u64,
)
    requires
        entry.key >= scope.tree.key(3),
        scope.tree.len() > 3,
        put_placed(
            Scope { tree: scope.tree.skip(3), height: scope.height, lo: scope.tree.key(3) as int, hi: scope.hi },
            fso,
            entry,
            Ok::<(InternalNodeEntry, u64, Option<u64>), Error>((right_link, fso2, previous)),
            right,
        ),
        fso2 == fso + scope.tree.skip(3).insert_growth(entry.key),
        pointer.offset == fso2,
        pointer.len == scope.tree.take(3).node().byte_len(),
        pointer.object_type == scope.tree.kind(),
        fso3 == fso2 + scope.tree.take(3).node().byte_len(),
    ensures
        split_placed(
            scope,
            fso,
            entry,
            Ok::<(InternalNodeEntry, InternalNodeEntry, u64, Option<u64>), Error>(
                (
                    NodeEntry { key: scope.tree.key(0), value: pointer },
                    right_link,
                    fso3,
                    previous,
                ),
            ),
            scope.tree.take(3),
            right,
        ),
{
    let front = scope.tree.take(3);
    match scope.tree {
        Tree::Leaf { entries } => {
            assert(entries.take(3)[0] == entries[0]);
        },
        Tree::Internal { entries, .. } => {
            assert(entries.take(3)[0] == entries[0]);
        },
    }
    assert(front.key(0) == scope.tree.key(0));
    assert(front.kind() == scope.tree.kind());
}

/// What an insertion at the root leaves when the root has room.
pub proof fn lemma_root_put(
    scope: Scope,
    fso: int,
    entry: LeafNodeEntry,
    link: InternalNodeEntry,
    fso2: int,
    after: Tree,
)
    requires
        put_at(scope, fso, entry, link, fso2, after),
        scope.tree.len() != BTREE_DEGREE,
    ensures
        after == scope.tree.put_root(scope.height, entry, fso),
        link.value.end() == fso2,
{
}

/// What an insertion at the root leaves when the root is full: a new root
/// over the two halves.
pub proof fn lemma_root_split(
    scope: Scope,
    fso: int,
    entry: LeafNodeEntry,
    left_link: InternalNodeEntry,
    right_link: InternalNodeEntry,
    left: Tree,
    right: Tree,
)
    requires
        split_at(scope, fso, entry, left_link, right_link, left, right),
        scope.tree.len() == BTREE_DEGREE,
    ensures
        (Tree::Internal { entries: seq![left_link, right_link], children: seq![left, right] })
            == scope.tree.put_root(scope.height, entry, fso),
{
}

} // verus!
