//! The tree that a removal leaves: which nodes are joined or have entries
//! moved between them, which are written anew, and where each comes to
//! stand.

use vstd::prelude::*;
use crate::descent::{child_scope, Scope};
use crate::error::Error;
use crate::merge_proofs::{
    lemma_merged_scope, lemma_shifted_sound, merged_scope, pair_start, remove_growth, shifted,
    shifted_child, shifted_links, shifted_neighbor, shifted_pair,
};
use crate::node::{
    has_key, insertion_point, sorted_keys, InternalNodeEntry, LeafNodeEntry, NodeEntry, BTREE_B,
    BTREE_DEGREE,
};
use crate::object::NodeView;
use crate::object_pointer::{ObjectPointer, ObjectType};
use crate::remove_proofs::{cut_sound, pair_read, shift_ready};
use crate::sorted::lemma_insertion_point_absent;
use crate::tree::{route, routes_to, upper, Tree};
use crate::tree_edit::{
    lemma_cut_exact, lemma_cut_sound, lemma_flat_parts, lemma_join_sound, lemma_route_exists,
    lemma_route_unique, lemma_splice_exact,
};
use crate::tree_proofs::{lemma_flat_of_empty, lemma_flat_of_one};
use crate::tree_put::{link_of, pointer_of};

verus! {

/// The leaf entries `entries` without the entry of `key`, if there is one.
pub open spec fn leaf_cut(entries: Seq<LeafNodeEntry>, key: u64) -> Seq<LeafNodeEntry> {
    if has_key(entries, key) {
        entries.remove(choose|i: int| 0 <= i < entries.len() && #[trigger] entries[i].key == key)
    } else {
        entries
    }
}

impl Tree {
    /// The tree, of height `height`, after `key` was taken out of it with
    /// the free-space offset at `fso`, and the height that it then has.
    ///
    /// The key leaves the leaf to which it routes. Every node on the way is
    /// written anew, the leaf first and the root last, each right after the
    /// one before it, and the entry for each gets the first key of the node
    /// as it now is. A node on the way with no entry to spare is first put
    /// together with a neighbour, the one before it if there is one: the two
    /// are joined when both fit into one node, else half of the entries of the
    /// neighbour are moved over, and the neighbour is written right after the
    /// node that the key left. A node of two entries whose subtrees were
    /// joined is not written: the joined subtree takes its place, one level
    /// lower.
    pub open spec fn cut(self, height: nat, key: u64, fso: int) -> (Tree, nat)
        decreases height,
    {
        match self {
            Tree::Leaf { entries } => (Tree::Leaf { entries: leaf_cut(entries, key) }, 0),
            Tree::Internal { entries, children } => {
                let scope = Scope { tree: self, height, lo: 0, hi: 0 };
                let i = route(entries, key);
                let from_left = i > 0;
                let a = pair_start(i);
                if height == 0 || !(0 <= i < children.len()) {
                    (self, height)
                } else if children[i].len() > BTREE_B {
                    let below = children[i].cut((height - 1) as nat, key, fso).0;
                    let end = fso + remove_growth(children[i], (height - 1) as nat, key);
                    (
                        self.splice(
                            i,
                            i + 1,
                            seq![link_of(below, end)],
                            seq![below],
                        ),
                        height,
                    )
                } else if !(a + 1 < children.len()) {
                    (self, height)
                } else if children[a].len() + children[a + 1].len() <= BTREE_DEGREE {
                    let joined = merged_scope(scope, a).tree;
                    let below = joined.cut((height - 1) as nat, key, fso).0;
                    let end = fso + remove_growth(joined, (height - 1) as nat, key);
                    if entries.len() > 2 {
                        (
                            self.splice(
                                a,
                                a + 2,
                                seq![link_of(below, end)],
                                seq![below],
                            ),
                            height,
                        )
                    } else {
                        (below, (height - 1) as nat)
                    }
                } else {
                    let filled = shifted_child(scope, a, from_left).tree;
                    let neighbor = shifted_neighbor(scope, a, from_left);
                    let below = filled.cut((height - 1) as nat, key, fso).0;
                    let end = fso + remove_growth(filled, (height - 1) as nat, key);
                    let pair = shifted_pair(scope, a, from_left, below);
                    (
                        self.splice(
                            a,
                            a + 2,
                            shifted_links(
                                scope,
                                a,
                                from_left,
                                below.key(0),
                                pointer_of(below, end),
                                pointer_of(neighbor, end + neighbor.node().byte_len()),
                            ),
                            seq![pair.0, pair.1],
                        ),
                        height,
                    )
                }
            },
        }
    }
}

impl Tree {
    /// The tree, of height `height`, after `key` was taken out of it at the
    /// root of a store, and the height that it then has: a key below the
    /// first key of the root leaves the tree as it is.
    pub open spec fn cut_root(self, height: nat, key: u64, fso: int) -> (Tree, nat) {
        if self.len() > 0 && key < self.key(0) {
            (self, height)
        } else {
            self.cut(height, key, fso)
        }
    }
}

/// The subtree `after`, of height `after_height`, is what [`Tree::cut`]
/// makes of the subtree of `scope`, and `pointer` says that its root node
/// is the last node written before `fso2`.
#[verifier::opaque]
pub open spec fn cut_at(
    scope: Scope,
    fso: int,
    key: u64,
    pointer: ObjectPointer,
    fso2: int,
    after: Tree,
    after_height: nat,
) -> bool {
    &&& (after, after_height) == scope.tree.cut(scope.height, key, fso)
    &&& pointer == pointer_of(after, fso2)
}

/// Where the outcome of a removal from the subtree of `scope` stands: the
/// subtree `after` is the one that [`Tree::cut`] names, and its root node is
/// the last node written.
pub open spec fn cut_placed(
    scope: Scope,
    fso: int,
    key: u64,
    r: Result<(ObjectPointer, u64, Option<u64>), Error>,
    after: Tree,
    after_height: nat,
) -> bool {
    r matches Ok((pointer, fso2, _)) ==> cut_at(
        scope,
        fso,
        key,
        pointer,
        fso2 as int,
        after,
        after_height,
    )
}

/// A leaf, once the key was taken out of it and it was written, is the tree
/// that [`Tree::cut`] names.
pub proof fn lemma_cut_placed_leaf(
    scope: Scope,
    fso: int,
    key: u64,
    after: Seq<LeafNodeEntry>,
    found: Result<usize, usize>,
    pointer: ObjectPointer,
    fso2: u64,
)
    requires
        scope.tree matches Tree::Leaf { entries: before } && sorted_keys(before) && match found {
            Ok(i) => i < before.len() && before[i as int].key == key && after == before.remove(
                i as int,
            ),
            Err(i) => insertion_point(before, key, i as int) && after == before,
        },
        0 <= fso,
        pointer.offset == fso,
        pointer.len == 16 * after.len(),
        pointer.object_type == ObjectType::LeafNode,
        fso2 == fso + 16 * after.len(),
    ensures
        cut_at(scope, fso, key, pointer, fso2 as int, Tree::Leaf { entries: after }, 0),
{
    reveal(cut_at);
    let before = scope.tree->Leaf_entries;
    match found {
        Ok(i) => {
            assert(has_key(before, key));
            let j = choose|j: int| 0 <= j < before.len() && #[trigger] before[j].key == key;
            if i < j {
                assert(before[i as int].key < before[j].key);
            } else if j < i {
                assert(before[j].key < before[i as int].key);
            }
        },
        Err(i) => {
            lemma_insertion_point_absent(before, key, i as int);
        },
    }
}

/// An internal node over a child with entries to spare, once the key was
/// taken out of the child and the node was written right after it, is the
/// tree that [`Tree::cut`] names.
pub proof fn lemma_cut_placed_one(
    faultless: bool,
    device: Seq<u8>,
    scope: Scope,
    fso: int,
    key: u64,
    i: int,
    child_pointer: ObjectPointer,
    fso2: u64,
    removed: Option<u64>,
    child2: Tree,
    child_height: nat,
    link_key: u64,
    pointer: ObjectPointer,
    fso3: u64,
)
    requires
        scope.tree is Internal,
        scope.tree.sound(scope.height, scope.lo, scope.hi),
        routes_to(scope.tree->Internal_entries, key, i),
        child_scope(scope, i).tree.len() > BTREE_B,
        link_key == child2.first_key(),
        cut_sound(
            faultless,
            device,
            child_scope(scope, i),
            fso,
            key,
            Ok::<(ObjectPointer, u64, Option<u64>), Error>((child_pointer, fso2, removed)),
            child2,
            child_height,
        ),
        cut_at(child_scope(scope, i), fso, key, child_pointer, fso2 as int, child2, child_height),
        pointer.offset == fso2,
        pointer.len == 25 * scope.tree.len(),
        pointer.object_type == ObjectType::InternalNode,
        fso3 == fso2 + 25 * scope.tree.len(),
    ensures
        cut_at(
            scope,
            fso,
            key,
            pointer,
            fso3 as int,
            scope.tree.splice(
                i,
                i + 1,
                seq![NodeEntry { key: link_key, value: child_pointer }],
                seq![child2],
            ),
            scope.height,
        ),
{
    reveal(cut_at);
    reveal(cut_sound);
    lemma_route_unique(scope.tree->Internal_entries, key, i);
    let after = scope.tree.splice(
        i,
        i + 1,
        seq![NodeEntry { key: link_key, value: child_pointer }],
        seq![child2],
    );
    assert(after->Internal_entries.len() == scope.tree.len());
}

/// An internal node over two children that were joined, once the key was
/// taken out of the joined child, is the tree that [`Tree::cut`] names:
/// the node with one entry for the two, written right after the child, or
/// the child itself when the node had no other entry.
pub proof fn lemma_cut_placed_merged(
    faultless: bool,
    start: Seq<u8>,
    device: Seq<u8>,
    node: Seq<InternalNodeEntry>,
    scope: Scope,
    limit: int,
    fso: int,
    key: u64,
    a: int,
    left: NodeView,
    right: NodeView,
    sub_limit: int,
    index: int,
    child_pointer: ObjectPointer,
    fso2: u64,
    removed: Option<u64>,
    child2: Tree,
    child_height: nat,
    link_key: u64,
    pointer: ObjectPointer,
    fso3: u64,
)
    requires
        pair_read(start, node, scope, limit, fso, key, a, left, right, sub_limit, index),
        link_key == child2.first_key(),
        left.len() + right.len() <= BTREE_DEGREE,
        cut_sound(
            faultless,
            device,
            merged_scope(scope, a),
            fso,
            key,
            Ok::<(ObjectPointer, u64, Option<u64>), Error>((child_pointer, fso2, removed)),
            child2,
            child_height,
        ),
        cut_at(merged_scope(scope, a), fso, key, child_pointer, fso2 as int, child2, child_height),
        node.len() > 2 ==> {
            &&& pointer.offset == fso2
            &&& pointer.len == 25 * (node.len() - 1)
            &&& pointer.object_type == ObjectType::InternalNode
            &&& fso3 == fso2 + 25 * (node.len() - 1)
        },
    ensures
        node.len() > 2 ==> cut_at(
            scope,
            fso,
            key,
            pointer,
            fso3 as int,
            scope.tree.splice(
                a,
                a + 2,
                seq![NodeEntry { key: link_key, value: child_pointer }],
                seq![child2],
            ),
            scope.height,
        ),
        node.len() == 2 ==> cut_at(
            scope,
            fso,
            key,
            child_pointer,
            fso2 as int,
            child2,
            (scope.height - 1) as nat,
        ),
{
    reveal(cut_at);
    reveal(cut_sound);
    reveal(pair_read);
    lemma_merged_scope(start, scope, limit, a, sub_limit);
    lemma_route_unique(scope.tree->Internal_entries, key, index);
    let after = scope.tree.splice(
        a,
        a + 2,
        seq![NodeEntry { key: link_key, value: child_pointer }],
        seq![child2],
    );
    assert(after->Internal_entries.len() == scope.tree.len() - 1);
}

/// An internal node over two children between which entries were moved,
/// once the key was taken out of the child that received them, the other
/// child was written right after it and the node right after both, is the
/// tree that [`Tree::cut`] names.
pub proof fn lemma_cut_placed_shifted(
    faultless: bool,
    start: Seq<u8>,
    device: Seq<u8>,
    node: Seq<InternalNodeEntry>,
    scope: Scope,
    limit: int,
    fso: int,
    key: u64,
    a: int,
    left: NodeView,
    right: NodeView,
    sub_limit: int,
    from_left: bool,
    child_pointer: ObjectPointer,
    fso2: u64,
    removed: Option<u64>,
    child2: Tree,
    child_height: nat,
    link_key: u64,
    neighbor: NodeView,
    neighbor_pointer: ObjectPointer,
    fso3: u64,
    pointer: ObjectPointer,
    fso4: u64,
)
    requires
        shift_ready(start, node, scope, limit, fso, key, a, left, right, sub_limit, from_left),
        child2.len() > 0,
        link_key == child2.first_key(),
        neighbor == shifted_neighbor(scope, a, from_left).node(),
        cut_sound(
            faultless,
            device,
            shifted_child(scope, a, from_left),
            fso,
            key,
            Ok::<(ObjectPointer, u64, Option<u64>), Error>((child_pointer, fso2, removed)),
            child2,
            child_height,
        ),
        cut_at(
            shifted_child(scope, a, from_left),
            fso,
            key,
            child_pointer,
            fso2 as int,
            child2,
            child_height,
        ),
        neighbor_pointer.offset == fso2,
        neighbor_pointer.len == neighbor.byte_len(),
        neighbor_pointer.object_type == neighbor.kind(),
        fso3 == fso2 + neighbor.byte_len(),
        pointer.offset == fso3,
        pointer.len == 25 * node.len(),
        pointer.object_type == ObjectType::InternalNode,
        fso4 == fso3 + 25 * node.len(),
    ensures
        cut_at(
            scope,
            fso,
            key,
            pointer,
            fso4 as int,
            scope.tree.splice(
                a,
                a + 2,
                shifted_links(scope, a, from_left, link_key, child_pointer, neighbor_pointer),
                seq![
                    shifted_pair(scope, a, from_left, child2).0,
                    shifted_pair(scope, a, from_left, child2).1,
                ],
            ),
            scope.height,
        ),
{
    reveal(cut_at);
    reveal(cut_sound);
    reveal(shift_ready);
    reveal(pair_read);
    assert(shifted_neighbor(scope, a, from_left).kind() == neighbor.kind()) by {
        match shifted_neighbor(scope, a, from_left) {
            Tree::Leaf { .. } => {},
            Tree::Internal { .. } => {},
        }
    }
    let index = if from_left {
        a + 1
    } else {
        a
    };
    lemma_route_unique(scope.tree->Internal_entries, key, index);
    let after = scope.tree.splice(
        a,
        a + 2,
        shifted_links(scope, a, from_left, link_key, child_pointer, neighbor_pointer),
        seq![shifted_pair(scope, a, from_left, child2).0, shifted_pair(scope, a, from_left, child2).1],
    );
    assert(after->Internal_entries.len() == scope.tree.len());
}

/// The first key of a tree with exact keys is the first of its in-order
/// entries.
pub proof fn lemma_first_of_exact(tree: Tree)
    requires
        tree.exact(),
        tree.len() > 0,
        tree is Internal ==> tree.children().len() == tree.len(),
    ensures
        tree.flat().len() > 0,
        tree.key(0) == tree.flat()[0].key,
{
    match tree {
        Tree::Leaf { .. } => {},
        Tree::Internal { entries, children } => {
            lemma_flat_parts(tree, 0, 1);
            assert(children.take(0) == Seq::<Tree>::empty());
            assert(children.subrange(0, 1) == seq![children[0]]);
            lemma_flat_of_one(children[0]);
            lemma_flat_of_empty();
            assert(children[0].exact());
        },
    }
}

/// Two trees with exact keys, joined, have exact keys.
pub proof fn lemma_join_exact(left: Tree, right: Tree)
    requires
        left.exact(),
        right.exact(),
        left is Leaf == right is Leaf,
        left is Internal ==> left.children().len() == left.len(),
        right is Internal ==> right.children().len() == right.len(),
    ensures
        left.join(right).exact(),
        left.join(right) is Internal ==> left.join(right).children().len() == left.join(
            right,
        ).len(),
{
    match (left, right) {
        (
            Tree::Internal { entries: e1, children: c1 },
            Tree::Internal { entries: e2, children: c2 },
        ) => {
            let entries = e1 + e2;
            let children = c1 + c2;
            assert forall|i: int| 0 <= i < children.len() implies {
                &&& (#[trigger] children[i]).exact()
                &&& children[i].flat().len() > 0
                &&& entries[i].key == children[i].flat()[0].key
            } by {
                if i < c1.len() {
                    assert(children[i] == c1[i]);
                    assert(c1[i].exact());
                } else {
                    assert(children[i] == c2[i - c1.len()]);
                    assert(c2[i - c1.len()].exact());
                }
            }
        },
        _ => {},
    }
}

/// A node with exact keys keeps them when a block of its entries is
/// replaced by subtrees with exact keys, each under its first key.
proof fn lemma_patched_exact(
    tree: Tree,
    a: int,
    b: int,
    links: Seq<InternalNodeEntry>,
    kids: Seq<Tree>,
)
    requires
        tree is Internal,
        tree.exact(),
        tree.children().len() == tree.len(),
        0 <= a <= b <= tree.len(),
        links.len() == kids.len(),
        forall|j: int|
            0 <= j < kids.len() ==> {
                &&& (#[trigger] kids[j]).exact()
                &&& kids[j].flat().len() > 0
                &&& links[j].key == kids[j].flat()[0].key
            },
    ensures
        tree.splice(a, b, links, kids).exact(),
        tree.splice(a, b, links, kids).children().len() == tree.splice(a, b, links, kids).len(),
        tree.splice(a, b, links, kids).len() == tree.len() - (b - a) + links.len(),
{
    lemma_splice_exact(tree, a, b, links, kids);
}

/// `after` has exact keys, as many subtrees as entries, and at least two
/// entries when `tree` had three.
pub open spec fn exact_kept(tree: Tree, after: Tree) -> bool {
    &&& after.exact()
    &&& after is Internal ==> after.children().len() == after.len()
    &&& tree.len() >= 3 ==> after.len() >= 2
}

/// [`lemma_cut_keeps_exact`] for an internal node over a child with entries
/// to spare, once it holds of the child.
proof fn lemma_exact_one(tree: Tree, height: nat, lo: int, hi: int, key: u64, fso: int)
    requires
        tree is Internal,
        tree.sound(height, lo, hi),
        tree.len() > 0,
        tree.exact(),
        tree.children()[route(tree->Internal_entries, key)].len() > BTREE_B,
        exact_kept(
            tree.children()[route(tree->Internal_entries, key)],
            tree.children()[route(tree->Internal_entries, key)].cut(
                (height - 1) as nat,
                key,
                fso,
            ).0,
        ),
    ensures
        exact_kept(tree, tree.cut(height, key, fso).0),
{
    let entries = tree->Internal_entries;
    let children = tree->Internal_children;
    lemma_route_exists(entries, key);
    let i = route(entries, key);
    let below = (height - 1) as nat;
    let kid = children[i].cut(below, key, fso).0;
    let end = fso + remove_growth(children[i], below, key);
    lemma_first_of_exact(kid);
    lemma_patched_exact(tree, i, i + 1, seq![link_of(kid, end)], seq![kid]);
}

/// [`lemma_cut_keeps_exact`] for an internal node over two children that
/// are joined, once it holds of the joined child.
proof fn lemma_exact_merged(tree: Tree, height: nat, lo: int, hi: int, key: u64, fso: int, a: int)
    requires
        tree is Internal,
        tree.sound(height, lo, hi),
        tree.len() > 0,
        tree.exact(),
        a == pair_start(route(tree->Internal_entries, key)),
        tree.children()[route(tree->Internal_entries, key)].len() <= BTREE_B,
        a + 1 < tree.len(),
        tree.children()[a].len() + tree.children()[a + 1].len() <= BTREE_DEGREE,
        tree.children()[a].join(tree.children()[a + 1]).len() >= 3,
        exact_kept(
            tree.children()[a].join(tree.children()[a + 1]),
            tree.children()[a].join(tree.children()[a + 1]).cut((height - 1) as nat, key, fso).0,
        ),
    ensures
        exact_kept(tree, tree.cut(height, key, fso).0),
{
    let entries = tree->Internal_entries;
    let children = tree->Internal_children;
    lemma_route_exists(entries, key);
    let below = (height - 1) as nat;
    let joined = children[a].join(children[a + 1]);
    let kid = joined.cut(below, key, fso).0;
    let end = fso + remove_growth(joined, below, key);
    if entries.len() > 2 {
        lemma_first_of_exact(kid);
        lemma_patched_exact(tree, a, a + 2, seq![link_of(kid, end)], seq![kid]);
    }
}

/// [`lemma_cut_keeps_exact`] for an internal node over two children between
/// which entries are moved, once it holds of the child that receives them.
proof fn lemma_exact_moved(
    tree: Tree,
    height: nat,
    lo: int,
    hi: int,
    key: u64,
    fso: int,
    a: int,
    from_left: bool,
)
    requires
        tree is Internal,
        tree.sound(height, lo, hi),
        tree.len() > 0,
        tree.exact(),
        from_left == (route(tree->Internal_entries, key) > 0),
        a == pair_start(route(tree->Internal_entries, key)),
        tree.children()[route(tree->Internal_entries, key)].len() <= BTREE_B,
        a + 1 < tree.len(),
        tree.children()[a].len() + tree.children()[a + 1].len() > BTREE_DEGREE,
        ({
            let pair = shifted(tree, a, from_left);
            let filled = if from_left {
                pair.1
            } else {
                pair.0
            };
            &&& filled.len() >= 3
            &&& from_left ==> pair.0.exact() && pair.0.flat().len() > 0 && pair.0.flat()[0].key
                == tree.key(a)
            &&& !from_left ==> pair.1.exact() && pair.1.flat().len() > 0 && pair.1.flat()[0].key
                == pair.1.key(0)
            &&& exact_kept(filled, filled.cut((height - 1) as nat, key, fso).0)
        }),
    ensures
        exact_kept(tree, tree.cut(height, key, fso).0),
{
    let entries = tree->Internal_entries;
    let scope = Scope { tree, height, lo: 0, hi: 0 };
    lemma_route_exists(entries, key);
    let below = (height - 1) as nat;
    let filled = shifted_child(scope, a, from_left).tree;
    let neighbor = shifted_neighbor(scope, a, from_left);
    let kid = filled.cut(below, key, fso).0;
    let end = fso + remove_growth(filled, below, key);
    let pair = shifted_pair(scope, a, from_left, kid);
    let links = shifted_links(
        scope,
        a,
        from_left,
        kid.key(0),
        pointer_of(kid, end),
        pointer_of(neighbor, end + neighbor.node().byte_len()),
    );
    let kids = seq![pair.0, pair.1];
    lemma_first_of_exact(kid);
    assert forall|j: int| 0 <= j < kids.len() implies {
        &&& (#[trigger] kids[j]).exact()
        &&& kids[j].flat().len() > 0
        &&& links[j].key == kids[j].flat()[0].key
    } by {}
    lemma_patched_exact(tree, a, a + 2, links, kids);
}

/// Two neighbouring subtrees of a sound node with exact keys, joined, are a
/// sound tree with exact keys and at least four entries.
proof fn lemma_exact_joined(tree: Tree, height: nat, lo: int, hi: int, a: int)
    requires
        tree is Internal,
        tree.sound(height, lo, hi),
        tree.exact(),
        0 <= a,
        a + 1 < tree.len(),
    ensures
        ({
            let joined = tree.children()[a].join(tree.children()[a + 1]);
            &&& joined.sound(
                (height - 1) as nat,
                tree.key(a) as int,
                upper(tree->Internal_entries, a + 1, hi),
            )
            &&& joined.exact()
            &&& joined.len() >= 3
        }),
{
    let entries = tree->Internal_entries;
    let children = tree->Internal_children;
    let below = (height - 1) as nat;
    let left = children[a];
    let right = children[a + 1];
    let from = entries[a].key as int;
    let border = entries[a + 1].key as int;
    let to = upper(entries, a + 1, hi);
    assert(left.sound(below, from, upper(entries, a, hi)));
    assert(right.sound(below, border, to));
    assert(upper(entries, a, hi) == border);
    assert(left.exact() && right.exact());
    assert(lo <= entries[a].key < hi);
    assert(lo <= entries[a + 1].key < hi);
    assert(entries[a].key < entries[a + 1].key);
    assert(border < to) by {
        if a + 2 < entries.len() {
            assert(entries[a + 1].key < entries[a + 2].key);
        }
    }
    lemma_join_sound(left, right, below, from, border, to);
    lemma_join_exact(left, right);
}

/// After entries were moved between two neighbouring subtrees of a sound
/// node with exact keys, the subtree that received them is sound, has exact
/// keys and four entries; the other has exact keys, and starts with the key
/// of its entry when it is the first of the two, with its own first key
/// when it is the second.
proof fn lemma_exact_shifted(
    tree: Tree,
    height: nat,
    lo: int,
    hi: int,
    a: int,
    from_left: bool,
) -> (bounds: (int, int))
    requires
        tree is Internal,
        tree.sound(height, lo, hi),
        tree.exact(),
        0 <= a,
        a + 1 < tree.len(),
        tree.children()[a].len() + tree.children()[a + 1].len() > BTREE_DEGREE,
        from_left ==> tree.children()[a + 1].len() <= BTREE_B,
        !from_left ==> tree.children()[a].len() <= BTREE_B,
    ensures
        ({
            let pair = shifted(tree, a, from_left);
            let filled = if from_left {
                pair.1
            } else {
                pair.0
            };
            &&& filled.sound((height - 1) as nat, bounds.0, bounds.1)
            &&& filled.len() >= 3
            &&& filled.exact()
            &&& from_left ==> pair.0.exact() && pair.0.flat().len() > 0 && pair.0.flat()[0].key
                == tree.key(a)
            &&& !from_left ==> pair.1.exact() && pair.1.flat().len() > 0 && pair.1.flat()[0].key
                == pair.1.key(0)
        }),
{
    let bounds = lemma_shifted_sound(tree, height, lo, hi, a, from_left);
    reveal(shifted);
    let entries = tree->Internal_entries;
    let children = tree->Internal_children;
    let below = (height - 1) as nat;
    let left = children[a];
    let right = children[a + 1];
    let from = entries[a].key as int;
    let border = entries[a + 1].key as int;
    let to = upper(entries, a + 1, hi);
    assert(left.sound(below, from, upper(entries, a, hi)));
    assert(right.sound(below, border, to));
    assert(upper(entries, a, hi) == border);
    assert(left.exact() && right.exact());
    if from_left {
        let keep = left.len() - left.len() / 2;
        lemma_cut_sound(left, below, from, border, keep);
        lemma_cut_exact(left, keep);
        match left {
            Tree::Leaf { entries: own } => {
                assert(own.take(keep)[0] == own[0]);
            },
            Tree::Internal { entries: own, .. } => {
                assert(own.take(keep)[0] == own[0]);
            },
        }
        lemma_join_exact(left.skip(keep), right);
        lemma_first_of_exact(left);
        lemma_first_of_exact(left.take(keep));
    } else {
        let moved = (right.len() / 2) as int;
        lemma_cut_sound(right, below, border, to, moved);
        lemma_cut_exact(right, moved);
        lemma_join_exact(left, right.take(moved));
        lemma_first_of_exact(right.skip(moved));
    }
    bounds
}

/// Taking a key out of a tree with exact keys leaves a tree with exact
/// keys.
pub proof fn lemma_cut_keeps_exact(tree: Tree, height: nat, lo: int, hi: int, key: u64, fso: int)
    requires
        tree.sound(height, lo, hi),
        tree.exact(),
    ensures
        exact_kept(tree, tree.cut(height, key, fso).0),
    decreases height,
{
    match tree {
        Tree::Leaf { entries } => {},
        Tree::Internal { entries, children } => {
            if entries.len() > 0 {
                lemma_route_exists(entries, key);
                let i = route(entries, key);
                let from_left = i > 0;
                let a = pair_start(i);
                let below = (height - 1) as nat;
                if children[i].len() > BTREE_B {
                    assert(children[i].sound(below, entries[i].key as int, upper(entries, i, hi)));
                    assert(children[i].exact());
                    lemma_cut_keeps_exact(
                        children[i],
                        below,
                        entries[i].key as int,
                        upper(entries, i, hi),
                        key,
                        fso,
                    );
                    lemma_exact_one(tree, height, lo, hi, key, fso);
                } else if a + 1 < children.len() {
                    if children[a].len() + children[a + 1].len() <= BTREE_DEGREE {
                        let joined = children[a].join(children[a + 1]);
                        lemma_exact_joined(tree, height, lo, hi, a);
                        lemma_cut_keeps_exact(
                            joined,
                            below,
                            entries[a].key as int,
                            upper(entries, a + 1, hi),
                            key,
                            fso,
                        );
                        lemma_exact_merged(tree, height, lo, hi, key, fso, a);
                    } else {
                        let bounds = lemma_exact_shifted(tree, height, lo, hi, a, from_left);
                        let filled = if from_left {
                            shifted(tree, a, from_left).1
                        } else {
                            shifted(tree, a, from_left).0
                        };
                        lemma_cut_keeps_exact(filled, below, bounds.0, bounds.1, key, fso);
                        lemma_exact_moved(tree, height, lo, hi, key, fso, a, from_left);
                    }
                }
            }
        },
    }
}

} // verus!
