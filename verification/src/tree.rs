//! The B-tree as a mathematical object: what a stored tree is, what it holds,
//! and when it is sound.

use vstd::prelude::*;
use crate::error::Error;
use crate::node::{
    has_key, node_encoding, sorted_keys, InternalNodeEntry, LeafNodeEntry, NodeEntry, BTREE_B,
    BTREE_DEGREE,
};
use crate::object::{object_at, NodeView};
use crate::object_pointer::{ObjectPointer, ObjectType};

verus! {

/// The first byte of the device that holds nodes; what lies below belongs to
/// the uberblock ring.
pub const DATA_START: u64 = 40960;

/// A tree: a node with, below an internal node, one subtree for each entry.
#[allow(inconsistent_fields)]
pub enum Tree {
    Leaf { entries: Seq<LeafNodeEntry> },
    Internal { entries: Seq<InternalNodeEntry>, children: Seq<Tree> },
}

/// The map that a run of leaf entries stands for.
pub open spec fn entries_map(entries: Seq<LeafNodeEntry>) -> Map<u64, u64> {
    Map::new(
        |key: u64| has_key(entries, key),
        |key: u64| entries[choose|i: int| 0 <= i < entries.len() && #[trigger] entries[i].key == key].value,
    )
}

/// The value of `key` in `map`, if it has one.
pub open spec fn lookup(map: Map<u64, u64>, key: u64) -> Option<u64> {
    if map.dom().contains(key) {
        Some(map[key])
    } else {
        None
    }
}

/// Every key of `entries` lies in `[lo, hi)`.
pub open spec fn within<V>(entries: Seq<NodeEntry<V>>, lo: int, hi: int) -> bool {
    forall|i: int| 0 <= i < entries.len() ==> lo <= (#[trigger] entries[i]).key < hi
}

/// The bound above the keys under entry `i`: the next entry's key, or `hi`
/// for the last entry.
pub open spec fn upper<V>(entries: Seq<NodeEntry<V>>, i: int, hi: int) -> int {
    if i + 1 < entries.len() {
        entries[i + 1].key as int
    } else {
        hi
    }
}

/// A search for `key` in an internal node with `entries` descends at `i`: the
/// last entry whose key is not above `key`, or the first entry when `key` is
/// below them all.
pub open spec fn routes_to<V>(entries: Seq<NodeEntry<V>>, key: u64, i: int) -> bool {
    &&& 0 <= i < entries.len()
    &&& i > 0 ==> entries[i].key <= key
    &&& i + 1 < entries.len() ==> key < entries[i + 1].key
}

/// The entry at which a search for `key` descends in an internal node with
/// `entries`.
pub open spec fn route<V>(entries: Seq<NodeEntry<V>>, key: u64) -> int {
    choose|i: int| routes_to(entries, key, i)
}

/// The in-order entries of the first `n` trees of `trees`, one tree after
/// the other.
pub open spec fn flat_prefix(trees: Seq<Tree>, n: nat) -> Seq<LeafNodeEntry>
    decreases trees, n,
{
    if n == 0 || n > trees.len() {
        Seq::empty()
    } else {
        flat_prefix(trees, (n - 1) as nat) + trees[n - 1].flat()
    }
}

/// The in-order entries of `trees`, one tree after the other.
pub open spec fn flat_of(trees: Seq<Tree>) -> Seq<LeafNodeEntry> {
    flat_prefix(trees, trees.len())
}

impl Tree {
    /// The number of entries of the root node.
    pub open spec fn len(self) -> nat {
        match self {
            Tree::Leaf { entries } => entries.len(),
            Tree::Internal { entries, .. } => entries.len(),
        }
    }

    /// The key of entry `i` of the root node.
    pub open spec fn key(self, i: int) -> u64 {
        match self {
            Tree::Leaf { entries } => entries[i].key,
            Tree::Internal { entries, .. } => entries[i].key,
        }
    }

    /// The key of the first entry of the root node, or 0 for a node without
    /// entries.
    pub open spec fn first_key(self) -> u64 {
        if self.len() > 0 {
            self.key(0)
        } else {
            0
        }
    }

    /// The root node.
    pub open spec fn node(self) -> NodeView {
        match self {
            Tree::Leaf { entries } => NodeView::Leaf(entries),
            Tree::Internal { entries, .. } => NodeView::Internal(entries),
        }
    }

    /// The kind of the root node.
    pub open spec fn kind(self) -> ObjectType {
        match self {
            Tree::Leaf { .. } => ObjectType::LeafNode,
            Tree::Internal { .. } => ObjectType::InternalNode,
        }
    }

    /// The bytes of the root node.
    pub open spec fn encoding(self) -> Seq<u8> {
        match self {
            Tree::Leaf { entries } => node_encoding::<u64>(entries),
            Tree::Internal { entries, .. } => node_encoding::<ObjectPointer>(entries),
        }
    }

    /// The subtrees below the root node.
    pub open spec fn children(self) -> Seq<Tree> {
        match self {
            Tree::Leaf { .. } => Seq::empty(),
            Tree::Internal { children, .. } => children,
        }
    }

    /// The entries of the leaves, from left to right.
    pub open spec fn flat(self) -> Seq<LeafNodeEntry>
        decreases self,
    {
        match self {
            Tree::Leaf { entries } => entries,
            Tree::Internal { entries, children } => flat_prefix(children, children.len()),
        }
    }

    /// The number of levels below the root node.
    pub open spec fn height(self) -> nat
        decreases self,
    {
        match self {
            Tree::Leaf { .. } => 0,
            Tree::Internal { entries, children } => if children.len() > 0 {
                children[0].height() + 1
            } else {
                1
            },
        }
    }

    /// The map that the tree stands for.
    pub open spec fn map(self) -> Map<u64, u64> {
        entries_map(self.flat())
    }

    /// The tree is sound: its leaves lie `height` levels below the root, the
    /// keys of every node ascend strictly and lie in `[lo, hi)`, every subtree
    /// holds keys between the key of its entry and the key of the next, and
    /// every node below the root has between `B` and `2B+1` entries.
    pub open spec fn sound(self, height: nat, lo: int, hi: int) -> bool
        decreases self,
    {
        match self {
            Tree::Leaf { entries } => {
                &&& height == 0
                &&& sorted_keys(entries)
                &&& within(entries, lo, hi)
            },
            Tree::Internal { entries, children } => {
                &&& height > 0
                &&& children.len() == entries.len()
                &&& sorted_keys(entries)
                &&& within(entries, lo, hi)
                &&& forall|i: int|
                    0 <= i < children.len() ==> {
                        &&& (#[trigger] children[i]).sound(
                            (height - 1) as nat,
                            entries[i].key as int,
                            upper(entries, i, hi),
                        )
                        &&& BTREE_B <= children[i].len() <= BTREE_DEGREE
                    }
            },
        }
    }

    /// The number of bytes that an insertion of `key` appends for the tree:
    /// every node on the way to the key is written anew, a leaf with one more
    /// entry when the key is new, an internal node with one more entry when
    /// the node below it on the way is full and has to be split.
    pub open spec fn insert_growth(self, key: u64) -> int
        decreases self,
    {
        match self {
            Tree::Leaf { entries } => 16 * (entries.len() + if has_key(entries, key) {
                0int
            } else {
                1int
            }),
            Tree::Internal { entries, children } => {
                let i = route(entries, key);
                if 0 <= i < children.len() {
                    25 * (entries.len() + if children[i].len() == BTREE_DEGREE {
                        1int
                    } else {
                        0int
                    }) + children[i].insert_growth(key)
                } else {
                    0
                }
            },
        }
    }

    /// The key of every entry of every internal node is the smallest key
    /// that is reached through the entry.
    pub open spec fn exact(self) -> bool
        decreases self,
    {
        match self {
            Tree::Leaf { .. } => true,
            Tree::Internal { entries, children } => forall|i: int|
                0 <= i < children.len() ==> {
                    &&& (#[trigger] children[i]).exact()
                    &&& children[i].flat().len() > 0
                    &&& entries[i].key == children[i].flat()[0].key
                },
        }
    }

    /// The tree can stand at the root: it is sound, a leaf has at most `2B+1`
    /// entries and an internal node between 2 and `2B+1`.
    pub open spec fn sound_root(self, height: nat) -> bool {
        &&& self.sound(height, 0, u64::MAX + 1)
        &&& self.len() <= BTREE_DEGREE
        &&& self is Internal ==> self.len() >= 2
    }
}

/// The subtrees of `tree` are stored on `device`, each below `limit`.
pub open spec fn holds(device: Seq<u8>, tree: Tree, limit: int) -> bool
    decreases tree, 0nat,
{
    match tree {
        Tree::Leaf { .. } => true,
        Tree::Internal { entries, children } => {
            &&& children.len() == entries.len()
            &&& forall|i: int|
                0 <= i < children.len() ==> holds_child(
                    device,
                    entries[i],
                    #[trigger] children[i],
                    limit,
                )
        },
    }
}

/// The subtree `child` is stored on `device` under the pointer of `link`,
/// below `limit`.
pub open spec fn holds_child(
    device: Seq<u8>,
    link: InternalNodeEntry,
    child: Tree,
    limit: int,
) -> bool
    decreases child, 2nat,
{
    &&& link.value.end() <= limit
    &&& stored(device, link.value, child)
}

/// `tree` is stored on `device` under `pointer`: the pointer addresses the
/// root node, in the region for nodes, and every subtree is stored under the
/// pointer of its entry, below its parent.
pub open spec fn stored(device: Seq<u8>, pointer: ObjectPointer, tree: Tree) -> bool
    decreases tree, 1nat,
{
    &&& DATA_START <= pointer.offset
    &&& object_at(device, pointer) == Ok::<NodeView, Error>(tree.node())
    &&& holds(device, tree, pointer.offset as int)
}

/// `root` addresses a sound B-tree on `device`.
pub open spec fn is_stored_btree(device: Seq<u8>, root: ObjectPointer) -> bool {
    exists|tree: Tree, height: nat| #[trigger] btree_at(device, root, tree, height)
}

/// `tree`, of height `height`, is the sound B-tree that `root` addresses on
/// `device`.
pub open spec fn btree_at(device: Seq<u8>, root: ObjectPointer, tree: Tree, height: nat) -> bool {
    &&& stored(device, root, tree)
    &&& tree.sound_root(height)
}

/// `root` addresses a sound B-tree on `device`, all of it in the region for
/// nodes and below the free-space offset `fso`, which lies on the device.
pub open spec fn is_btree(device: Seq<u8>, root: ObjectPointer, fso: int) -> bool {
    &&& is_stored_btree(device, root)
    &&& root.end() <= fso <= device.len()
}

/// The tree that `root` addresses on `device`.
pub open spec fn btree_of(device: Seq<u8>, root: ObjectPointer) -> Tree {
    choose|tree: Tree| stored(device, root, tree)
}

/// The map that the tree under `root` stands for.
pub open spec fn btree_map(device: Seq<u8>, root: ObjectPointer) -> Map<u64, u64> {
    btree_of(device, root).map()
}

/// The entries of the tree under `root`, in the order of its leaves.
pub open spec fn btree_entries(device: Seq<u8>, root: ObjectPointer) -> Seq<LeafNodeEntry> {
    btree_of(device, root).flat()
}

/// The number of bytes that an insertion of `key` into the tree under `root`
/// appends: what it appends for the tree, and a new root of two entries when
/// the root is full.
pub open spec fn btree_insert_growth(device: Seq<u8>, root: ObjectPointer, key: u64) -> int {
    btree_of(device, root).insert_growth(key) + if btree_of(device, root).len() == BTREE_DEGREE {
        50int
    } else {
        0int
    }
}

/// The number of levels below the root of the tree under `root`.
pub open spec fn btree_height(device: Seq<u8>, root: ObjectPointer) -> nat {
    btree_of(device, root).height()
}

} // verus!
