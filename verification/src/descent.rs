//! What the descent through a tree knows of the subtree it stands in, and
//! how it reads the child on the way to a key.

use vstd::prelude::*;
use crate::device::{same_below, BlockDevice, Request};
use crate::error::Error;
use crate::node::{
    BTREE_B, BTREE_DEGREE, InternalNode, InternalNodeEntry, Node, NodeEntry, sorted_keys,
};
use crate::object::{object_at, read_of, AnyObject, NodeView};
use crate::object_pointer::ObjectPointer;
use crate::storage_proofs::{lemma_holds_frame, lemma_holds_raise};
use crate::tree::{DATA_START, holds, route, routes_to, stored, Tree, upper};
use crate::tree_edit::lemma_splice_holds;

verus! {

/// A subtree and what is known of it: its height and the bounds of its keys.
pub struct Scope {
    pub tree: Tree,
    pub height: nat,
    pub lo: int,
    pub hi: int,
}

/// The smaller of two numbers.
pub open spec fn lesser(a: int, b: int) -> int {
    if a <= b {
        a
    } else {
        b
    }
}

/// The number of bytes of a node with `len` entries at `height`.
pub open spec fn node_bytes(height: nat, len: int) -> int {
    if height == 0 {
        16 * len
    } else {
        25 * len
    }
}

/// `node` is the root of the sound subtree `scope.tree`, whose subtrees are
/// stored on `device` below `limit`, and nothing is stored from `fso` on.
pub open spec fn rooted(device: Seq<u8>, node: NodeView, scope: Scope, limit: int, fso: int) -> bool {
    &&& node == scope.tree.node()
    &&& holds(device, scope.tree, limit)
    &&& limit <= fso
    &&& DATA_START <= fso
    &&& scope.tree.sound(scope.height, scope.lo, scope.hi)
}

/// What failure means on a device that serves every request within it: the
/// device is too small for `needed` more bytes from `fso` on.
pub open spec fn out_of_room(faultless: bool, size: nat, fso: int, needed: int, e: Error) -> bool {
    faultless ==> e == Error::OutOfRange && fso + needed > size
}

/// What an operation makes of a node under `pointer` that does not decode
/// or lies beyond the device: it writes nothing and fails, on a device that
/// serves every request within it with the failure of the decoding.
pub open spec fn unreadable(
    before: Seq<u8>,
    faultless: bool,
    pointer: ObjectPointer,
    after: Seq<u8>,
    error: Option<Error>,
) -> bool {
    object_at(before, pointer) matches Err(e) ==> {
        &&& after == before
        &&& error is Some
        &&& faultless ==> error == Some(e)
    }
}

/// What an operation makes of a node under `pointer` with more than `2B+1`
/// entries: it writes nothing and fails, on a device that serves every
/// request within it with `LogicError`.
pub open spec fn overfull(
    before: Seq<u8>,
    faultless: bool,
    pointer: ObjectPointer,
    after: Seq<u8>,
    error: Option<Error>,
) -> bool {
    object_at(before, pointer) matches Ok(node) && node.len() > BTREE_DEGREE ==> {
        &&& after == before
        &&& error is Some
        &&& faultless ==> error == Some(Error::LogicError)
    }
}

/// What a lookup of `key` makes of an internal node under `pointer` that
/// has no entries, or whose entries ascend and send the key to a child that
/// does not lie before the node: it fails, on a device that serves every
/// request within it with `LogicError`.
pub open spec fn astray(
    before: Seq<u8>,
    faultless: bool,
    pointer: ObjectPointer,
    key: u64,
    error: Option<Error>,
) -> bool {
    object_at(before, pointer) matches Ok(NodeView::Internal(entries)) && (entries.len() == 0 || (
    sorted_keys(entries) && entries[route(entries, key)].value.offset >= pointer.offset)) ==> {
        &&& error is Some
        &&& faultless ==> error == Some(Error::LogicError)
    }
}

/// What a walk through the tree makes of an internal node under `pointer`
/// whose first child does not lie before the node: it fails, on a device
/// that serves every request within it with `LogicError`.
pub open spec fn misplaced(
    before: Seq<u8>,
    faultless: bool,
    pointer: ObjectPointer,
    error: Option<Error>,
) -> bool {
    object_at(before, pointer) matches Ok(NodeView::Internal(entries)) && entries.len() > 0
        && entries[0].value.offset >= pointer.offset ==> {
        &&& error is Some
        &&& faultless ==> error == Some(Error::LogicError)
    }
}

/// The reads of a lookup of `key` in `tree`, stored under `pointer`: the
/// node under the pointer, then the reads of the lookup in the subtree to
/// which the key routes.
pub open spec fn path_reads(tree: Tree, pointer: ObjectPointer, key: u64) -> Seq<Request>
    decreases tree,
{
    match tree {
        Tree::Leaf { .. } => seq![read_of(pointer)],
        Tree::Internal { entries, children } => {
            let i = route(entries, key);
            if 0 <= i < children.len() {
                seq![read_of(pointer)] + path_reads(children[i], entries[i].value, key)
            } else {
                seq![read_of(pointer)]
            }
        },
    }
}

/// The reads of a walk through the first `n` of `trees`, each stored under
/// the pointer of its entry, one tree after the other.
pub open spec fn walk_prefix(entries: Seq<InternalNodeEntry>, trees: Seq<Tree>, n: nat) -> Seq<
    Request,
>
    decreases trees, n,
{
    if n == 0 || n > trees.len() {
        Seq::empty()
    } else {
        walk_prefix(entries, trees, (n - 1) as nat) + walk_reads(trees[n - 1], entries[n - 1].value)
    }
}

/// The reads of a walk through `tree`, stored under `pointer`: the node
/// under the pointer, then the walks through its subtrees from left to
/// right.
pub open spec fn walk_reads(tree: Tree, pointer: ObjectPointer) -> Seq<Request>
    decreases tree,
{
    match tree {
        Tree::Leaf { .. } => seq![read_of(pointer)],
        Tree::Internal { entries, children } => seq![read_of(pointer)] + walk_prefix(
            entries,
            children,
            children.len(),
        ),
    }
}

/// What is known of the subtree under entry `i` of the subtree of `scope`.
pub open spec fn child_scope(scope: Scope, i: int) -> Scope {
    Scope {
        tree: scope.tree.children()[i],
        height: (scope.height - 1) as nat,
        lo: scope.tree.key(i) as int,
        hi: upper(scope.tree->Internal_entries, i, scope.hi),
    }
}

/// The outcome of appending a node with `entries` at `fso`, as [`Node::cow`]
/// reports it.
pub open spec fn appended(
    faultless: bool,
    before: Seq<u8>,
    after: Seq<u8>,
    fso: int,
    fso2: int,
    view: NodeView,
    cowed: Result<ObjectPointer, Error>,
) -> bool {
    &&& after.len() == before.len()
    &&& same_below(before, after, fso)
    &&& match cowed {
        Ok(pointer) => {
            &&& pointer.offset == fso
            &&& pointer.len == view.byte_len()
            &&& pointer.object_type == view.kind()
            &&& fso2 == fso + view.byte_len()
            &&& fso2 <= before.len()
            &&& after == crate::device::overwritten(before, fso, view.encoding())
        },
        Err(e) => fso2 == fso && out_of_room(faultless, before.len(), fso, view.byte_len() as int, e),
    }
}

/// The entry that a parent holds for a node appended under `pointer`.
pub open spec fn link_to(view: NodeView, pointer: ObjectPointer) -> InternalNodeEntry {
    NodeEntry { key: view.key(0), value: pointer }
}

/// A stored tree with entries takes up bytes.
pub proof fn lemma_stored_nonempty(device: Seq<u8>, pointer: ObjectPointer, tree: Tree)
    requires
        stored(device, pointer, tree),
        tree.len() > 0,
    ensures
        pointer.len > 0,
{
    if pointer.len == 0 {
        assert(crate::object::object_bytes(device, pointer).len() == 0);
    }
}

/// What is known of the subtree under entry `i` of a rooted internal node.
pub proof fn lemma_child_scope(device: Seq<u8>, scope: Scope, limit: int, i: int)
    requires
        scope.tree is Internal,
        holds(device, scope.tree, limit),
        scope.tree.sound(scope.height, scope.lo, scope.hi),
        0 <= i < scope.tree.len(),
    ensures
        scope.height > 0,
        stored(device, scope.tree->Internal_entries[i].value, scope.tree.children()[i]),
        scope.tree->Internal_entries[i].value.end() <= limit,
        scope.tree->Internal_entries[i].value.offset < limit,
        DATA_START <= scope.tree->Internal_entries[i].value.offset,
        object_at(device, scope.tree->Internal_entries[i].value) == Ok::<NodeView, Error>(
            scope.tree.children()[i].node(),
        ),
        holds(
            device,
            scope.tree.children()[i],
            scope.tree->Internal_entries[i].value.offset as int,
        ),
        scope.tree.children()[i].sound(
            (scope.height - 1) as nat,
            scope.tree.key(i) as int,
            upper(scope.tree->Internal_entries, i, scope.hi),
        ),
        BTREE_B <= scope.tree.children()[i].len() <= BTREE_DEGREE,
        scope.lo <= scope.tree.key(i) < upper(scope.tree->Internal_entries, i, scope.hi) <= scope.hi,
{
    let entries = scope.tree->Internal_entries;
    let children = scope.tree->Internal_children;
    assert(crate::tree::holds_child(device, entries[i], children[i], limit));
    assert(children[i].sound(
        (scope.height - 1) as nat,
        entries[i].key as int,
        upper(entries, i, scope.hi),
    ));
    lemma_stored_nonempty(device, entries[i].value, children[i]);
    assert(scope.lo <= entries[i].key < scope.hi);
    if i + 1 < entries.len() {
        assert(entries[i].key < entries[i + 1].key);
        assert(scope.lo <= entries[i + 1].key < scope.hi);
    }
}

/// The subtrees of a patched internal node are stored once the block put in
/// is stored, on a device that agrees with the old one below `fso`.
pub proof fn lemma_patch_holds(
    device: Seq<u8>,
    device2: Seq<u8>,
    tree: Tree,
    limit: int,
    fso: int,
    fso2: int,
    a: int,
    b: int,
    links: Seq<InternalNodeEntry>,
    kids: Seq<Tree>,
)
    requires
        tree is Internal,
        holds(device, tree, limit),
        limit <= fso <= fso2,
        same_below(device, device2, fso),
        0 <= a <= b <= tree.len(),
        holds(device2, Tree::Internal { entries: links, children: kids }, fso2),
    ensures
        holds(device2, tree.splice(a, b, links, kids), fso2),
{
    lemma_holds_frame(device, device2, tree, limit, fso);
    lemma_holds_raise(device2, tree, limit, fso2);
    lemma_splice_holds(device2, tree, fso2, a, b, links, kids);
}

/// The entry at which a search for `key` descends: the entry with that key,
/// else the entry before the place where the key belongs, else the first
/// entry. `None` for a node without entries.
pub fn descend_index<V>(node: &Node<V>, key: u64) -> (index: Option<usize>)
    ensures
        match index {
            Some(i) => i < node@.len() && (sorted_keys(node@) ==> routes_to(node@, key, i as int)),
            None => node@.len() == 0,
        },
{
    if node.entries.len() == 0 {
        return None;
    }
    match node.search(key) {
        Ok(i) => {
            proof {
                if sorted_keys(node@) && i + 1 < node@.len() {
                    assert(node@[i as int].key < node@[i + 1].key);
                }
            }
            Some(i)
        },
        Err(i) => if i == 0 {
            Some(0)
        } else {
            Some(i - 1)
        },
    }
}

/// Reads the child of `node` at which a search for `key` descends.
///
/// Returns the index of the entry, the pointer of the child and the child.
/// A node without entries, a child that does not lie before `limit` and a
/// child with more than `2B+1` entries are each a `LogicError`.
pub(crate) fn read_child<D: BlockDevice>(
    dev: &mut D,
    node: &InternalNode,
    limit: u64,
    key: u64,
    Ghost(scope): Ghost<Scope>,
    Ghost(fso): Ghost<int>,
) -> (r: Result<(usize, ObjectPointer, AnyObject), Error>)
    ensures
        final(dev).view() == old(dev).view(),
        final(dev).faultless() == old(dev).faultless(),
        r matches Ok(found) ==> {
            &&& found.0 < node@.len()
            &&& found.1 == node@[found.0 as int].value
            &&& found.1.offset < limit
            &&& found.2@.len() <= BTREE_DEGREE
        },
        rooted(old(dev).view(), NodeView::Internal(node@), scope, limit as int, fso) && node@.len()
            > 0 ==> match r {
            Ok(found) => {
                &&& routes_to(node@, key, found.0 as int)
                &&& rooted(
                    old(dev).view(),
                    found.2@,
                    child_scope(scope, found.0 as int),
                    found.1.offset as int,
                    fso,
                )
                &&& BTREE_B <= found.2@.len() <= BTREE_DEGREE
                &&& found.2@.len() == child_scope(scope, found.0 as int).tree.len()
            },
            Err(e) => !old(dev).faultless(),
        },
{
    let ghost valid = rooted(old(dev).view(), NodeView::Internal(node@), scope, limit as int, fso)
        && node@.len() > 0;
    let index = match descend_index(node, key) {
        Some(index) => index,
        None => {
            return Err(Error::LogicError);
        },
    };
    // object pointer of branch where to descend
    let op = node.entries[index].value;
    proof {
        if valid {
            lemma_child_scope(old(dev).view(), scope, limit as int, index as int);
        }
    }
    if op.offset >= limit {
        return Err(Error::LogicError);
    }
    // read pointed object
    let any_object = match op.async_read_object(dev) {
        Ok(object) => object,
        Err(e) => {
            return Err(e);
        },
    };
    if any_object.len() > BTREE_DEGREE {
        return Err(Error::LogicError);
    }
    Ok((index, op, any_object))
}

} // verus!
