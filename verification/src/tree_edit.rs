//! How trees are cut, joined and patched, and what that does to their
//! soundness and to the entries they hold.

use vstd::prelude::*;
use crate::node::{has_key, sorted_keys, InternalNodeEntry, NodeEntry, BTREE_B, BTREE_DEGREE};
use crate::sorted::{
    lemma_cut_segment, lemma_has_key_concat, lemma_lookup_concat3, lemma_put_segment,
};
use crate::tree::{entries_map, flat_of, holds, holds_child, lookup, route, routes_to, upper, Tree};
use crate::tree_proofs::{
    lemma_flat_internal, lemma_flat_of_concat, lemma_flat_of_concat3, lemma_flat_of_one,
    lemma_flat_segment, lemma_flat_sound, lemma_sound_widen, segment_lo,
};

verus! {

impl Tree {
    /// The first `n` entries of the root node, with their subtrees.
    pub open spec fn take(self, n: int) -> Tree {
        match self {
            Tree::Leaf { entries } => Tree::Leaf { entries: entries.take(n) },
            Tree::Internal { entries, children } => Tree::Internal {
                entries: entries.take(n),
                children: children.take(n),
            },
        }
    }

    /// The entries of the root node from `n` on, with their subtrees.
    pub open spec fn skip(self, n: int) -> Tree {
        match self {
            Tree::Leaf { entries } => Tree::Leaf { entries: entries.skip(n) },
            Tree::Internal { entries, children } => Tree::Internal {
                entries: entries.skip(n),
                children: children.skip(n),
            },
        }
    }

    /// The entries of `self` followed by those of `other`, with their
    /// subtrees, when both have the same kind of root node.
    pub open spec fn join(self, other: Tree) -> Tree {
        match (self, other) {
            (Tree::Leaf { entries: e1 }, Tree::Leaf { entries: e2 }) => Tree::Leaf {
                entries: e1 + e2,
            },
            (
                Tree::Internal { entries: e1, children: c1 },
                Tree::Internal { entries: e2, children: c2 },
            ) => Tree::Internal { entries: e1 + e2, children: c1 + c2 },
            _ => self,
        }
    }

    /// The internal node `self` with the entries `a..b` and their subtrees
    /// replaced by `entries` and `children`.
    pub open spec fn splice(
        self,
        a: int,
        b: int,
        entries: Seq<InternalNodeEntry>,
        children: Seq<Tree>,
    ) -> Tree {
        Tree::Internal {
            entries: self->Internal_entries.take(a) + entries + self->Internal_entries.skip(b),
            children: self->Internal_children.take(a) + children + self->Internal_children.skip(b),
        }
    }
}

/// Cutting a sound tree in two gives two sound trees whose entries are those
/// of the whole.
pub proof fn lemma_cut_sound(tree: Tree, height: nat, lo: int, hi: int, n: int)
    requires
        tree.sound(height, lo, hi),
        0 < n < tree.len(),
    ensures
        tree.take(n).sound(height, lo, tree.key(n) as int),
        tree.skip(n).sound(height, tree.key(n) as int, hi),
        tree.take(n).flat() + tree.skip(n).flat() == tree.flat(),
        tree.take(n).len() == n,
        tree.skip(n).len() == tree.len() - n,
{
    match tree {
        Tree::Leaf { entries } => {
            let front = entries.take(n);
            let back = entries.skip(n);
            assert forall|i: int| 0 <= i < front.len() implies lo <= (#[trigger] front[i]).key
                < entries[n].key by {
                assert(lo <= entries[i].key < hi);
                assert(entries[i].key < entries[n].key);
            }
            assert forall|i: int| 0 <= i < back.len() implies entries[n].key <= (
            #[trigger] back[i]).key < hi by {
                assert(lo <= entries[i + n].key < hi);
                if i > 0 {
                    assert(entries[n].key < entries[i + n].key);
                }
            }
            assert(sorted_keys(front)) by {
                assert forall|i: int, j: int| 0 <= i < j < front.len() implies front[i].key
                    < front[j].key by {
                    assert(entries[i].key < entries[j].key);
                }
            }
            assert(sorted_keys(back)) by {
                assert forall|i: int, j: int| 0 <= i < j < back.len() implies back[i].key
                    < back[j].key by {
                    assert(entries[i + n].key < entries[j + n].key);
                }
            }
            assert(front + back == entries);
        },
        Tree::Internal { entries, children } => {
            let front = entries.take(n);
            let back = entries.skip(n);
            let front_children = children.take(n);
            let back_children = children.skip(n);
            assert forall|i: int| 0 <= i < front.len() implies lo <= (#[trigger] front[i]).key
                < entries[n].key by {
                assert(lo <= entries[i].key < hi);
                assert(entries[i].key < entries[n].key);
            }
            assert forall|i: int| 0 <= i < back.len() implies entries[n].key <= (
            #[trigger] back[i]).key < hi by {
                assert(lo <= entries[i + n].key < hi);
                if i > 0 {
                    assert(entries[n].key < entries[i + n].key);
                }
            }
            assert(sorted_keys(front)) by {
                assert forall|i: int, j: int| 0 <= i < j < front.len() implies front[i].key
                    < front[j].key by {
                    assert(entries[i].key < entries[j].key);
                }
            }
            assert(sorted_keys(back)) by {
                assert forall|i: int, j: int| 0 <= i < j < back.len() implies back[i].key
                    < back[j].key by {
                    assert(entries[i + n].key < entries[j + n].key);
                }
            }
            assert forall|i: int| 0 <= i < front_children.len() implies {
                &&& (#[trigger] front_children[i]).sound(
                    (height - 1) as nat,
                    front[i].key as int,
                    upper(front, i, entries[n].key as int),
                )
                &&& BTREE_B <= front_children[i].len() <= BTREE_DEGREE
            } by {
                assert(children[i].sound(
                    (height - 1) as nat,
                    entries[i].key as int,
                    upper(entries, i, hi),
                ));
                assert(upper(front, i, entries[n].key as int) == upper(entries, i, hi));
            }
            assert forall|i: int| 0 <= i < back_children.len() implies {
                &&& (#[trigger] back_children[i]).sound(
                    (height - 1) as nat,
                    back[i].key as int,
                    upper(back, i, hi),
                )
                &&& BTREE_B <= back_children[i].len() <= BTREE_DEGREE
            } by {
                assert(children[i + n].sound(
                    (height - 1) as nat,
                    entries[i + n].key as int,
                    upper(entries, i + n, hi),
                ));
                assert(upper(back, i, hi) == upper(entries, i + n, hi));
            }
            lemma_flat_of_concat(front_children, back_children);
            assert(front_children + back_children == children);
        },
    }
}

/// The subtrees of the two parts of a cut tree are stored where those of the
/// whole were.
pub proof fn lemma_cut_holds(device: Seq<u8>, tree: Tree, limit: int, n: int)
    requires
        holds(device, tree, limit),
        0 <= n <= tree.len(),
    ensures
        holds(device, tree.take(n), limit),
        holds(device, tree.skip(n), limit),
{
    match tree {
        Tree::Leaf { .. } => {},
        Tree::Internal { entries, children } => {
            let front = entries.take(n);
            let back = entries.skip(n);
            assert forall|i: int| 0 <= i < n implies holds_child(
                device,
                front[i],
                #[trigger] children.take(n)[i],
                limit,
            ) by {
                assert(holds_child(device, entries[i], children[i], limit));
            }
            assert forall|i: int| 0 <= i < children.len() - n implies holds_child(
                device,
                back[i],
                #[trigger] children.skip(n)[i],
                limit,
            ) by {
                assert(holds_child(device, entries[i + n], children[i + n], limit));
            }
        },
    }
}

/// Joining two sound trees of the same height, the keys of the first below
/// those of the second, gives a sound tree whose entries are those of the
/// first followed by those of the second.
pub proof fn lemma_join_sound(left: Tree, right: Tree, height: nat, lo: int, mid: int, hi: int)
    requires
        left.sound(height, lo, mid),
        right.sound(height, mid, hi),
        lo <= mid <= hi,
    ensures
        left.join(right).sound(height, lo, hi),
        left.join(right).flat() == left.flat() + right.flat(),
        left.join(right).len() == left.len() + right.len(),
        left.join(right).kind() == left.kind(),
        left.kind() == right.kind(),
{
    match (left, right) {
        (Tree::Leaf { entries: e1 }, Tree::Leaf { entries: e2 }) => {
            crate::sorted::lemma_sorted_concat(e1, e2, lo, mid, hi);
        },
        (
            Tree::Internal { entries: e1, children: c1 },
            Tree::Internal { entries: e2, children: c2 },
        ) => {
            crate::sorted::lemma_sorted_concat(e1, e2, lo, mid, hi);
            let entries = e1 + e2;
            let children = c1 + c2;
            assert forall|i: int| 0 <= i < children.len() implies {
                &&& (#[trigger] children[i]).sound(
                    (height - 1) as nat,
                    entries[i].key as int,
                    upper(entries, i, hi),
                )
                &&& BTREE_B <= children[i].len() <= BTREE_DEGREE
            } by {
                if i < c1.len() {
                    assert(c1[i].sound((height - 1) as nat, e1[i].key as int, upper(e1, i, mid)));
                    assert(upper(e1, i, mid) <= upper(entries, i, hi)) by {
                        if i + 1 < e1.len() {
                            assert(entries[i + 1] == e1[i + 1]);
                        } else if e2.len() > 0 {
                            assert(entries[i + 1] == e2[0]);
                            assert(mid <= e2[0].key);
                        }
                    }
                    lemma_sound_widen(
                        c1[i],
                        (height - 1) as nat,
                        e1[i].key as int,
                        upper(e1, i, mid),
                        e1[i].key as int,
                        upper(entries, i, hi),
                    );
                } else {
                    let j = i - c1.len();
                    assert(c2[j].sound((height - 1) as nat, e2[j].key as int, upper(e2, j, hi)));
                    assert(upper(e2, j, hi) == upper(entries, i, hi)) by {
                        if j + 1 < e2.len() {
                            assert(entries[i + 1] == e2[j + 1]);
                        }
                    }
                }
            }
            lemma_flat_of_concat(c1, c2);
        },
        _ => {},
    }
}

/// The subtrees of two joined trees are stored where those of the parts were.
pub proof fn lemma_join_holds(device: Seq<u8>, left: Tree, right: Tree, limit: int)
    requires
        holds(device, left, limit),
        holds(device, right, limit),
    ensures
        holds(device, left.join(right), limit),
{
    match (left, right) {
        (
            Tree::Internal { entries: e1, children: c1 },
            Tree::Internal { entries: e2, children: c2 },
        ) => {
            let entries = e1 + e2;
            let children = c1 + c2;
            assert forall|i: int| 0 <= i < children.len() implies holds_child(
                device,
                entries[i],
                #[trigger] children[i],
                limit,
            ) by {
                if i < c1.len() {
                    assert(holds_child(device, e1[i], c1[i], limit));
                } else {
                    assert(holds_child(device, e2[i - c1.len()], c2[i - c1.len()], limit));
                }
            }
        },
        _ => {},
    }
}

/// The in-order entries of an internal node, cut at the subtrees `a` and `b`.
pub proof fn lemma_flat_parts(tree: Tree, a: int, b: int)
    requires
        tree is Internal,
        0 <= a <= b <= tree.children().len(),
    ensures
        tree.flat() == flat_of(tree.children().take(a)) + flat_of(tree.children().subrange(a, b))
            + flat_of(tree.children().skip(b)),
{
    let children = tree.children();
    lemma_flat_internal(tree);
    assert(children == children.take(a) + children.subrange(a, b) + children.skip(b));
    lemma_flat_of_concat3(children.take(a), children.subrange(a, b), children.skip(b));
}

/// A key that belongs under the subtrees `a..b` of a sound internal node is
/// under no other subtree.
pub proof fn lemma_outside_block(tree: Tree, height: nat, lo: int, hi: int, a: int, b: int, key: u64)
    requires
        tree is Internal,
        tree.sound(height, lo, hi),
        0 <= a <= b <= tree.len(),
        a > 0 ==> a < tree.len() && tree.key(a) <= key,
        b < tree.len() ==> key < tree.key(b),
    ensures
        !has_key(flat_of(tree.children().take(a)), key),
        !has_key(flat_of(tree.children().skip(b)), key),
{
    let entries = tree->Internal_entries;
    let children = tree->Internal_children;
    let front = flat_of(children.take(a));
    let back = flat_of(children.skip(b));
    assert(children.take(a) == children.subrange(0, a));
    assert(children.skip(b) == children.subrange(b, children.len() as int));
    lemma_flat_segment(tree, height, lo, hi, 0, a);
    lemma_flat_segment(tree, height, lo, hi, b, children.len() as int);
    if has_key(front, key) {
        let i = choose|i: int| 0 <= i < front.len() && #[trigger] front[i].key == key;
        assert(front[i].key < segment_lo(entries, a, hi));
    }
    if has_key(back, key) {
        let i = choose|i: int| 0 <= i < back.len() && #[trigger] back[i].key == key;
        assert(entries[b].key <= back[i].key);
    }
}

/// What a sound internal node holds for a key is what the subtree holds to
/// which a search for the key descends.
pub proof fn lemma_route_lookup(tree: Tree, height: nat, lo: int, hi: int, i: int, key: u64)
    requires
        tree is Internal,
        tree.sound(height, lo, hi),
        routes_to(tree->Internal_entries, key, i),
    ensures
        lookup(tree.map(), key) == lookup(tree.children()[i].map(), key),
{
    let children = tree.children();
    lemma_flat_parts(tree, i, i + 1);
    lemma_outside_block(tree, height, lo, hi, i, i + 1, key);
    lemma_flat_sound(tree, height, lo, hi);
    assert(children.subrange(i, i + 1) == seq![children[i]]);
    lemma_flat_of_one(children[i]);
    lemma_lookup_concat3(
        flat_of(children.take(i)),
        children[i].flat(),
        flat_of(children.skip(i + 1)),
        key,
    );
}

/// The block of entries and subtrees `entries`, `children` can stand in a
/// sound internal node of height `height` between the keys `lo` and `hi`.
pub open spec fn sound_block(
    entries: Seq<InternalNodeEntry>,
    children: Seq<Tree>,
    height: nat,
    lo: int,
    hi: int,
) -> bool {
    &&& entries.len() > 0
    &&& (Tree::Internal { entries, children }).sound(height, lo, hi)
}

/// The bound below a block that replaces the entries from `a` on: the key of
/// entry `a` when entries stand before it, else `lo`.
pub open spec fn block_lo(tree: Tree, a: int, lo: int) -> int {
    if a > 0 {
        tree.key(a) as int
    } else {
        lo
    }
}

/// Replacing the entries `a..b` of a sound internal node by a sound block
/// that fits between their neighbours gives a sound node.
pub proof fn lemma_splice_sound(
    tree: Tree,
    height: nat,
    lo: int,
    hi: int,
    lo2: int,
    a: int,
    b: int,
    entries2: Seq<InternalNodeEntry>,
    children2: Seq<Tree>,
)
    requires
        tree is Internal,
        tree.sound(height, lo, hi),
        0 <= a < b <= tree.len(),
        lo2 <= lo,
        sound_block(
            entries2,
            children2,
            height,
            block_lo(tree, a, lo2),
            segment_lo(tree->Internal_entries, b, hi),
        ),
    ensures
        tree.splice(a, b, entries2, children2).sound(height, lo2, hi),
        tree.splice(a, b, entries2, children2).len() == tree.len() - (b - a) + entries2.len(),
{
    let entries = tree->Internal_entries;
    let children = tree->Internal_children;
    let n2 = entries2.len() as int;
    let blk_lo = block_lo(tree, a, lo2);
    let blk_hi = segment_lo(entries, b, hi);
    let after = entries.take(a) + entries2 + entries.skip(b);
    let kids = children.take(a) + children2 + children.skip(b);
    assert(blk_hi <= hi) by {
        if b < entries.len() {
            assert(lo <= entries[b].key < hi);
        }
    }
    assert(lo2 <= blk_lo) by {
        if a > 0 {
            assert(lo <= entries[a].key < hi);
        }
    }
    // where each entry of the new node comes from
    assert forall|i: int| 0 <= i < a implies after[i] == entries[i] by {}
    assert forall|i: int| a <= i < a + n2 implies after[i] == entries2[i - a] by {}
    assert forall|i: int| a + n2 <= i < after.len() implies after[i] == entries[i - a - n2 + b] by {}
    assert forall|i: int| 0 <= i < after.len() implies lo2 <= (#[trigger] after[i]).key < hi by {
        if i < a {
            assert(lo <= entries[i].key < hi);
        } else if i < a + n2 {
            assert(blk_lo <= entries2[i - a].key < blk_hi);
        } else {
            assert(lo <= entries[i - a - n2 + b].key < hi);
        }
    }
    assert forall|i: int, j: int| 0 <= i < j < after.len() implies after[i].key < after[j].key by {
        if j < a {
            assert(entries[i].key < entries[j].key);
        } else if j < a + n2 {
            assert(blk_lo <= entries2[j - a].key < blk_hi);
            if i < a {
                assert(entries[i].key < entries[a].key);
            } else {
                assert(entries2[i - a].key < entries2[j - a].key);
            }
        } else {
            let oj = j - a - n2 + b;
            if i < a {
                assert(entries[i].key < entries[oj].key);
            } else if i < a + n2 {
                assert(blk_lo <= entries2[i - a].key < blk_hi);
                if oj > b {
                    assert(entries[b].key < entries[oj].key);
                }
            } else {
                assert(entries[i - a - n2 + b].key < entries[oj].key);
            }
        }
    }
    assert forall|i: int| 0 <= i < kids.len() implies {
        &&& (#[trigger] kids[i]).sound(
            (height - 1) as nat,
            after[i].key as int,
            upper(after, i, hi),
        )
        &&& BTREE_B <= kids[i].len() <= BTREE_DEGREE
    } by {
        if i < a {
            assert(kids[i] == children[i]);
            assert(children[i].sound(
                (height - 1) as nat,
                entries[i].key as int,
                upper(entries, i, hi),
            ));
            assert(upper(entries, i, hi) <= upper(after, i, hi)) by {
                if i + 1 < a {
                    assert(after[i + 1] == entries[i + 1]);
                } else {
                    assert(after[i + 1] == entries2[0]);
                    assert(blk_lo <= entries2[0].key < blk_hi);
                }
            }
            lemma_sound_widen(
                children[i],
                (height - 1) as nat,
                entries[i].key as int,
                upper(entries, i, hi),
                entries[i].key as int,
                upper(after, i, hi),
            );
        } else if i < a + n2 {
            let j = i - a;
            assert(kids[i] == children2[j]);
            assert(children2[j].sound(
                (height - 1) as nat,
                entries2[j].key as int,
                upper(entries2, j, blk_hi),
            ));
            assert(upper(entries2, j, blk_hi) == upper(after, i, hi)) by {
                if j + 1 < n2 {
                    assert(after[i + 1] == entries2[j + 1]);
                } else if b < entries.len() {
                    assert(after[i + 1] == entries[b]);
                }
            }
        } else {
            let k = i - a - n2 + b;
            assert(kids[i] == children[k]);
            assert(children[k].sound(
                (height - 1) as nat,
                entries[k].key as int,
                upper(entries, k, hi),
            ));
            assert(upper(entries, k, hi) == upper(after, i, hi)) by {
                if k + 1 < entries.len() {
                    assert(after[i + 1] == entries[k + 1]);
                }
            }
        }
    }
}

/// When the block put in place of the entries `a..b` holds what they held
/// with one pair put in, so does the node.
pub proof fn lemma_splice_put(
    tree: Tree,
    height: nat,
    lo: int,
    hi: int,
    lo2: int,
    a: int,
    b: int,
    entries2: Seq<InternalNodeEntry>,
    children2: Seq<Tree>,
    key: u64,
    value: u64,
)
    requires
        tree is Internal,
        tree.sound(height, lo, hi),
        0 <= a < b <= tree.len(),
        lo2 <= lo,
        sound_block(
            entries2,
            children2,
            height,
            block_lo(tree, a, lo2),
            segment_lo(tree->Internal_entries, b, hi),
        ),
        entries_map(flat_of(children2)) == entries_map(
            flat_of(tree.children().subrange(a, b)),
        ).insert(key, value),
    ensures
        tree.splice(a, b, entries2, children2).sound(height, lo2, hi),
        tree.splice(a, b, entries2, children2).len() == tree.len() - (b - a) + entries2.len(),
        tree.splice(a, b, entries2, children2).map() == tree.map().insert(key, value),
        lookup(tree.map(), key) == lookup(
            entries_map(flat_of(tree.children().subrange(a, b))),
            key,
        ),
{
    let children = tree.children();
    let after = tree.splice(a, b, entries2, children2);
    lemma_splice_sound(tree, height, lo, hi, lo2, a, b, entries2, children2);
    lemma_flat_sound(tree, height, lo, hi);
    lemma_flat_sound(after, height, lo2, hi);
    lemma_flat_parts(tree, a, b);
    lemma_flat_internal(after);
    lemma_flat_of_concat3(children.take(a), children2, children.skip(b));
    lemma_put_segment(
        flat_of(children.take(a)),
        flat_of(children.subrange(a, b)),
        flat_of(children2),
        flat_of(children.skip(b)),
        key,
        value,
    );
}

/// When the block put in place of the entries `a..b` holds what they held
/// with one key taken out, and the key belongs under them, so does the node.
pub proof fn lemma_splice_cut(
    tree: Tree,
    height: nat,
    lo: int,
    hi: int,
    a: int,
    b: int,
    entries2: Seq<InternalNodeEntry>,
    children2: Seq<Tree>,
    key: u64,
)
    requires
        tree is Internal,
        tree.sound(height, lo, hi),
        0 <= a < b <= tree.len(),
        sound_block(
            entries2,
            children2,
            height,
            block_lo(tree, a, lo),
            segment_lo(tree->Internal_entries, b, hi),
        ),
        a > 0 ==> tree.key(a) <= key,
        b < tree.len() ==> key < tree.key(b),
        entries_map(flat_of(children2)) == entries_map(
            flat_of(tree.children().subrange(a, b)),
        ).remove(key),
    ensures
        tree.splice(a, b, entries2, children2).sound(height, lo, hi),
        tree.splice(a, b, entries2, children2).len() == tree.len() - (b - a) + entries2.len(),
        tree.splice(a, b, entries2, children2).map() == tree.map().remove(key),
        lookup(tree.map(), key) == lookup(
            entries_map(flat_of(tree.children().subrange(a, b))),
            key,
        ),
{
    let children = tree.children();
    let after = tree.splice(a, b, entries2, children2);
    lemma_splice_sound(tree, height, lo, hi, lo, a, b, entries2, children2);
    lemma_flat_sound(tree, height, lo, hi);
    lemma_flat_sound(after, height, lo, hi);
    lemma_flat_parts(tree, a, b);
    lemma_flat_internal(after);
    lemma_flat_of_concat3(children.take(a), children2, children.skip(b));
    lemma_outside_block(tree, height, lo, hi, a, b, key);
    lemma_cut_segment(
        flat_of(children.take(a)),
        flat_of(children.subrange(a, b)),
        flat_of(children2),
        flat_of(children.skip(b)),
        key,
    );
}

/// The subtrees of a patched node are stored when those of the node and of
/// the block are.
pub proof fn lemma_splice_holds(
    device: Seq<u8>,
    tree: Tree,
    limit: int,
    a: int,
    b: int,
    entries2: Seq<InternalNodeEntry>,
    children2: Seq<Tree>,
)
    requires
        tree is Internal,
        holds(device, tree, limit),
        0 <= a <= b <= tree.len(),
        holds(device, Tree::Internal { entries: entries2, children: children2 }, limit),
    ensures
        holds(device, tree.splice(a, b, entries2, children2), limit),
{
    let entries = tree->Internal_entries;
    let children = tree->Internal_children;
    let n2 = entries2.len() as int;
    let after = entries.take(a) + entries2 + entries.skip(b);
    let kids = children.take(a) + children2 + children.skip(b);
    assert forall|i: int| 0 <= i < kids.len() implies holds_child(
        device,
        after[i],
        #[trigger] kids[i],
        limit,
    ) by {
        if i < a {
            assert(holds_child(device, entries[i], children[i], limit));
        } else if i < a + n2 {
            assert(holds_child(device, entries2[i - a], children2[i - a], limit));
        } else {
            assert(holds_child(
                device,
                entries[i - a - n2 + b],
                children[i - a - n2 + b],
                limit,
            ));
        }
    }
}

/// The first key of a tree with exact keys is the first of its in-order
/// entries.
pub proof fn lemma_exact_first(tree: Tree, height: nat, lo: int, hi: int)
    requires
        tree.sound(height, lo, hi),
        tree.exact(),
        tree.len() > 0,
    ensures
        tree.flat().len() > 0,
        tree.key(0) == tree.flat()[0].key,
{
    match tree {
        Tree::Leaf { .. } => {},
        Tree::Internal { entries, children } => {
            lemma_flat_parts(tree, 0, 1);
            assert(children.take(0) == Seq::<Tree>::empty());
            assert(children.subrange(0, 1) == seq![children[0]]);
            lemma_flat_of_one(children[0]);
            crate::tree_proofs::lemma_flat_of_empty();
            assert(children[0].exact());
        },
    }
}

/// The parts of a cut tree with exact keys have exact keys.
pub proof fn lemma_cut_exact(tree: Tree, n: int)
    requires
        tree.exact(),
        0 <= n <= tree.len(),
        tree is Internal ==> tree.children().len() == tree.len(),
    ensures
        tree.take(n).exact(),
        tree.skip(n).exact(),
{
    match tree {
        Tree::Leaf { .. } => {},
        Tree::Internal { entries, children } => {
            let front = children.take(n);
            let back = children.skip(n);
            assert forall|i: int| 0 <= i < front.len() implies {
                &&& (#[trigger] front[i]).exact()
                &&& front[i].flat().len() > 0
                &&& entries.take(n)[i].key == front[i].flat()[0].key
            } by {
                assert(children[i].exact());
            }
            assert forall|i: int| 0 <= i < back.len() implies {
                &&& (#[trigger] back[i]).exact()
                &&& back[i].flat().len() > 0
                &&& entries.skip(n)[i].key == back[i].flat()[0].key
            } by {
                assert(children[i + n].exact());
            }
        },
    }
}

/// A node with exact keys that is patched with a block with exact keys has
/// exact keys.
pub proof fn lemma_splice_exact(
    tree: Tree,
    a: int,
    b: int,
    entries2: Seq<InternalNodeEntry>,
    children2: Seq<Tree>,
)
    requires
        tree is Internal,
        tree.exact(),
        tree.children().len() == tree.len(),
        0 <= a <= b <= tree.len(),
        entries2.len() == children2.len(),
        (Tree::Internal { entries: entries2, children: children2 }).exact(),
    ensures
        tree.splice(a, b, entries2, children2).exact(),
{
    let entries = tree->Internal_entries;
    let children = tree->Internal_children;
    let n2 = entries2.len() as int;
    let after = entries.take(a) + entries2 + entries.skip(b);
    let kids = children.take(a) + children2 + children.skip(b);
    let block = Tree::Internal { entries: entries2, children: children2 };
    assert forall|i: int| 0 <= i < kids.len() implies {
        &&& (#[trigger] kids[i]).exact()
        &&& kids[i].flat().len() > 0
        &&& after[i].key == kids[i].flat()[0].key
    } by {
        if i < a {
            assert(kids[i] == children[i]);
            assert(children[i].exact());
        } else if i < a + n2 {
            assert(kids[i] == children2[i - a]);
            assert(block->Internal_children[i - a].exact());
        } else {
            assert(kids[i] == children[i - a - n2 + b]);
            assert(children[i - a - n2 + b].exact());
        }
    }
}

/// A search in a sorted node with entries descends somewhere.
pub proof fn lemma_route_exists<V>(entries: Seq<NodeEntry<V>>, key: u64)
    requires
        sorted_keys(entries),
        entries.len() > 0,
    ensures
        routes_to(entries, key, route(entries, key)),
    decreases entries.len(),
{
    let last = entries.len() - 1;
    if entries.len() == 1 || entries[last].key <= key {
        assert(routes_to(entries, key, last));
    } else {
        let front = entries.drop_last();
        assert(sorted_keys(front)) by {
            assert forall|i: int, j: int| 0 <= i < j < front.len() implies front[i].key
                < front[j].key by {
                assert(entries[i].key < entries[j].key);
            }
        }
        lemma_route_exists(front, key);
        let i = route(front, key);
        assert(routes_to(entries, key, i));
    }
}

/// A search in a sorted node descends at one entry only.
pub proof fn lemma_route_unique<V>(entries: Seq<NodeEntry<V>>, key: u64, i: int)
    requires
        sorted_keys(entries),
        routes_to(entries, key, i),
    ensures
        route(entries, key) == i,
{
    let j = route(entries, key);
    if i < j {
        if i + 1 < j {
            assert(entries[i + 1].key < entries[j].key);
        }
    } else if j < i {
        if j + 1 < i {
            assert(entries[j + 1].key < entries[i].key);
        }
    }
}

/// What an insertion appends for a sound tree lies within what it appends at
/// most for a tree of that height.
pub proof fn lemma_insert_growth_bound(tree: Tree, height: nat, lo: int, hi: int, key: u64)
    requires
        tree.sound(height, lo, hi),
        tree.len() <= BTREE_DEGREE,
    ensures
        0 <= tree.insert_growth(key) <= 150 * height + 16 * 6,
    decreases tree,
{
    match tree {
        Tree::Leaf { .. } => {},
        Tree::Internal { entries, children } => {
            let i = route(entries, key);
            if 0 <= i < children.len() {
                assert(children[i].sound(
                    (height - 1) as nat,
                    entries[i].key as int,
                    upper(entries, i, hi),
                ));
                lemma_insert_growth_bound(
                    children[i],
                    (height - 1) as nat,
                    entries[i].key as int,
                    upper(entries, i, hi),
                    key,
                );
            }
        },
    }
}

/// What an insertion appends for a full tree is what it appends for the half
/// that owns the key and the bytes of the other half.
pub proof fn lemma_insert_growth_halves(tree: Tree, height: nat, lo: int, hi: int, key: u64)
    requires
        tree.sound(height, lo, hi),
        tree.len() == BTREE_DEGREE,
    ensures
        key < tree.key(3) ==> tree.insert_growth(key) == tree.take(3).insert_growth(key) + (
        if height == 0 {
            32int
        } else {
            50int
        }),
        key >= tree.key(3) ==> tree.insert_growth(key) == tree.skip(3).insert_growth(key) + (
        if height == 0 {
            48int
        } else {
            75int
        }),
{
    match tree {
        Tree::Leaf { entries } => {
            let front = entries.take(3);
            let back = entries.skip(3);
            assert(front + back == entries);
            lemma_has_key_concat(front, back, key);
            if key < entries[3].key {
                if has_key(back, key) {
                    let i = choose|i: int| 0 <= i < back.len() && #[trigger] back[i].key == key;
                    if i > 0 {
                        assert(entries[3].key < entries[i + 3].key);
                    }
                }
            } else {
                if has_key(front, key) {
                    let i = choose|i: int| 0 <= i < front.len() && #[trigger] front[i].key == key;
                    assert(entries[i].key < entries[3].key);
                }
            }
        },
        Tree::Internal { entries, children } => {
            lemma_route_exists(entries, key);
            let i = route(entries, key);
            lemma_cut_sound(tree, height, lo, hi, 3);
            if key < entries[3].key {
                assert(i < 3) by {
                    if i >= 3 {
                        if i > 3 {
                            assert(entries[3].key < entries[i].key);
                        }
                    }
                }
                assert(routes_to(entries.take(3), key, i));
                lemma_route_unique(entries.take(3), key, i);
            } else {
                assert(i >= 3) by {
                    if i < 3 {
                        if i + 1 < 3 {
                            assert(entries[i + 1].key < entries[3].key);
                        }
                    }
                }
                assert(routes_to(entries.skip(3), key, i - 3));
                lemma_route_unique(entries.skip(3), key, i - 3);
            }
        },
    }
}

} // verus!
