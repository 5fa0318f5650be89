//! Facts about sound trees: how their in-order entries decompose, and how
//! soundness survives when subtrees are replaced.

use vstd::prelude::*;
use crate::node::{sorted_keys, LeafNodeEntry, NodeEntry, BTREE_B, BTREE_DEGREE};
use crate::sorted::lemma_sorted_concat;
use crate::tree::{flat_of, flat_prefix, upper, within, Tree};

verus! {

/// No trees have no entries.
pub proof fn lemma_flat_of_empty()
    ensures
        flat_of(Seq::<Tree>::empty()) == Seq::<LeafNodeEntry>::empty(),
{
}

/// The first `n` trees of a run are the first `n` trees of any longer run.
pub proof fn lemma_flat_prefix_concat(x: Seq<Tree>, y: Seq<Tree>, n: nat)
    requires
        n <= x.len(),
    ensures
        flat_prefix(x + y, n) == flat_prefix(x, n),
    decreases n,
{
    if n > 0 {
        lemma_flat_prefix_concat(x, y, (n - 1) as nat);
        assert((x + y)[n - 1] == x[n - 1]);
    }
}

/// The entries of trees side by side are their entries side by side.
pub proof fn lemma_flat_of_concat(x: Seq<Tree>, y: Seq<Tree>)
    ensures
        flat_of(x + y) == flat_of(x) + flat_of(y),
    decreases y.len(),
{
    if y.len() == 0 {
        assert(x + y == x);
        assert(flat_of(x) + Seq::<LeafNodeEntry>::empty() == flat_of(x));
    } else {
        let front = y.drop_last();
        lemma_flat_of_concat(x, front);
        assert((x + y).len() == x.len() + y.len());
        assert((x + y)[x.len() + y.len() - 1] == y.last());
        assert(x + y == (x + front).push(y.last()));
        lemma_flat_prefix_concat(x + front, seq![y.last()], (x + front).len());
        assert((x + front) + seq![y.last()] == x + y);
        lemma_flat_prefix_concat(front, seq![y.last()], front.len());
        assert(front + seq![y.last()] == y);
        assert(flat_of(x + y) == flat_of(x + front) + y.last().flat());
        assert(flat_of(y) == flat_of(front) + y.last().flat());
        assert(flat_of(x) + flat_of(front) + y.last().flat() == flat_of(x) + (flat_of(front)
            + y.last().flat()));
    }
}

/// The entries of one tree alone are its own.
pub proof fn lemma_flat_of_one(tree: Tree)
    ensures
        flat_of(seq![tree]) == tree.flat(),
{
    assert(flat_prefix(seq![tree], 0) == Seq::<LeafNodeEntry>::empty());
    assert(seq![tree][0] == tree);
    assert(Seq::<LeafNodeEntry>::empty() + tree.flat() == tree.flat());
}

/// The same for three runs of trees.
pub proof fn lemma_flat_of_concat3(x: Seq<Tree>, y: Seq<Tree>, z: Seq<Tree>)
    ensures
        flat_of(x + y + z) == flat_of(x) + flat_of(y) + flat_of(z),
{
    lemma_flat_of_concat(x + y, z);
    lemma_flat_of_concat(x, y);
}

/// The entries of two trees side by side.
pub proof fn lemma_flat_of_two(left: Tree, right: Tree)
    ensures
        flat_of(seq![left, right]) == left.flat() + right.flat(),
{
    assert(seq![left, right] == seq![left] + seq![right]);
    lemma_flat_of_concat(seq![left], seq![right]);
    lemma_flat_of_one(left);
    lemma_flat_of_one(right);
}

/// The entries of an internal node are those of its subtrees, in order.
pub proof fn lemma_flat_internal(tree: Tree)
    requires
        tree is Internal,
    ensures
        tree.flat() == flat_of(tree.children()),
{
}

/// A sound tree is sound between wider bounds.
pub proof fn lemma_sound_widen(tree: Tree, height: nat, lo: int, hi: int, lo2: int, hi2: int)
    requires
        tree.sound(height, lo, hi),
        lo2 <= lo,
        hi <= hi2,
    ensures
        tree.sound(height, lo2, hi2),
    decreases tree,
{
    match tree {
        Tree::Leaf { entries } => {
            assert forall|i: int| 0 <= i < entries.len() implies lo2 <= (#[trigger] entries[i]).key
                < hi2 by {
                assert(lo <= entries[i].key < hi);
            }
        },
        Tree::Internal { entries, children } => {
            assert forall|i: int| 0 <= i < entries.len() implies lo2 <= (#[trigger] entries[i]).key
                < hi2 by {
                assert(lo <= entries[i].key < hi);
            }
            assert forall|i: int| 0 <= i < children.len() implies {
                &&& (#[trigger] children[i]).sound(
                    (height - 1) as nat,
                    entries[i].key as int,
                    upper(entries, i, hi2),
                )
                &&& BTREE_B <= children[i].len() <= BTREE_DEGREE
            } by {
                assert(children[i].sound(
                    (height - 1) as nat,
                    entries[i].key as int,
                    upper(entries, i, hi),
                ));
                lemma_sound_widen(
                    children[i],
                    (height - 1) as nat,
                    entries[i].key as int,
                    upper(entries, i, hi),
                    entries[i].key as int,
                    upper(entries, i, hi2),
                );
            }
        },
    }
}

/// A sound tree with entries is sound from its first key on.
pub proof fn lemma_sound_tighten(tree: Tree, height: nat, lo: int, hi: int)
    requires
        tree.sound(height, lo, hi),
        tree.len() > 0,
    ensures
        tree.sound(height, tree.key(0) as int, hi),
        lo <= tree.key(0) < hi,
{
    match tree {
        Tree::Leaf { entries } => {
            assert(lo <= entries[0].key < hi);
            assert forall|i: int| 0 <= i < entries.len() implies entries[0].key <= (
            #[trigger] entries[i]).key < hi by {
                assert(lo <= entries[i].key < hi);
                if i > 0 {
                    assert(entries[0].key < entries[i].key);
                }
            }
        },
        Tree::Internal { entries, children } => {
            assert(lo <= entries[0].key < hi);
            assert forall|i: int| 0 <= i < entries.len() implies entries[0].key <= (
            #[trigger] entries[i]).key < hi by {
                assert(lo <= entries[i].key < hi);
                if i > 0 {
                    assert(entries[0].key < entries[i].key);
                }
            }
        },
    }
}

/// The bound below the keys under the subtrees from `a` on: the key of entry
/// `a`, or `hi` when there is none.
pub open spec fn segment_lo<V>(entries: Seq<NodeEntry<V>>, a: int, hi: int) -> int {
    if a < entries.len() {
        entries[a].key as int
    } else {
        hi
    }
}

/// The in-order entries of a sound tree ascend strictly and lie within the
/// bounds of the tree.
pub proof fn lemma_flat_sound(tree: Tree, height: nat, lo: int, hi: int)
    requires
        tree.sound(height, lo, hi),
    ensures
        sorted_keys(tree.flat()),
        within(tree.flat(), lo, hi),
    decreases tree, tree.children().len() + 1,
{
    match tree {
        Tree::Leaf { entries } => {},
        Tree::Internal { entries, children } => {
            lemma_flat_internal(tree);
            assert(children.subrange(0, children.len() as int) == children);
            lemma_flat_segment(tree, height, lo, hi, 0, children.len() as int);
            if children.len() == 0 {
                lemma_flat_of_empty();
            } else {
                let flat = tree.flat();
                assert(lo <= entries[0].key);
                assert forall|i: int| 0 <= i < flat.len() implies lo <= (#[trigger] flat[i]).key
                    < hi by {
                    assert(entries[0].key <= flat[i].key < hi);
                }
            }
        },
    }
}

/// The in-order entries of the subtrees `a..b` of a sound internal node ascend
/// strictly, from the key of entry `a` on and below the key of entry `b`.
pub proof fn lemma_flat_segment(tree: Tree, height: nat, lo: int, hi: int, a: int, b: int)
    requires
        tree is Internal,
        tree.sound(height, lo, hi),
        0 <= a <= b <= tree.len(),
    ensures
        sorted_keys(flat_of(tree.children().subrange(a, b))),
        a < b ==> within(
            flat_of(tree.children().subrange(a, b)),
            tree.key(a) as int,
            segment_lo(tree->Internal_entries, b, hi),
        ),
        a == b ==> flat_of(tree.children().subrange(a, b)).len() == 0,
    decreases tree, b,
{
    let entries = tree->Internal_entries;
    let children = tree->Internal_children;
    if a == b {
        assert(children.subrange(a, b) == Seq::<Tree>::empty());
        lemma_flat_of_empty();
    } else {
        let last = children[b - 1];
        lemma_flat_segment(tree, height, lo, hi, a, b - 1);
        assert(last.sound(
            (height - 1) as nat,
            entries[b - 1].key as int,
            upper(entries, b - 1, hi),
        ));
        lemma_flat_sound(last, (height - 1) as nat, entries[b - 1].key as int, upper(entries, b - 1, hi));
        assert(children.subrange(a, b) == children.subrange(a, b - 1) + seq![last]);
        lemma_flat_of_concat(children.subrange(a, b - 1), seq![last]);
        lemma_flat_of_one(last);
        let front = flat_of(children.subrange(a, b - 1));
        assert(upper(entries, b - 1, hi) == segment_lo(entries, b, hi));
        assert(entries[b - 1].key < segment_lo(entries, b, hi)) by {
            if b < entries.len() {
                assert(entries[b - 1].key < entries[b].key);
            } else {
                assert(lo <= entries[b - 1].key < hi);
            }
        }
        if a == b - 1 {
            assert(front + last.flat() == last.flat());
        } else {
            assert(entries[a].key < entries[b - 1].key);
            lemma_sorted_concat(
                front,
                last.flat(),
                entries[a].key as int,
                entries[b - 1].key as int,
                segment_lo(entries, b, hi),
            );
        }
    }
}

/// The height that a sound tree is sound at is its height.
pub proof fn lemma_sound_height(tree: Tree, height: nat, lo: int, hi: int)
    requires
        tree.sound(height, lo, hi),
        tree is Internal ==> tree.len() > 0,
    ensures
        tree.height() == height,
    decreases tree,
{
    match tree {
        Tree::Leaf { .. } => {},
        Tree::Internal { entries, children } => {
            assert(children[0].sound(
                (height - 1) as nat,
                entries[0].key as int,
                upper(entries, 0, hi),
            ));
            lemma_sound_height(
                children[0],
                (height - 1) as nat,
                entries[0].key as int,
                upper(entries, 0, hi),
            );
        },
    }
}

} // verus!
