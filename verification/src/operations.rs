//! Sequences of insertions and removals, and what they make of a store.

use vstd::prelude::*;
use vstd::bytes::{spec_u16_from_le_bytes, spec_u64_from_le_bytes};
use crate::codec::{get_u16_le, get_u64_le, get_u8};
use crate::cow_btree::{insert_in_btree, remove};
use crate::device::{
    lemma_same_below_chain, lemma_same_from_chain, same_below, same_from, BlockDevice,
};
use crate::error::Error;
use crate::insert_proofs::insert_room;
use crate::laws::{law_insert_growth_is_bounded, law_remove_growth_is_bounded};
use crate::merge_proofs::{pair_start, remove_growth, shifted};
use crate::node::{has_key, NodeEntry, BTREE_DEGREE};
use crate::object_pointer::ObjectPointer;
use crate::remove_proofs::remove_room;
use crate::tree::{btree_height, btree_map, btree_of, is_btree, route, Tree};

verus! {

/// One change to a store.
#[derive(Debug, Clone, Copy, PartialEq, Eq, Structural)]
pub enum Operation {
    /// Puts the value under the key.
    Insert(u64, u64),
    /// Takes the key out.
    Remove(u64),
}

/// What `operation` makes of `map`.
pub open spec fn apply(map: Map<u64, u64>, operation: Operation) -> Map<u64, u64> {
    match operation {
        Operation::Insert(key, value) => map.insert(key, value),
        Operation::Remove(key) => map.remove(key),
    }
}

/// What the first `n` of `operations`, one after the other, make of `map`.
pub open spec fn apply_first(map: Map<u64, u64>, operations: Seq<Operation>, n: nat) -> Map<
    u64,
    u64,
>
    decreases n,
{
    if n == 0 || n > operations.len() {
        map
    } else {
        apply(apply_first(map, operations, (n - 1) as nat), operations[n - 1])
    }
}

/// What `operations`, one after the other, make of `map`.
pub open spec fn apply_all(map: Map<u64, u64>, operations: Seq<Operation>) -> Map<u64, u64> {
    apply_first(map, operations, operations.len())
}

/// The most bytes that `operation` appends to a tree of height `height`.
pub open spec fn room(operation: Operation, height: nat) -> int {
    match operation {
        Operation::Insert(_, _) => insert_room(height),
        Operation::Remove(_) => remove_room(height),
    }
}

/// The most bytes that the first `n` of `operations` append to a tree that
/// starts at height `height`: each operation may find the tree one level
/// higher than the one before it did.
pub open spec fn run_room(height: nat, operations: Seq<Operation>, n: nat) -> int
    decreases n,
{
    if n == 0 || n > operations.len() {
        0
    } else {
        run_room(height, operations, (n - 1) as nat) + room(
            operations[n - 1],
            (height + n - 1) as nat,
        )
    }
}

/// A longer run needs no less room.
pub proof fn lemma_run_room_grows(height: nat, operations: Seq<Operation>, n: nat, m: nat)
    requires
        n <= m <= operations.len(),
    ensures
        0 <= run_room(height, operations, n) <= run_room(height, operations, m),
    decreases m,
{
    if n < m {
        lemma_run_room_grows(height, operations, n, (m - 1) as nat);
    } else if n > 0 {
        lemma_run_room_grows(height, operations, (n - 1) as nat, (n - 1) as nat);
    }
}

/// A tree, its height, and the free-space offset behind it.
pub struct Store {
    pub tree: Tree,
    pub height: nat,
    pub fso: int,
}

/// What `operation` makes of a store: the tree that [`Tree::put_root`] or
/// [`Tree::cut_root`] names, and the free-space offset behind what was
/// written for it.
pub open spec fn step(store: Store, operation: Operation) -> Store {
    match operation {
        Operation::Insert(key, value) => Store {
            tree: store.tree.put_root(store.height, NodeEntry { key, value }, store.fso),
            height: if store.tree.len() == BTREE_DEGREE {
                store.height + 1
            } else {
                store.height
            },
            fso: store.fso + store.tree.insert_growth(key) + if store.tree.len() == BTREE_DEGREE {
                50int
            } else {
                0int
            },
        },
        Operation::Remove(key) => Store {
            tree: store.tree.cut_root(store.height, key, store.fso).0,
            height: store.tree.cut_root(store.height, key, store.fso).1,
            fso: store.fso + if store.tree.len() > 0 && key < store.tree.key(0) {
                0int
            } else {
                remove_growth(store.tree, store.height, key)
            },
        },
    }
}

/// What the first `n` of `operations`, one after the other, make of a
/// store.
pub open spec fn run(store: Store, operations: Seq<Operation>, n: nat) -> Store
    decreases n,
{
    if n == 0 || n > operations.len() {
        store
    } else {
        step(run(store, operations, (n - 1) as nat), operations[n - 1])
    }
}

/// The store under `root` on `device`, with the free-space offset at `fso`.
pub open spec fn store_at(device: Seq<u8>, root: ObjectPointer, fso: int) -> Store {
    Store { tree: btree_of(device, root), height: btree_height(device, root), fso }
}

/// An insertion appends no negative number of bytes.
pub proof fn lemma_insert_appends(tree: Tree, key: u64)
    ensures
        tree.insert_growth(key) >= 0,
    decreases tree,
{
    match tree {
        Tree::Leaf { .. } => {},
        Tree::Internal { entries, children } => {
            let i = route(entries, key);
            if 0 <= i < children.len() {
                lemma_insert_appends(children[i], key);
            }
        },
    }
}

/// A removal appends no negative number of bytes.
pub proof fn lemma_remove_appends(tree: Tree, height: nat, key: u64)
    ensures
        remove_growth(tree, height, key) >= 0,
    decreases height,
{
    match tree {
        Tree::Leaf { entries } => {
            if has_key(entries, key) {
                assert(entries.len() > 0);
            }
        },
        Tree::Internal { entries, children } => {
            let i = route(entries, key);
            let from_left = i > 0;
            let a = pair_start(i);
            if height > 0 && 0 <= i < children.len() {
                let below = (height - 1) as nat;
                lemma_remove_appends(children[i], below, key);
                if a + 1 < children.len() {
                    lemma_remove_appends(children[a].join(children[a + 1]), below, key);
                    lemma_remove_appends(shifted(tree, a, from_left).0, below, key);
                    lemma_remove_appends(shifted(tree, a, from_left).1, below, key);
                }
            }
        },
    }
}

/// A longer run leaves the free-space offset no lower.
pub proof fn lemma_run_appends(store: Store, operations: Seq<Operation>, n: nat, m: nat)
    requires
        n <= m <= operations.len(),
    ensures
        run(store, operations, n).fso <= run(store, operations, m).fso,
    decreases m,
{
    if n < m {
        lemma_run_appends(store, operations, n, (m - 1) as nat);
        let before = run(store, operations, (m - 1) as nat);
        match operations[m - 1] {
            Operation::Insert(key, _) => {
                lemma_insert_appends(before.tree, key);
            },
            Operation::Remove(key) => {
                lemma_remove_appends(before.tree, before.height, key);
            },
        }
    }
}

/// Applies `operations`, one after the other, to the tree under `op` and
/// returns the pointer to the last root and the last free-space offset.
///
/// The first operation that fails ends the run with its error. Nothing below
/// `free_space_offset` is written, so the tree under `op` stands as it was
/// whatever happens, and nothing from the offset returned on. The tree that
/// a run leaves is the one that [`run`] names. On a device that serves every
/// request within it, a run fails only for want of room: exactly when the
/// free-space offset that [`run`] names lies beyond the device, and so not
/// where [`run_room`] bytes are free.
pub fn apply_operations<D: BlockDevice>(
    dev: &mut D,
    op: ObjectPointer,
    free_space_offset: u64,
    operations: &Vec<Operation>,
) -> (r: Result<(ObjectPointer, u64), Error>)
    ensures
        same_below(old(dev).view(), final(dev).view(), free_space_offset as int),
        final(dev).faultless() == old(dev).faultless(),
        operations@.len() == 0 ==> r == Ok::<(ObjectPointer, u64), Error>((op, free_space_offset)),
        r matches Ok((_, fso)) ==> same_from(old(dev).view(), final(dev).view(), fso as int),
        is_btree(old(dev).view(), op, free_space_offset as int) ==> (r matches Ok((root, fso)) ==> {
            &&& is_btree(final(dev).view(), root, fso as int)
            &&& store_at(final(dev).view(), root, fso as int) == run(
                store_at(old(dev).view(), op, free_space_offset as int),
                operations@,
                operations@.len(),
            )
            &&& free_space_offset <= fso <= free_space_offset + run_room(
                btree_height(old(dev).view(), op),
                operations@,
                operations@.len(),
            )
            &&& btree_map(final(dev).view(), root) == apply_all(
                btree_map(old(dev).view(), op),
                operations@,
            )
            &&& btree_of(old(dev).view(), op).exact() ==> btree_of(final(dev).view(), root).exact()
        }),
        is_btree(old(dev).view(), op, free_space_offset as int) && old(dev).faultless() ==> (
        r matches Err(e) ==> {
            &&& e == Error::OutOfRange
            &&& run(
                store_at(old(dev).view(), op, free_space_offset as int),
                operations@,
                operations@.len(),
            ).fso > old(dev).view().len()
            &&& free_space_offset + run_room(
                btree_height(old(dev).view(), op),
                operations@,
                operations@.len(),
            ) > old(dev).view().len()
        }),
{
    let ghost start = old(dev).view();
    let ghost valid = is_btree(start, op, free_space_offset as int);
    let ghost height = btree_height(start, op);
    let mut root = op;
    let mut fso = free_space_offset;
    let mut i: usize = 0;
    while i < operations.len()
        invariant
            i <= operations@.len(),
            start == old(dev).view(),
            same_below(start, dev.view(), free_space_offset as int),
            dev.faultless() == old(dev).faultless(),
            free_space_offset <= fso,
            i == 0 ==> root == op && fso == free_space_offset,
            valid == is_btree(start, op, free_space_offset as int),
            height == btree_height(start, op),
            valid ==> is_btree(dev.view(), root, fso as int),
            valid ==> btree_height(dev.view(), root) <= height + i,
            valid ==> fso <= free_space_offset + run_room(height, operations@, i as nat),
            valid ==> btree_map(dev.view(), root) == apply_first(
                btree_map(start, op),
                operations@,
                i as nat,
            ),
            valid ==> store_at(dev.view(), root, fso as int) == run(
                store_at(start, op, free_space_offset as int),
                operations@,
                i as nat,
            ),
            same_from(start, dev.view(), fso as int),
            valid && btree_of(start, op).exact() ==> btree_of(dev.view(), root).exact(),
        decreases operations@.len() - i,
    {
        let ghost middle = dev.view();
        let ghost grown = run_room(height, operations@, (i + 1) as nat);
        proof {
            lemma_run_room_grows(height, operations@, (i + 1) as nat, operations@.len());
            lemma_run_appends(
                store_at(start, op, free_space_offset as int),
                operations@,
                (i + 1) as nat,
                operations@.len(),
            );
            if valid {
                match operations@[i as int] {
                    Operation::Insert(key, _) => {
                        law_insert_growth_is_bounded(middle, root, key);
                    },
                    Operation::Remove(key) => {
                        law_remove_growth_is_bounded(middle, root, key);
                    },
                }
            }
        }
        let done = match operations[i] {
            Operation::Insert(key, value) => insert_in_btree(
                dev,
                root,
                fso,
                NodeEntry::new(key, value),
            ),
            Operation::Remove(key) => remove(dev, root, fso, key),
        };
        proof {
            lemma_same_below_chain(start, middle, dev.view(), free_space_offset as int, fso as int);
        }
        match done {
            Ok((new_root, new_fso, _)) => {
                proof {
                    lemma_same_from_chain(start, middle, dev.view(), fso as int, new_fso as int);
                }
                root = new_root;
                fso = new_fso;
            },
            Err(e) => {
                return Err(e);
            },
        }
        i += 1;
    }
    Ok((root, fso))
}

/// `operations` in front of what the rest of the bytes gave.
pub open spec fn after(operations: Seq<Operation>, rest: Option<Seq<Operation>>) -> Option<
    Seq<Operation>,
> {
    match rest {
        Some(more) => Some(operations + more),
        None => None,
    }
}

/// The operations that `bytes` stand for, of which `counter` came before.
///
/// Each operation is three bytes: a tag, 0 for an insertion and 1 for a
/// removal, and a key of two bytes, least-significant first. An insertion
/// puts under its key the number of operations that came before it. The list
/// ends where fewer than three bytes are left; a tag that is neither 0 nor 1
/// leaves no list at all.
pub open spec fn operations_of(bytes: Seq<u8>, counter: nat) -> Option<Seq<Operation>>
    decreases bytes.len(),
{
    if bytes.len() < 1 {
        Some(Seq::empty())
    } else if bytes[0] != 0 && bytes[0] != 1 {
        None
    } else if bytes.len() < 3 {
        Some(Seq::empty())
    } else {
        let key = spec_u16_from_le_bytes(bytes.subrange(1, 3)) as u64;
        let first = if bytes[0] == 0 {
            Operation::Insert(key, counter as u64)
        } else {
            Operation::Remove(key)
        };
        after(seq![first], operations_of(bytes.subrange(3, bytes.len() as int), counter + 1))
    }
}

/// Decodes a list of operations from raw bytes; see [`operations_of`].
pub fn raw_to_vec_of_operation(data: &[u8]) -> (operations: Option<Vec<Operation>>)
    ensures
        match operations {
            Some(list) => operations_of(data@, 0) == Some(list@),
            None => operations_of(data@, 0) is None,
        },
{
    let mut vec: Vec<Operation> = Vec::new();
    let mut pos: usize = 0;
    let mut counter: u64 = 0;
    proof {
        assert(data@.subrange(0, data@.len() as int) == data@);
        match operations_of(data@, 0) {
            Some(all) => {
                assert(Seq::<Operation>::empty() + all == all);
            },
            None => {},
        }
    }
    loop
        invariant
            pos <= data@.len(),
            counter <= pos,
            operations_of(data@, 0) == after(
                vec@,
                operations_of(data@.subrange(pos as int, data@.len() as int), counter as nat),
            ),
        decreases data@.len() - pos,
    {
        let ghost rest = data@.subrange(pos as int, data@.len() as int);
        if data.len() - pos < 1 {
            proof {
                assert(vec@ + Seq::<Operation>::empty() == vec@);
            }
            return Some(vec);
        }
        let tag = get_u8(data, pos);
        proof {
            assert(rest[0] == data@[pos as int]);
        }
        if tag != 0 && tag != 1 {
            return None;
        }
        if data.len() - pos < 3 {
            proof {
                assert(vec@ + Seq::<Operation>::empty() == vec@);
            }
            return Some(vec);
        }
        let key = get_u16_le(data, pos + 1) as u64;
        let operation = if tag == 0 {
            Operation::Insert(key, counter)
        } else {
            Operation::Remove(key)
        };
        proof {
            assert(rest.subrange(1, 3) == data@.subrange(pos + 1, pos + 3));
            assert(rest.subrange(3, rest.len() as int) == data@.subrange(
                pos + 3,
                data@.len() as int,
            ));
            match operations_of(data@.subrange(pos + 3, data@.len() as int), (counter + 1) as nat) {
                Some(more) => {
                    assert(vec@ + (seq![operation] + more) == vec@.push(operation) + more);
                },
                None => {},
            }
        }
        vec.push(operation);
        pos += 3;
        counter += 1;
    }
}

/// The pairs of eight-byte numbers, least-significant byte first, that
/// `bytes` start with, as many as fit.
pub open spec fn pairs_u64(bytes: Seq<u8>) -> Seq<(u64, u64)> {
    Seq::new(
        (bytes.len() / 16) as nat,
        |i: int|
            (
                spec_u64_from_le_bytes(bytes.subrange(16 * i, 16 * i + 8)),
                spec_u64_from_le_bytes(bytes.subrange(16 * i + 8, 16 * i + 16)),
            ),
    )
}

/// The pairs of two-byte numbers, least-significant byte first, that `bytes`
/// start with, as many as fit.
pub open spec fn pairs_u16(bytes: Seq<u8>) -> Seq<(u64, u64)> {
    Seq::new(
        (bytes.len() / 4) as nat,
        |i: int|
            (
                spec_u16_from_le_bytes(bytes.subrange(4 * i, 4 * i + 2)) as u64,
                spec_u16_from_le_bytes(bytes.subrange(4 * i + 2, 4 * i + 4)) as u64,
            ),
    )
}

/// Decodes pairs of eight-byte numbers, least-significant byte first, from
/// raw bytes. What is left after the last whole pair is passed over.
pub fn raw_to_vec_of_tuple_u64(data: &[u8]) -> (pairs: Vec<(u64, u64)>)
    ensures
        pairs@ == pairs_u64(data@),
{
    let vec_len = data.len() / 16;
    let mut vec: Vec<(u64, u64)> = Vec::new();
    let mut i: usize = 0;
    while i < vec_len
        invariant
            i <= vec_len,
            vec_len == data@.len() / 16,
            data@.len() <= usize::MAX,
            vec@ == pairs_u64(data@).take(i as int),
        decreases vec_len - i,
    {
        assert(16 * (i + 1) <= data@.len()) by (nonlinear_arith)
            requires
                i + 1 <= data@.len() / 16,
        ;
        let key = get_u64_le(data, 16 * i);
        let value = get_u64_le(data, 16 * i + 8);
        vec.push((key, value));
        proof {
            let all = pairs_u64(data@);
            assert(all[i as int] == (key, value));
            assert(all.take(i + 1) == all.take(i as int).push(all[i as int]));
        }
        i += 1;
    }
    proof {
        assert(pairs_u64(data@).take(vec_len as int) == pairs_u64(data@));
    }
    vec
}

/// Decodes pairs of two-byte numbers, least-significant byte first, from raw
/// bytes. What is left after the last whole pair is passed over.
pub fn raw_to_vec_of_tuple_u16(data: &[u8]) -> (pairs: Vec<(u64, u64)>)
    ensures
        pairs@ == pairs_u16(data@),
{
    let vec_len = data.len() / 4;
    let mut vec: Vec<(u64, u64)> = Vec::new();
    let mut i: usize = 0;
    while i < vec_len
        invariant
            i <= vec_len,
            vec_len == data@.len() / 4,
            data@.len() <= usize::MAX,
            vec@ == pairs_u16(data@).take(i as int),
        decreases vec_len - i,
    {
        assert(4 * (i + 1) <= data@.len()) by (nonlinear_arith)
            requires
                i + 1 <= data@.len() / 4,
        ;
        let key = get_u16_le(data, 4 * i) as u64;
        let value = get_u16_le(data, 4 * i + 2) as u64;
        vec.push((key, value));
        proof {
            let all = pairs_u16(data@);
            assert(all[i as int] == (key, value));
            assert(all.take(i + 1) == all.take(i as int).push(all[i as int]));
        }
        i += 1;
    }
    proof {
        assert(pairs_u16(data@).take(vec_len as int) == pairs_u16(data@));
    }
    vec
}

} // verus!
