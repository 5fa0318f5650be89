//! Facts about runs of leaf entries with ascending keys and the maps they
//! stand for.

use vstd::prelude::*;
use crate::node::{has_key, insertion_point, sorted_keys, LeafNodeEntry, NodeEntry};
use crate::tree::{entries_map, lookup, within};

verus! {

/// In a sorted run, an entry is what the map holds for its key.
pub proof fn lemma_lookup_index(entries: Seq<LeafNodeEntry>, i: int)
    requires
        sorted_keys(entries),
        0 <= i < entries.len(),
    ensures
        lookup(entries_map(entries), entries[i].key) == Some(entries[i].value),
{
    let key = entries[i].key;
    assert(has_key(entries, key));
    let j = choose|j: int| 0 <= j < entries.len() && #[trigger] entries[j].key == key;
    assert(j == i) by {
        if j < i {
            assert(entries[j].key < entries[i].key);
        } else if i < j {
            assert(entries[i].key < entries[j].key);
        }
    }
}

/// A key that no entry has is not in the map.
pub proof fn lemma_lookup_absent(entries: Seq<LeafNodeEntry>, key: u64)
    requires
        !has_key(entries, key),
    ensures
        lookup(entries_map(entries), key) == None::<u64>,
{
}

/// A key that the map holds is the key of some entry, and the map holds that
/// entry's value.
pub proof fn lemma_lookup_present(entries: Seq<LeafNodeEntry>, key: u64) -> (i: int)
    requires
        sorted_keys(entries),
        has_key(entries, key),
    ensures
        0 <= i < entries.len(),
        entries[i].key == key,
        lookup(entries_map(entries), key) == Some(entries[i].value),
{
    let i = choose|i: int| 0 <= i < entries.len() && #[trigger] entries[i].key == key;
    lemma_lookup_index(entries, i);
    i
}

/// A key is in a concatenation exactly when it is in one of the parts.
pub proof fn lemma_has_key_concat<V>(a: Seq<NodeEntry<V>>, b: Seq<NodeEntry<V>>, key: u64)
    ensures
        has_key(a + b, key) <==> has_key(a, key) || has_key(b, key),
{
    if has_key(a + b, key) {
        let i = choose|i: int| 0 <= i < (a + b).len() && #[trigger] (a + b)[i].key == key;
        if i < a.len() {
            assert(a[i].key == key);
        } else {
            assert(b[i - a.len()].key == key);
        }
    }
    if has_key(a, key) {
        let i = choose|i: int| 0 <= i < a.len() && #[trigger] a[i].key == key;
        assert((a + b)[i].key == key);
    }
    if has_key(b, key) {
        let i = choose|i: int| 0 <= i < b.len() && #[trigger] b[i].key == key;
        assert((a + b)[i + a.len()].key == key);
    }
}

/// Two sorted runs, the first below `mid` and the second from `mid` on, make a
/// sorted run.
pub proof fn lemma_sorted_concat<V>(
    a: Seq<NodeEntry<V>>,
    b: Seq<NodeEntry<V>>,
    lo: int,
    mid: int,
    hi: int,
)
    requires
        sorted_keys(a),
        sorted_keys(b),
        within(a, lo, mid),
        within(b, mid, hi),
        lo <= mid <= hi,
    ensures
        sorted_keys(a + b),
        within(a + b, lo, hi),
{
    assert forall|i: int, j: int| 0 <= i < j < (a + b).len() implies (a + b)[i].key < (a + b)[j].key by {
        if j < a.len() {
            assert(a[i].key < a[j].key);
        } else if i >= a.len() {
            assert(b[i - a.len()].key < b[j - a.len()].key);
        } else {
            assert(a[i].key < mid);
            assert(mid <= b[j - a.len()].key);
        }
    }
    assert forall|i: int| 0 <= i < (a + b).len() implies lo <= (#[trigger] (a + b)[i]).key < hi by {
        if i < a.len() {
            assert(lo <= a[i].key < mid);
        } else {
            assert(mid <= b[i - a.len()].key < hi);
        }
    }
}

/// The parts of a sorted run are sorted.
pub proof fn lemma_sorted_parts<V>(a: Seq<NodeEntry<V>>, b: Seq<NodeEntry<V>>)
    requires
        sorted_keys(a + b),
    ensures
        sorted_keys(a),
        sorted_keys(b),
{
    assert forall|i: int, j: int| 0 <= i < j < a.len() implies a[i].key < a[j].key by {
        assert((a + b)[i].key < (a + b)[j].key);
    }
    assert forall|i: int, j: int| 0 <= i < j < b.len() implies b[i].key < b[j].key by {
        assert((a + b)[i + a.len()].key < (a + b)[j + a.len()].key);
    }
}

/// What a sorted concatenation holds for a key is what the part with that key
/// holds for it.
pub proof fn lemma_lookup_concat(a: Seq<LeafNodeEntry>, b: Seq<LeafNodeEntry>, key: u64)
    requires
        sorted_keys(a + b),
    ensures
        lookup(entries_map(a + b), key) == if has_key(a, key) {
            lookup(entries_map(a), key)
        } else {
            lookup(entries_map(b), key)
        },
{
    lemma_sorted_parts(a, b);
    lemma_has_key_concat(a, b, key);
    if has_key(a, key) {
        let i = lemma_lookup_present(a, key);
        assert((a + b)[i] == a[i]);
        lemma_lookup_index(a + b, i);
    } else if has_key(b, key) {
        let i = lemma_lookup_present(b, key);
        assert((a + b)[i + a.len()] == b[i]);
        lemma_lookup_index(a + b, i + a.len());
    }
}

/// The same for a run of three parts.
pub proof fn lemma_lookup_concat3(
    a: Seq<LeafNodeEntry>,
    b: Seq<LeafNodeEntry>,
    c: Seq<LeafNodeEntry>,
    key: u64,
)
    requires
        sorted_keys(a + b + c),
    ensures
        lookup(entries_map(a + b + c), key) == if has_key(a, key) {
            lookup(entries_map(a), key)
        } else if has_key(b, key) {
            lookup(entries_map(b), key)
        } else {
            lookup(entries_map(c), key)
        },
        !has_key(a, key) && !has_key(c, key) ==> lookup(entries_map(a + b + c), key) == lookup(
            entries_map(b),
            key,
        ),
{
    lemma_lookup_concat(a + b, c, key);
    lemma_sorted_parts(a + b, c);
    lemma_lookup_concat(a, b, key);
    lemma_has_key_concat(a, b, key);
}

/// Two maps that hold the same for every key are the same map.
pub proof fn lemma_maps_equal(m1: Map<u64, u64>, m2: Map<u64, u64>)
    requires
        forall|key: u64| lookup(m1, key) == lookup(m2, key),
    ensures
        m1 == m2,
{
    assert forall|key: u64| m1.dom().contains(key) == m2.dom().contains(key) by {
        assert(lookup(m1, key) == lookup(m2, key));
    }
    assert forall|key: u64| #[trigger] m1.dom().contains(key) implies m1[key] == m2[key] by {
        assert(lookup(m1, key) == lookup(m2, key));
    }
    assert(m1 =~= m2);
}

/// Putting a pair into the middle part of a sorted run puts it into the run.
pub proof fn lemma_put_segment(
    a: Seq<LeafNodeEntry>,
    b: Seq<LeafNodeEntry>,
    b2: Seq<LeafNodeEntry>,
    c: Seq<LeafNodeEntry>,
    key: u64,
    value: u64,
)
    requires
        sorted_keys(a + b + c),
        sorted_keys(a + b2 + c),
        entries_map(b2) == entries_map(b).insert(key, value),
    ensures
        entries_map(a + b2 + c) == entries_map(a + b + c).insert(key, value),
        lookup(entries_map(a + b + c), key) == lookup(entries_map(b), key),
{
    let before = entries_map(a + b + c);
    let after = entries_map(a + b2 + c);
    assert(entries_map(b2).dom().contains(key));
    assert(has_key(b2, key));
    assert forall|q: u64| lookup(after, q) == lookup(before.insert(key, value), q) by {
        lemma_lookup_concat3(a, b, c, q);
        lemma_lookup_concat3(a, b2, c, q);
        assert(has_key(b2, q) == entries_map(b2).dom().contains(q));
        assert(has_key(b, q) == entries_map(b).dom().contains(q));
        if has_key(a, q) || has_key(c, q) {
            lemma_has_key_concat(a, b2, q);
            lemma_has_key_concat(a + b2, c, q);
            if has_key(b2, q) {
                lemma_distinct_parts(a, b2, c, q);
            }
        }
    }
    lemma_maps_equal(after, before.insert(key, value));
    lemma_lookup_concat3(a, b, c, key);
    lemma_lookup_concat3(a, b2, c, key);
    if has_key(a, key) || has_key(c, key) {
        lemma_distinct_parts(a, b2, c, key);
    }
}

/// In a sorted run of three parts a key of the middle part is in neither of
/// the others.
pub proof fn lemma_distinct_parts<V>(
    a: Seq<NodeEntry<V>>,
    b: Seq<NodeEntry<V>>,
    c: Seq<NodeEntry<V>>,
    key: u64,
)
    requires
        sorted_keys(a + b + c),
        has_key(b, key),
    ensures
        !has_key(a, key),
        !has_key(c, key),
{
    let s = a + b + c;
    let j = choose|j: int| 0 <= j < b.len() && #[trigger] b[j].key == key;
    assert(s[a.len() + j] == b[j]);
    if has_key(a, key) {
        let i = choose|i: int| 0 <= i < a.len() && #[trigger] a[i].key == key;
        assert(s[i] == a[i]);
        assert(s[i].key < s[a.len() + j].key);
    }
    if has_key(c, key) {
        let i = choose|i: int| 0 <= i < c.len() && #[trigger] c[i].key == key;
        assert(s[a.len() + b.len() + i] == c[i]);
        assert(s[a.len() + j].key < s[a.len() + b.len() + i].key);
    }
}

/// Taking a key out of the middle part of a sorted run takes it out of the
/// run, when the other parts do not have it.
pub proof fn lemma_cut_segment(
    a: Seq<LeafNodeEntry>,
    b: Seq<LeafNodeEntry>,
    b2: Seq<LeafNodeEntry>,
    c: Seq<LeafNodeEntry>,
    key: u64,
)
    requires
        sorted_keys(a + b + c),
        sorted_keys(a + b2 + c),
        entries_map(b2) == entries_map(b).remove(key),
        !has_key(a, key),
        !has_key(c, key),
    ensures
        entries_map(a + b2 + c) == entries_map(a + b + c).remove(key),
        lookup(entries_map(a + b + c), key) == lookup(entries_map(b), key),
{
    let before = entries_map(a + b + c);
    let after = entries_map(a + b2 + c);
    assert forall|q: u64| lookup(after, q) == lookup(before.remove(key), q) by {
        lemma_lookup_concat3(a, b, c, q);
        lemma_lookup_concat3(a, b2, c, q);
        assert(has_key(b2, q) == entries_map(b2).dom().contains(q));
        assert(has_key(b, q) == entries_map(b).dom().contains(q));
    }
    lemma_maps_equal(after, before.remove(key));
    lemma_lookup_concat3(a, b, c, key);
}

/// Replacing the value of an entry replaces it in the map.
pub proof fn lemma_map_update(entries: Seq<LeafNodeEntry>, i: int, entry: LeafNodeEntry)
    requires
        sorted_keys(entries),
        0 <= i < entries.len(),
        entries[i].key == entry.key,
    ensures
        sorted_keys(entries.update(i, entry)),
        entries_map(entries.update(i, entry)) == entries_map(entries).insert(entry.key, entry.value),
        lookup(entries_map(entries), entry.key) == Some(entries[i].value),
{
    let after = entries.update(i, entry);
    assert(sorted_keys(after)) by {
        assert forall|x: int, y: int| 0 <= x < y < after.len() implies after[x].key < after[y].key by {
            assert(entries[x].key < entries[y].key);
        }
    }
    lemma_lookup_index(entries, i);
    assert forall|q: u64|
        lookup(entries_map(after), q) == lookup(
            entries_map(entries).insert(entry.key, entry.value),
            q,
        ) by {
        if has_key(after, q) {
            let j = lemma_lookup_present(after, q);
            if j != i {
                assert(entries[j] == after[j]);
                lemma_lookup_index(entries, j);
                assert(entries[j].key != entries[i].key) by {
                    if j < i {
                        assert(entries[j].key < entries[i].key);
                    } else {
                        assert(entries[i].key < entries[j].key);
                    }
                }
            }
        } else {
            if has_key(entries, q) {
                let j = choose|j: int| 0 <= j < entries.len() && #[trigger] entries[j].key == q;
                assert(after[j].key == q);
            }
            assert(after[i].key == entry.key);
        }
    }
    lemma_maps_equal(entries_map(after), entries_map(entries).insert(entry.key, entry.value));
}

/// Inserting an entry where its key belongs puts the pair into the map.
pub proof fn lemma_map_insert(entries: Seq<LeafNodeEntry>, i: int, entry: LeafNodeEntry)
    requires
        sorted_keys(entries),
        insertion_point(entries, entry.key, i),
    ensures
        sorted_keys(entries.insert(i, entry)),
        entries_map(entries.insert(i, entry)) == entries_map(entries).insert(entry.key, entry.value),
        lookup(entries_map(entries), entry.key) == None::<u64>,
{
    let after = entries.insert(i, entry);
    assert(sorted_keys(after)) by {
        assert forall|x: int, y: int| 0 <= x < y < after.len() implies after[x].key < after[y].key by {
            let ox = if x < i { x } else { x - 1 };
            let oy = if y < i { y } else { y - 1 };
            if x != i && y != i {
                assert(entries[ox].key < entries[oy].key);
            } else if x == i {
                assert(entry.key < entries[oy].key);
            } else {
                assert(entries[ox].key < entry.key);
            }
        }
    }
    assert(!has_key(entries, entry.key)) by {
        if has_key(entries, entry.key) {
            let j = choose|j: int| 0 <= j < entries.len() && #[trigger] entries[j].key == entry.key;
            if j < i {
                assert(entries[j].key < entry.key);
            } else {
                assert(entry.key < entries[j].key);
            }
        }
    }
    assert forall|q: u64|
        lookup(entries_map(after), q) == lookup(
            entries_map(entries).insert(entry.key, entry.value),
            q,
        ) by {
        if has_key(after, q) {
            let j = lemma_lookup_present(after, q);
            if j != i {
                let oj = if j < i { j } else { j - 1 };
                assert(entries[oj] == after[j]);
                lemma_lookup_index(entries, oj);
            }
        } else {
            if has_key(entries, q) {
                let j = choose|j: int| 0 <= j < entries.len() && #[trigger] entries[j].key == q;
                let nj = if j < i { j } else { j + 1 };
                assert(after[nj].key == q);
            }
            assert(after[i].key == entry.key);
        }
    }
    lemma_maps_equal(entries_map(after), entries_map(entries).insert(entry.key, entry.value));
}

/// Removing an entry takes its key out of the map.
pub proof fn lemma_map_remove(entries: Seq<LeafNodeEntry>, i: int)
    requires
        sorted_keys(entries),
        0 <= i < entries.len(),
    ensures
        sorted_keys(entries.remove(i)),
        entries_map(entries.remove(i)) == entries_map(entries).remove(entries[i].key),
        lookup(entries_map(entries), entries[i].key) == Some(entries[i].value),
{
    let after = entries.remove(i);
    let key = entries[i].key;
    assert(sorted_keys(after)) by {
        assert forall|x: int, y: int| 0 <= x < y < after.len() implies after[x].key < after[y].key by {
            let ox = if x < i { x } else { x + 1 };
            let oy = if y < i { y } else { y + 1 };
            assert(entries[ox].key < entries[oy].key);
        }
    }
    lemma_lookup_index(entries, i);
    assert forall|q: u64| lookup(entries_map(after), q) == lookup(entries_map(entries).remove(key), q) by {
        if has_key(after, q) {
            let j = lemma_lookup_present(after, q);
            let oj = if j < i { j } else { j + 1 };
            assert(entries[oj] == after[j]);
            lemma_lookup_index(entries, oj);
            assert(entries[oj].key != key) by {
                if oj < i {
                    assert(entries[oj].key < entries[i].key);
                } else {
                    assert(entries[i].key < entries[oj].key);
                }
            }
        } else {
            if has_key(entries, q) && q != key {
                let j = choose|j: int| 0 <= j < entries.len() && #[trigger] entries[j].key == q;
                let nj = if j < i { j } else { j - 1 };
                assert(after[nj].key == q);
            }
        }
    }
    lemma_maps_equal(entries_map(after), entries_map(entries).remove(key));
}

/// A sorted run has no entry for a key that the search did not find.
pub proof fn lemma_insertion_point_absent<V>(entries: Seq<NodeEntry<V>>, key: u64, i: int)
    requires
        insertion_point(entries, key, i),
    ensures
        !has_key(entries, key),
{
    if has_key(entries, key) {
        let j = choose|j: int| 0 <= j < entries.len() && #[trigger] entries[j].key == key;
        if j < i {
            assert(entries[j].key < key);
        } else {
            assert(key < entries[j].key);
        }
    }
}

/// Two sorted runs that stand for the same map are the same run.
pub proof fn lemma_sorted_unique(a: Seq<LeafNodeEntry>, b: Seq<LeafNodeEntry>)
    requires
        sorted_keys(a),
        sorted_keys(b),
        entries_map(a) == entries_map(b),
    ensures
        a == b,
    decreases a.len(),
{
    if a.len() == 0 {
        if b.len() > 0 {
            lemma_lookup_index(b, 0);
            lemma_lookup_absent(a, b[0].key);
        }
        assert(a =~= b);
    } else {
        lemma_lookup_index(a, 0);
        if !has_key(b, a[0].key) {
            lemma_lookup_absent(b, a[0].key);
        }
        let j = lemma_lookup_present(b, a[0].key);
        lemma_lookup_index(b, 0);
        if !has_key(a, b[0].key) {
            lemma_lookup_absent(a, b[0].key);
        }
        let i = lemma_lookup_present(a, b[0].key);
        assert(a[0].key <= a[i].key) by {
            if 0 < i {
                assert(a[0].key < a[i].key);
            }
        }
        assert(b[0].key <= b[j].key) by {
            if 0 < j {
                assert(b[0].key < b[j].key);
            }
        }
        assert(a[0] == b[0]);
        lemma_map_remove(a, 0);
        lemma_map_remove(b, 0);
        lemma_sorted_unique(a.remove(0), b.remove(0));
        assert(a =~= seq![a[0]] + a.remove(0));
        assert(b =~= seq![b[0]] + b.remove(0));
    }
}

} // verus!
