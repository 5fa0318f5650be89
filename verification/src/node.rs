//! B-tree nodes: sorted arrays of entries and their on-disk encoding.

use vstd::prelude::*;
use vstd::bytes::{
    lemma_auto_spec_u64_to_from_le_bytes, spec_u64_from_le_bytes, spec_u64_to_le_bytes,
};
use crate::codec::{get_u64_le, put_u64_le};
use crate::error::Error;
use crate::object_pointer::ObjectPointer;
use crate::serial::Serializable;

verus! {

/// The minimum number of entries of a node other than the root.
pub const BTREE_B: usize = 2;

/// The maximum number of entries of a node.
pub const BTREE_DEGREE: usize = 5;

/// The index at which a full node is split.
pub const BTREE_SPLIT: usize = 3;

/// One entry of a node: a key and what the node holds for it.
#[derive(Debug, Clone, Copy, PartialEq, Eq)]
pub struct NodeEntry<V> {
    pub key: u64,
    pub value: V,
}

/// An entry of a leaf: a key and its value.
pub type LeafNodeEntry = NodeEntry<u64>;

/// An entry of an internal node: a key and the child that holds it.
pub type InternalNodeEntry = NodeEntry<ObjectPointer>;

/// A node: entries in the order in which they are stored.
#[derive(Debug, PartialEq, Eq)]
pub struct Node<V> {
    pub entries: Vec<NodeEntry<V>>,
}

pub type LeafNode = Node<u64>;

pub type InternalNode = Node<ObjectPointer>;

impl<V> View for Node<V> {
    type V = Seq<NodeEntry<V>>;

    open spec fn view(&self) -> Seq<NodeEntry<V>> {
        self.entries@
    }
}

/// The keys of `entries` are strictly ascending.
pub open spec fn sorted_keys<V>(entries: Seq<NodeEntry<V>>) -> bool {
    forall|i: int, j: int| 0 <= i < j < entries.len() ==> entries[i].key < entries[j].key
}

/// Some entry of `entries` has the key `key`.
pub open spec fn has_key<V>(entries: Seq<NodeEntry<V>>, key: u64) -> bool {
    exists|i: int| 0 <= i < entries.len() && #[trigger] entries[i].key == key
}

/// `at` is where `key` belongs in `entries`: every key before it is smaller,
/// every key from it on is larger.
pub open spec fn insertion_point<V>(entries: Seq<NodeEntry<V>>, key: u64, at: int) -> bool {
    &&& 0 <= at <= entries.len()
    &&& forall|j: int| 0 <= j < at ==> (#[trigger] entries[j]).key < key
    &&& forall|j: int| at <= j < entries.len() ==> key < (#[trigger] entries[j]).key
}

/// The width of one encoded entry, in bytes.
pub open spec fn entry_size<V: Serializable>() -> nat {
    8 + V::spec_size()
}

/// The bytes of one entry: the key, then the value.
pub open spec fn entry_encoding<V: Serializable>(entry: NodeEntry<V>) -> Seq<u8> {
    spec_u64_to_le_bytes(entry.key) + entry.value.encoding()
}

/// What `entry_size()` bytes stand for.
pub open spec fn entry_decoding<V: Serializable>(bytes: Seq<u8>) -> Result<NodeEntry<V>, Error> {
    match V::decoding(bytes.subrange(8, bytes.len() as int)) {
        Ok(value) => Ok(NodeEntry { key: spec_u64_from_le_bytes(bytes.subrange(0, 8)), value }),
        Err(e) => Err(e),
    }
}

/// The bytes of a node: its entries one after the other, with no header.
pub open spec fn node_encoding<V: Serializable>(entries: Seq<NodeEntry<V>>) -> Seq<u8>
    decreases entries.len(),
{
    if entries.len() == 0 {
        Seq::empty()
    } else {
        entry_encoding(entries[0]) + node_encoding(entries.drop_first())
    }
}

/// `decoded` in front of what the rest of the bytes gave.
pub open spec fn prepend<E>(decoded: Seq<E>, rest: Result<Seq<E>, Error>) -> Result<Seq<E>, Error> {
    match rest {
        Ok(entries) => Ok(decoded + entries),
        Err(e) => Err(e),
    }
}

/// The entries that `bytes` stand for. Entries are taken from the front while
/// a whole one is left; the first value that does not decode gives its error,
/// and bytes left over at the end give `ShortRead`.
pub open spec fn node_decoding<V: Serializable>(bytes: Seq<u8>) -> Result<Seq<NodeEntry<V>>, Error>
    decreases bytes.len(),
{
    let size = entry_size::<V>() as int;
    if bytes.len() < size {
        if bytes.len() == 0 {
            Ok(Seq::empty())
        } else {
            Err(Error::ShortRead)
        }
    } else {
        match entry_decoding::<V>(bytes.subrange(0, size)) {
            Ok(entry) => prepend(seq![entry], node_decoding::<V>(bytes.subrange(size, bytes.len() as int))),
            Err(e) => Err(e),
        }
    }
}

/// An entry has the fixed width and decodes to itself.
pub proof fn lemma_entry_round_trip<V: Serializable>(entry: NodeEntry<V>)
    ensures
        entry_encoding(entry).len() == entry_size::<V>(),
        entry_decoding::<V>(entry_encoding(entry)) == Ok::<NodeEntry<V>, Error>(entry),
{
    lemma_auto_spec_u64_to_from_le_bytes();
    entry.value.lemma_encoding();
    let bytes = entry_encoding(entry);
    assert(bytes.subrange(0, 8) == spec_u64_to_le_bytes(entry.key));
    assert(bytes.subrange(8, bytes.len() as int) == entry.value.encoding());
}

/// The width of an entry lies between 9 and 72 bytes.
pub proof fn lemma_entry_size<V: Serializable>()
    ensures
        8 < entry_size::<V>() <= 72,
{
    V::lemma_size();
}

/// The encoding of a node is as long as its entries together.
pub proof fn lemma_node_encoding_len<V: Serializable>(entries: Seq<NodeEntry<V>>)
    ensures
        node_encoding(entries).len() == entries.len() * entry_size::<V>(),
    decreases entries.len(),
{
    if entries.len() > 0 {
        lemma_entry_round_trip(entries[0]);
        lemma_node_encoding_len(entries.drop_first());
        assert(entries.len() * entry_size::<V>() == entry_size::<V>() + (entries.len() - 1)
            * entry_size::<V>()) by (nonlinear_arith);
    }
}

/// Encoding two runs of entries one after the other encodes their
/// concatenation.
pub proof fn lemma_node_encoding_concat<V: Serializable>(
    front: Seq<NodeEntry<V>>,
    back: Seq<NodeEntry<V>>,
)
    ensures
        node_encoding(front + back) == node_encoding(front) + node_encoding(back),
    decreases front.len(),
{
    if front.len() == 0 {
        assert(front + back == back);
    } else {
        lemma_node_encoding_concat(front.drop_first(), back);
        assert((front + back).drop_first() == front.drop_first() + back);
        assert((front + back)[0] == front[0]);
    }
}

/// Encoding a node and decoding the bytes gives the entries back.
pub proof fn lemma_node_round_trip<V: Serializable>(entries: Seq<NodeEntry<V>>)
    ensures
        node_decoding::<V>(node_encoding(entries)) == Ok::<Seq<NodeEntry<V>>, Error>(entries),
    decreases entries.len(),
{
    lemma_entry_size::<V>();
    if entries.len() > 0 {
        let size = entry_size::<V>() as int;
        let bytes = node_encoding(entries);
        let rest = entries.drop_first();
        lemma_entry_round_trip(entries[0]);
        lemma_node_round_trip(rest);
        assert(bytes.len() >= size);
        assert(bytes.subrange(0, size) == entry_encoding(entries[0]));
        assert(bytes.subrange(size, bytes.len() as int) == node_encoding(rest));
        assert(seq![entries[0]] + rest == entries);
        assert(node_decoding::<V>(bytes) == prepend(seq![entries[0]], node_decoding::<V>(node_encoding(rest))));
    } else {
        assert(entries == Seq::<NodeEntry<V>>::empty());
    }
}

impl<V> NodeEntry<V> {
    pub fn new(key: u64, value: V) -> (entry: Self)
        ensures
            entry == (NodeEntry { key, value }),
    {
        NodeEntry { key, value }
    }
}

impl<V> Node<V> {
    /// A node without entries.
    pub fn new() -> (node: Self)
        ensures
            node@ == Seq::<NodeEntry<V>>::empty(),
    {
        Node { entries: Vec::new() }
    }

    /// The node that holds exactly `entries`.
    pub fn with_entries(entries: Vec<NodeEntry<V>>) -> (node: Self)
        ensures
            node@ == entries@,
    {
        Node { entries }
    }

    /// Puts `entry` into the node: over the entry with the same key when the
    /// search finds one, else where the search says the key belongs. Returns
    /// the value that was replaced.
    pub fn insert(&mut self, entry: NodeEntry<V>) -> (previous: Option<V>)
        ensures
            old(self)@.len() <= final(self)@.len() <= old(self)@.len() + 1,
            final(self)@.len() > 0,
            match previous {
                Some(value) => exists|i: int|
                    {
                        &&& 0 <= i < old(self)@.len()
                        &&& (#[trigger] old(self)@[i]).key == entry.key
                        &&& old(self)@[i].value == value
                        &&& final(self)@ == old(self)@.update(i, entry)
                    },
                None => exists|i: int|
                    {
                        &&& 0 <= i <= old(self)@.len()
                        &&& final(self)@ == #[trigger] old(self)@.insert(i, entry)
                        &&& sorted_keys(old(self)@) ==> insertion_point(old(self)@, entry.key, i)
                    },
            },
    {
        match self.search(entry.key) {
            Ok(i) => {
                let previous = self.entries.remove(i);
                self.entries.insert(i, entry);
                proof {
                    assert(self@ == old(self)@.update(i as int, entry));
                }
                Some(previous.value)
            },
            Err(i) => {
                self.entries.insert(i, entry);
                None
            },
        }
    }

    /// Binary search for `key`.
    ///
    /// `Ok(i)` names an entry with that key. `Err(i)` says that a sorted node
    /// has no such entry, and that `i` is where one would go.
    pub fn search(&self, key: u64) -> (r: Result<usize, usize>)
        ensures
            match r {
                Ok(i) => i < self@.len() && self@[i as int].key == key,
                Err(i) => i <= self@.len() && (sorted_keys(self@) ==> insertion_point(
                    self@,
                    key,
                    i as int,
                )),
            },
    {
        let mut low: usize = 0;
        let mut high: usize = self.entries.len();
        while low < high
            invariant
                low <= high <= self@.len(),
                sorted_keys(self@) ==> forall|j: int| 0 <= j < low ==> (#[trigger] self@[j]).key < key,
                sorted_keys(self@) ==> forall|j: int|
                    high <= j < self@.len() ==> key < (#[trigger] self@[j]).key,
            decreases high - low,
        {
            let mid: usize = low + (high - low) / 2;
            let probe: u64 = self.entries[mid].key;
            if probe == key {
                return Ok(mid);
            } else if probe < key {
                low = mid + 1;
            } else {
                high = mid;
            }
        }
        Err(low)
    }
}

/// Whether `keys` are strictly ascending.
pub fn is_sorted(keys: &[u64]) -> (sorted: bool)
    ensures
        sorted == (forall|i: int, j: int| 0 <= i < j < keys@.len() ==> keys@[i] < keys@[j]),
{
    if keys.len() == 0 {
        return true;
    }
    let mut at: usize = 1;
    while at < keys.len()
        invariant
            1 <= at <= keys@.len(),
            forall|i: int, j: int| 0 <= i < j < at ==> keys@[i] < keys@[j],
        decreases keys@.len() - at,
    {
        if keys[at] <= keys[at - 1] {
            return false;
        }
        at += 1;
    }
    true
}

impl<V: Serializable> Node<V> {
    /// Decodes a node from all of `bytes`.
    pub fn from_bytes(bytes: &[u8]) -> (r: Result<Self, Error>)
        ensures
            match r {
                Ok(node) => node_decoding::<V>(bytes@) == Ok::<Seq<NodeEntry<V>>, Error>(node@),
                Err(e) => node_decoding::<V>(bytes@) == Err::<Seq<NodeEntry<V>>, Error>(e),
            },
    {
        proof {
            lemma_entry_size::<V>();
        }
        let size: usize = 8 + V::size();
        let mut entries: Vec<NodeEntry<V>> = Vec::new();
        let mut pos: usize = 0;
        proof {
            assert(bytes@.subrange(0, bytes@.len() as int) == bytes@);
            match node_decoding::<V>(bytes@) {
                Ok(all) => {
                    assert(Seq::<NodeEntry<V>>::empty() + all == all);
                },
                Err(_) => {},
            }
        }
        while bytes.len() - pos >= size
            invariant
                size == entry_size::<V>(),
                size > 8,
                pos <= bytes@.len(),
                node_decoding::<V>(bytes@) == prepend(
                    entries@,
                    node_decoding::<V>(bytes@.subrange(pos as int, bytes@.len() as int)),
                ),
            decreases bytes@.len() - pos,
        {
            let ghost rest = bytes@.subrange(pos as int, bytes@.len() as int);
            let key = get_u64_le(bytes, pos);
            let value = match V::from_bytes(bytes, pos + 8) {
                Ok(value) => value,
                Err(e) => {
                    proof {
                        assert(rest.subrange(0, size as int).subrange(8, size as int)
                            == bytes@.subrange(pos + 8, pos + 8 + V::spec_size()));
                    }
                    return Err(e);
                },
            };
            proof {
                let first = rest.subrange(0, size as int);
                assert(first.subrange(8, size as int) == bytes@.subrange(
                    pos + 8,
                    pos + 8 + V::spec_size(),
                ));
                assert(first.subrange(0, 8) == bytes@.subrange(pos as int, pos + 8));
                assert(rest.subrange(size as int, rest.len() as int) == bytes@.subrange(
                    pos + size,
                    bytes@.len() as int,
                ));
                let entry = NodeEntry { key, value };
                let tail = node_decoding::<V>(bytes@.subrange(pos + size, bytes@.len() as int));
                match tail {
                    Ok(more) => {
                        assert(entries@ + (seq![entry] + more) == entries@.push(entry) + more);
                    },
                    Err(_) => {},
                }
            }
            entries.push(NodeEntry { key, value });
            pos += size;
        }
        proof {
            assert(entries@ + Seq::<NodeEntry<V>>::empty() == entries@);
        }
        if pos < bytes.len() {
            return Err(Error::ShortRead);
        }
        Ok(Node { entries })
    }

    /// Appends the encoding of the node to `bytes`.
    pub fn to_bytes(&self, bytes: &mut Vec<u8>)
        requires
            old(bytes)@.len() + self@.len() * entry_size::<V>() <= usize::MAX,
        ensures
            final(bytes)@ == old(bytes)@ + node_encoding(self@),
    {
        let mut at: usize = 0;
        proof {
            assert(self@.take(0) == Seq::<NodeEntry<V>>::empty());
            assert(old(bytes)@ + node_encoding(self@.take(0)) == old(bytes)@);
        }
        while at < self.entries.len()
            invariant
                at <= self@.len(),
                old(bytes)@.len() + self@.len() * entry_size::<V>() <= usize::MAX,
                bytes@ == old(bytes)@ + node_encoding(self@.take(at as int)),
            decreases self@.len() - at,
        {
            let entry = self.entries[at];
            proof {
                lemma_entry_round_trip(entry);
                lemma_node_encoding_len(self@.take(at as int));
                lemma_node_encoding_len(self@.take(at + 1));
                lemma_node_encoding_concat(self@.take(at as int), seq![entry]);
                assert(self@.take(at as int) + seq![entry] == self@.take(at + 1));
                assert(node_encoding(seq![entry]) == entry_encoding(entry)) by {
                    assert(seq![entry].drop_first() == Seq::<NodeEntry<V>>::empty());
                    assert(node_encoding(seq![entry].drop_first()) == Seq::<u8>::empty());
                    assert(entry_encoding(entry) + Seq::<u8>::empty() == entry_encoding(entry));
                }
                assert((at + 1) * entry_size::<V>() <= self@.len() * entry_size::<V>())
                    by (nonlinear_arith)
                    requires
                        at + 1 <= self@.len(),
                ;
                assert((at + 1) * entry_size::<V>() == at * entry_size::<V>() + 8
                    + V::spec_size()) by (nonlinear_arith)
                    requires
                        entry_size::<V>() == 8 + V::spec_size(),
                ;
            }
            put_u64_le(bytes, entry.key);
            proof {
                lemma_auto_spec_u64_to_from_le_bytes();
                assert(bytes@.len() == old(bytes)@.len() + at * entry_size::<V>() + 8);
            }
            entry.value.to_bytes(bytes);
            proof {
                assert(bytes@ == old(bytes)@ + node_encoding(self@.take(at as int))
                    + entry_encoding(entry));
            }
            at += 1;
        }
        proof {
            assert(self@.take(self@.len() as int) == self@);
        }
    }

    /// The encoding of the node.
    pub fn to_mem(&self) -> (mem: Vec<u8>)
        requires
            self@.len() * entry_size::<V>() <= usize::MAX,
        ensures
            mem@ == node_encoding(self@),
    {
        let mut mem: Vec<u8> = Vec::new();
        self.to_bytes(&mut mem);
        proof {
            assert(Seq::<u8>::empty() + node_encoding(self@) == node_encoding(self@));
        }
        mem
    }
}

} // verus!
