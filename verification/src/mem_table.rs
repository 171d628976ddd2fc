//! The memtable: one tree of byte-string entries with a running estimate of
//! the bytes it holds, and the sorted table that a flush writes out.

use vstd::prelude::*;
use crate::node::{Entry, Node, Status};
use crate::sstable::{encoded_rows, encoder_accepts, table_name, table_rows, EncodeError, SSTableEntry, TableFile};
use crate::threads::{lemma_traversal_begins, lemma_traversal_restores};
use crate::tree::{lemma_index_of, lemma_same_entries, RedBlackTree};

verus! {

/// Bytes of a timestamp.
pub const TIMESTAMP_SIZE: usize = 16;

/// Bytes of one of the three links of a node.
pub const LINK_SIZE: usize = 8;

/// Bytes of the side marker, of the color and of the status of a node.
pub const MARKER_SIZE: usize = 1;

/// The worst-case footprint of an entry with a key of `key_len` and a value
/// of `value_len` bytes: both lengths, the timestamp, three links and three markers.
pub open spec fn entry_footprint(key_len: nat, value_len: nat) -> int {
    key_len + value_len + TIMESTAMP_SIZE + 3 * LINK_SIZE + MARKER_SIZE + MARKER_SIZE + MARKER_SIZE
}

/// The footprint of all entries of an arena.
pub open spec fn footprint(nodes: Seq<Node<Vec<u8>, Vec<u8>>>) -> int
    decreases nodes.len(),
{
    if nodes.len() == 0 {
        0
    } else {
        footprint(nodes.drop_last()) + entry_footprint(nodes.last().key@.len(), nodes.last().value@.len())
    }
}

/// Arenas whose slots agree on key and value lengths, but for slot `at`,
/// differ in footprint by the change in that slot.
pub proof fn lemma_footprint_change(
    a: Seq<Node<Vec<u8>, Vec<u8>>>,
    b: Seq<Node<Vec<u8>, Vec<u8>>>,
    at: int,
)
    requires
        a.len() == b.len(),
        forall|i: int|
            0 <= i < a.len() && i != at ==> (#[trigger] a[i]).key@.len() == b[i].key@.len()
                && a[i].value@.len() == b[i].value@.len(),
    ensures
        0 <= at < a.len() ==> footprint(b) - footprint(a) == entry_footprint(
            b[at].key@.len(),
            b[at].value@.len(),
        ) - entry_footprint(a[at].key@.len(), a[at].value@.len()),
        !(0 <= at < a.len()) ==> footprint(b) == footprint(a),
        0 <= at < a.len() ==> footprint(a) >= entry_footprint(a[at].key@.len(), a[at].value@.len()),
        footprint(a) >= 0,
    decreases a.len(),
{
    if a.len() > 0 {
        let a0 = a.drop_last();
        let b0 = b.drop_last();
        assert forall|i: int| 0 <= i < a0.len() && i != at implies (#[trigger] a0[i]).key@.len()
            == b0[i].key@.len() && a0[i].value@.len() == b0[i].value@.len() by {
            assert(a0[i] == a[i]);
            assert(b0[i] == b[i]);
        }
        lemma_footprint_change(a0, b0, at);
        if at < a0.len() && 0 <= at {
            assert(a0[at] == a[at]);
            assert(b0[at] == b[at]);
        } else {
            assert(a[a.len() - 1].key@.len() == a.last().key@.len());
        }
    }
}

/// One more slot adds the footprint of its entry.
pub proof fn lemma_footprint_push(
    a: Seq<Node<Vec<u8>, Vec<u8>>>,
    b: Seq<Node<Vec<u8>, Vec<u8>>>,
)
    requires
        b.len() == a.len() + 1,
        forall|i: int|
            0 <= i < a.len() ==> (#[trigger] a[i]).key@.len() == b[i].key@.len() && a[i].value@.len()
                == b[i].value@.len(),
    ensures
        footprint(b) == footprint(a) + entry_footprint(b.last().key@.len(), b.last().value@.len()),
{
    let b0 = b.drop_last();
    assert forall|i: int| 0 <= i < a.len() && i != -1 implies (#[trigger] a[i]).key@.len()
        == b0[i].key@.len() && a[i].value@.len() == b0[i].value@.len() by {
        assert(b0[i] == b[i]);
    }
    lemma_footprint_change(a, b0, -1);
}

/// The mutable, sorted buffer of recent writes.
pub struct MemTable {
    /// A pessimistic estimate of the bytes that the entries take.
    pub size: usize,
    pub db_store: RedBlackTree<Vec<u8>, Vec<u8>>,
}

impl View for MemTable {
    type V = Map<Seq<u8>, Entry<Vec<u8>>>;

    /// The memtable as a map from keys to what they are bound to,
    /// tombstoned bindings included.
    open spec fn view(&self) -> Map<Seq<u8>, Entry<Vec<u8>>> {
        self.db_store@
    }
}

impl MemTable {
    /// The index is a red-black tree, and the size estimate is the footprint
    /// of its entries.
    pub open spec fn wf(&self) -> bool {
        &&& self.db_store.wf()
        &&& self.size == footprint(self.db_store.nodes@)
    }

    /// The size estimate after `key` is bound to a value of `value_len`
    /// bytes: it grows by the footprint of a new entry, or moves by the
    /// change in value length where the key is bound.
    pub open spec fn size_with(&self, key: Seq<u8>, value_len: nat) -> int {
        if self@.dom().contains(key) {
            self.size + value_len - self@[key].value@.len()
        } else {
            self.size + entry_footprint(key.len(), value_len)
        }
    }

    /// The size estimate after `key` is tombstoned: it grows by the
    /// footprint of a placeholder where the key is not bound.
    pub open spec fn size_without(&self, key: Seq<u8>) -> int {
        if self@.dom().contains(key) {
            self.size as int
        } else {
            self.size + entry_footprint(key.len(), 0)
        }
    }

    /// The number of entries, tombstones included.
    pub open spec fn len(&self) -> int {
        self.db_store.count()
    }

    /// The value that a read of `key` returns: absent for an unbound key and for a tombstone.
    pub open spec fn visible(&self, key: Seq<u8>) -> Option<Seq<u8>> {
        if self@.dom().contains(key) && self@[key].status == Status::Available {
            Some(self@[key].value@)
        } else {
            None
        }
    }

    /// An empty memtable.
    pub fn new() -> (table: Self)
        ensures
            table.wf(),
            table.size == 0,
            table.len() == 0,
            table@ == Map::<Seq<u8>, Entry<Vec<u8>>>::empty(),
    {
        Self { size: 0, db_store: RedBlackTree::new() }
    }

    /// The worst-case footprint of an entry with this key and value.
    #[inline]
    pub fn get_max_entry_size(&self, key: &Vec<u8>, value: &Vec<u8>) -> (size: usize)
        requires
            entry_footprint(key@.len(), value@.len()) <= usize::MAX,
        ensures
            size == entry_footprint(key@.len(), value@.len()),
    {
        let new_insert_size = key.len() + value.len() + TIMESTAMP_SIZE + 3 * LINK_SIZE + MARKER_SIZE
            + MARKER_SIZE + MARKER_SIZE;
        return new_insert_size;
    }

    /// Binds `key` to `value` at `timestamp`, live. The size estimate grows
    /// by the footprint of a new entry, or moves by the change in value
    /// length where the key was bound.
    pub fn set(&mut self, key: Vec<u8>, value: Vec<u8>, timestamp: u128)
        requires
            old(self).wf(),
            old(self).size_with(key@, value@.len()) <= usize::MAX,
        ensures
            final(self).wf(),
            final(self)@ == old(self)@.insert(
                key@,
                Entry { value, timestamp, status: Status::Available },
            ),
            final(self).size == old(self).size_with(key@, value@.len()),
            final(self).len() == if old(self)@.dom().contains(key@) {
                old(self).len()
            } else {
                old(self).len() + 1
            },
    {
        let ghost before = self.db_store;
        proof {
            if self.db_store.has_key(key@) {
                let i = self.db_store.index_of(key@);
                assert(self.db_store.key_at(i, key@));
                lemma_index_of(self.db_store, i);
                lemma_footprint_change(self.db_store.nodes@, self.db_store.nodes@, i);
            }
        }
        match self.db_store.value(&key) {
            Some(v) => {
                if value.len() > v.len() {
                    self.size += value.len() - v.len();
                } else {
                    self.size -= v.len() - value.len();
                }
            },
            // no node carries the key
            None => {
                self.size += self.get_max_entry_size(&key, &value);
            },
        }
        let ghost key_view = key@;
        let ghost entry = Entry { value, timestamp, status: Status::Available };
        self.db_store.insert_or_replace(key, value, timestamp, Status::Available);
        proof {
            lemma_rebound_footprint(before, self.db_store, key_view, entry);
        }
    }

    /// A copy of the value bound to `key`; `None` for an unbound key and for a tombstone.
    pub fn get(&self, key: Vec<u8>) -> (r: Option<Vec<u8>>)
        requires
            self.wf(),
        ensures
            match r {
                Some(v) => self.visible(key@) == Some(v@),
                None => self.visible(key@) is None,
            },
    {
        let node = self.db_store.find_node(&key);
        proof {
            if node.index is Some {
                lemma_index_of(self.db_store, node.index.unwrap() as int);
            }
        }
        if node.is_null() || node.is_deleted(&self.db_store) {
            return None;
        }
        return Some(node.value(&self.db_store).unwrap());
    }

    /// Tombstones `key` at `timestamp`. A bound key keeps its value and the
    /// size estimate stays; an unbound key gets a placeholder with an empty
    /// value, and the estimate grows by its footprint.
    pub fn delete(&mut self, key: Vec<u8>, timestamp: u128)
        requires
            old(self).wf(),
            old(self).size_without(key@) <= usize::MAX,
        ensures
            final(self).wf(),
            final(self)@.dom() == old(self)@.dom().insert(key@),
            final(self)@[key@].status == Status::Deleted,
            final(self)@[key@].timestamp == timestamp,
            forall|k: Seq<u8>| k != key@ && old(self)@.dom().contains(k) ==> final(self)@[k] == old(self)@[k],
            old(self)@.dom().contains(key@) ==> final(self)@[key@].value == old(self)@[key@].value,
            !old(self)@.dom().contains(key@) ==> final(self)@[key@].value@ == Seq::<u8>::empty(),
            final(self).size == old(self).size_without(key@),
            final(self).len() == if old(self)@.dom().contains(key@) {
                old(self).len()
            } else {
                old(self).len() + 1
            },
    {
        let ghost before = self.db_store;
        if !self.db_store.has_node(&key) {
            let empty_value: Vec<u8> = Vec::new();
            self.size += self.get_max_entry_size(&key, &empty_value);
        }
        self.db_store.delete_key(&key, timestamp);
        proof {
            lemma_rebound_footprint(before, self.db_store, key@, self.db_store@[key@]);
        }
    }

    /// The rows of the memtable in ascending key order, tombstones
    /// included: key, value and timestamp of each entry.
    pub open spec fn rows(&self) -> Seq<(Seq<u8>, Seq<u8>, u128)> {
        Seq::new(
            self.db_store.nodes@.len(),
            |a: int|
                (
                    self.db_store.keys()[a],
                    self.db_store.entries()[a].value@,
                    self.db_store.entries()[a].timestamp,
                ),
        )
    }

    /// The table file of a flush under `timestamp`: the rows of the memtable
    /// in key order, encoded. It fails only where the encoder refuses them.
    /// Nothing is written and the memtable keeps its entries either way.
    pub fn flush(&mut self, timestamp: u128) -> (r: Result<TableFile, EncodeError>)
        requires
            old(self).wf(),
        ensures
            final(self).wf(),
            final(self)@ == old(self)@,
            final(self).size == old(self).size,
            final(self).len() == old(self).len(),
            final(self).db_store.nodes@ == old(self).db_store.nodes@,
            final(self).rows() == old(self).rows(),
            r is Ok <==> encoder_accepts(old(self).rows()),
            r matches Ok(file) ==> file.bytes@ == encoded_rows(old(self).rows()) && file.name@
                == table_name(timestamp),
    {
        let sstable = self.create_sorted_string_table();
        proof {
            assert(table_rows(sstable@) =~= old(self).rows());
            assert(self.rows() =~= old(self).rows());
        }
        TableFile::encode(&sstable, timestamp)
    }

    /// The entries in ascending key order, tombstones included, as a flush
    /// writes them. The traversal threads the tree and leaves it as it was.
    pub fn create_sorted_string_table(&mut self) -> (table: Vec<SSTableEntry>)
        requires
            old(self).wf(),
        ensures
            final(self).wf(),
            final(self)@ == old(self)@,
            final(self).size == old(self).size,
            final(self).db_store.nodes@ == old(self).db_store.nodes@,
            final(self).db_store.root == old(self).db_store.root,
            final(self).db_store.keys() == old(self).db_store.keys(),
            final(self).db_store.entries() == old(self).db_store.entries(),
            table@.len() == old(self).len(),
            final(self).len() == old(self).len(),
            forall|a: int|
                0 <= a < table@.len() ==> {
                    &&& (#[trigger] table@[a]).key@ == old(self).db_store.keys()[a]
                    &&& table@[a].value@ == old(self).db_store.entries()[a].value@
                    &&& table@[a].timestamp == old(self).db_store.entries()[a].timestamp
                },
    {
        let ghost s0 = self.db_store;
        let mut iter = self.db_store.root.into_iter();
        let mut sstable: Vec<SSTableEntry> = Vec::new();
        proof {
            lemma_traversal_begins(self.db_store);
        }
        loop
            invariant
                s0.wf(),
                iter.in_step(&self.db_store),
                self.db_store.same_entries(&s0),
                self.db_store.same_but_right_links(&s0),
                self.size == old(self).size,
                sstable@.len() == iter.given@,
                0 <= iter.given@ <= s0.count(),
                forall|a: int|
                    0 <= a < sstable@.len() ==> {
                        &&& (#[trigger] sstable@[a]).key@ == s0.keys()[a]
                        &&& sstable@[a].value@ == s0.entries()[a].value@
                        &&& sstable@[a].timestamp == s0.entries()[a].timestamp
                    },
            ensures
                self.db_store.red_black(),
                self.db_store.same_entries(&s0),
                self.db_store.same_but_right_links(&s0),
                self.size == old(self).size,
                sstable@.len() == s0.count(),
                forall|a: int|
                    0 <= a < sstable@.len() ==> {
                        &&& (#[trigger] sstable@[a]).key@ == s0.keys()[a]
                        &&& sstable@[a].value@ == s0.entries()[a].value@
                        &&& sstable@[a].timestamp == s0.entries()[a].timestamp
                    },
            decreases s0.count() - iter.given@,
        {
            let ghost mid = self.db_store;
            let ghost e = iter.given@;
            match iter.next(&mut self.db_store) {
                Some(node) => {
                    proof {
                        assert forall|i: int| 0 <= i < s0.count() implies (
                        #[trigger] self.db_store.nodes@[i]).same_entry(s0.nodes@[i]) by {
                            assert(self.db_store.nodes@[i].same_entry(mid.nodes@[i]));
                            assert(mid.nodes@[i].same_entry(s0.nodes@[i]));
                        }
                        assert(s0.position_taken(e));
                    }
                    let sstable_entry = SSTableEntry::new(
                        node.key(&self.db_store).unwrap(),
                        node.value(&self.db_store).unwrap(),
                        node.timestamp(&self.db_store).unwrap(),
                    );
                    sstable.push(sstable_entry);
                },
                None => {
                    proof {
                        assert forall|i: int| 0 <= i < s0.count() implies (
                        #[trigger] self.db_store.nodes@[i]).same_entry(s0.nodes@[i]) by {
                            assert(self.db_store.nodes@[i].same_entry(mid.nodes@[i]));
                            assert(mid.nodes@[i].same_entry(s0.nodes@[i]));
                        }
                    }
                    break ;
                },
            }
        }
        proof {
            lemma_same_entries(self.db_store, s0);
            lemma_traversal_restores(self.db_store, s0);
        }
        sstable
    }
}

/// Rebinding one key moves the footprint by the footprint of a new entry,
/// or by the change in value length where the key was bound.
pub proof fn lemma_rebound_footprint(
    s0: RedBlackTree<Vec<u8>, Vec<u8>>,
    s1: RedBlackTree<Vec<u8>, Vec<u8>>,
    key: Seq<u8>,
    entry: Entry<Vec<u8>>,
)
    requires
        s0.linked(),
        s0.ordered(),
        s1.rebinds(&s0, key, entry),
    ensures
        footprint(s1.nodes@) == if s0.has_key(key) {
            footprint(s0.nodes@) + entry.value@.len() - s0@[key].value@.len()
        } else {
            footprint(s0.nodes@) + entry_footprint(key.len(), entry.value@.len())
        },
{
    if s0.has_key(key) {
        let i = s0.index_of(key);
        assert(s0.key_at(i, key));
        lemma_index_of(s0, i);
        lemma_footprint_change(s0.nodes@, s1.nodes@, i);
    } else {
        lemma_footprint_push(s0.nodes@, s1.nodes@);
    }
}

} // verus!
