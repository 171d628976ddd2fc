//! The write path of the engine: one active memtable under a byte budget.
//!
//! The engine decides; it does not touch the disk. Where a write does not
//! fit, `set` hands out the sorted table to be flushed and leaves the
//! memtable as it is. Once the table is on disk, `set_after_flush` starts an
//! empty memtable with the write.

use vstd::prelude::*;
use crate::mem_table::{entry_footprint, MemTable};
use crate::sstable::{encoded_rows, encoder_accepts, table_name, EncodeError, TableFile};
use crate::node::{Entry, Status};

verus! {

/// What became of a write.
pub enum Write {
    /// The write fits the budget and is in the memtable.
    Stored,
    /// The write does not fit. The memtable is unchanged; `file` is its
    /// table, to be written before the write goes to an empty memtable.
    Flush { file: TableFile, key: Vec<u8>, value: Vec<u8>, timestamp: u128 },
    /// The write does not fit and the table could not be encoded. The
    /// memtable is unchanged.
    Failed { error: EncodeError, key: Vec<u8>, value: Vec<u8>, timestamp: u128 },
}

/// The engine: the directory of its tables, the active memtable and the
/// byte budget of a memtable.
pub struct Engine {
    pub ss_table_dir: String,
    pub mem_table: MemTable,
    pub mem_table_size: usize,
}

impl Engine {
    /// The active memtable is well formed.
    pub open spec fn wf(&self) -> bool {
        self.mem_table.wf()
    }

    /// A new entry with this key and value fits the budget on top of what
    /// the memtable holds.
    pub open spec fn fits(&self, key: Seq<u8>, value: Seq<u8>) -> bool {
        self.mem_table.size + entry_footprint(key.len(), value.len()) <= self.mem_table_size
    }

    /// An engine with an empty memtable.
    pub fn new(storage_path: String, mem_table_size: usize) -> (engine: Self)
        ensures
            engine.wf(),
            engine.ss_table_dir == storage_path,
            engine.mem_table_size == mem_table_size,
            engine.mem_table.size == 0,
            engine.mem_table.len() == 0,
            engine.mem_table@ == Map::<Seq<u8>, Entry<Vec<u8>>>::empty(),
    {
        Self { ss_table_dir: storage_path, mem_table: MemTable::new(), mem_table_size }
    }

    /// Writes `key` at `timestamp` if a new entry for it fits the budget;
    /// otherwise asks for a flush and changes nothing.
    pub fn set(&mut self, key: Vec<u8>, value: Vec<u8>, timestamp: u128) -> (r: Write)
        requires
            old(self).wf(),
            entry_footprint(key@.len(), value@.len()) <= usize::MAX,
        ensures
            final(self).wf(),
            final(self).mem_table_size == old(self).mem_table_size,
            final(self).ss_table_dir == old(self).ss_table_dir,
            match r {
                Write::Stored => {
                    &&& old(self).fits(key@, value@)
                    &&& final(self).mem_table@ == old(self).mem_table@.insert(
                        key@,
                        Entry { value, timestamp, status: Status::Available },
                    )
                },
                Write::Flush { file, key: k, value: v, timestamp: t } => {
                    &&& !old(self).fits(key@, value@)
                    &&& k == key
                    &&& v == value
                    &&& t == timestamp
                    &&& final(self).mem_table@ == old(self).mem_table@
                    &&& final(self).mem_table.size == old(self).mem_table.size
                    &&& final(self).mem_table.rows() == old(self).mem_table.rows()
                    &&& encoder_accepts(old(self).mem_table.rows())
                    &&& file.bytes@ == encoded_rows(old(self).mem_table.rows())
                    &&& file.name@ == table_name(timestamp)
                },
                Write::Failed { error, key: k, value: v, timestamp: t } => {
                    &&& !old(self).fits(key@, value@)
                    &&& k == key
                    &&& v == value
                    &&& t == timestamp
                    &&& final(self).mem_table@ == old(self).mem_table@
                    &&& final(self).mem_table.size == old(self).mem_table.size
                    &&& final(self).mem_table.rows() == old(self).mem_table.rows()
                    &&& !encoder_accepts(old(self).mem_table.rows())
                },
            },
    {
        let new_entry_size = self.mem_table.get_max_entry_size(&key, &value);
        if self.mem_table_size >= new_entry_size && self.mem_table_size - new_entry_size
            >= self.mem_table.size {
            self.mem_table.set(key, value, timestamp);
            Write::Stored
        } else {
            // the memtable goes to the disk first
            match self.mem_table.flush(timestamp) {
                Ok(file) => Write::Flush { file, key, value, timestamp },
                Err(error) => Write::Failed { error, key, value, timestamp },
            }
        }
    }

    /// Starts an empty memtable with the write that did not fit the flushed one.
    pub fn set_after_flush(&mut self, key: Vec<u8>, value: Vec<u8>, timestamp: u128)
        requires
            entry_footprint(key@.len(), value@.len()) <= usize::MAX,
        ensures
            final(self).wf(),
            final(self).mem_table_size == old(self).mem_table_size,
            final(self).ss_table_dir == old(self).ss_table_dir,
            final(self).mem_table@ == Map::<Seq<u8>, Entry<Vec<u8>>>::empty().insert(
                key@,
                Entry { value, timestamp, status: Status::Available },
            ),
            final(self).mem_table.size == entry_footprint(key@.len(), value@.len()),
            final(self).mem_table.len() == 1,
    {
        self.mem_table = MemTable::new();
        self.mem_table.set(key, value, timestamp);
    }

    /// The value bound to `key` in the active memtable; `None` for an
    /// unbound key and for a tombstone.
    pub fn get(&self, key: Vec<u8>) -> (r: Option<Vec<u8>>)
        requires
            self.wf(),
        ensures
            match r {
                Some(v) => self.mem_table.visible(key@) == Some(v@),
                None => self.mem_table.visible(key@) is None,
            },
    {
        // the active memtable only
        if let Some(entry) = self.mem_table.get(key) {
            return Some(entry);
        }
        return None;
    }
}

} // verus!
