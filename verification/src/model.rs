//! The database as a mathematical value, and what holds of its operations.

use crate::datafile::{read_in, DatafileView};
use crate::encoder::Record;
use crate::error::StoreError;
use crate::keydir::KeydirEntry;
use vstd::prelude::*;

verus! {

/// A database as a mathematical value.
pub struct DbView {
    /// The index.
    pub keydir: Map<Seq<u8>, KeydirEntry>,
    /// The contents of the read-only datafiles, by id.
    pub readers: Map<u64, Seq<u8>>,
    /// The active datafile.
    pub active: DatafileView,
}

/// One write: a key, a value, and the time of the write.
pub struct Write {
    pub timestamp: u64,
    pub key: Seq<u8>,
    pub value: Seq<u8>,
}

impl Write {
    /// The record that the write appends.
    pub open spec fn record(self) -> Record {
        Record::fresh(self.timestamp, self.key, self.value)
    }
}

impl DbView {
    /// What a read at the place that `entry` names gives: the record that
    /// starts there in the active datafile, if the entry names it, else in
    /// the reader of that id. `MissingFile` where there is no such reader,
    /// `IoError` where no whole record starts there.
    pub open spec fn fetch(self, entry: KeydirEntry) -> Result<Record, StoreError> {
        if entry.file_id == self.active.id {
            match self.active.read(entry.offset) {
                Some(record) => Ok(record),
                None => Err(StoreError::IoError),
            }
        } else if self.readers.contains_key(entry.file_id) {
            match read_in(self.readers[entry.file_id], entry.offset) {
                Some(record) => Ok(record),
                None => Err(StoreError::IoError),
            }
        } else {
            Err(StoreError::MissingFile)
        }
    }

    /// What `get` returns for `key`: `NotFound` if and only if the index does
    /// not hold the key, else what is read at the place in its entry.
    pub open spec fn lookup(self, key: Seq<u8>) -> Result<Record, StoreError> {
        if self.keydir.contains_key(key) {
            self.fetch(self.keydir[key])
        } else {
            Err(StoreError::NotFound)
        }
    }

    /// Whether a put of `record` succeeds.
    pub open spec fn takes(self, record: Record) -> bool {
        self.active.accepts(record)
    }

    /// The database after a successful put of `record`: the record stands at
    /// the end of the active datafile, and the index holds its place under
    /// its key.
    pub open spec fn with(self, record: Record) -> DbView {
        DbView {
            keydir: self.keydir.insert(record.key, self.active.next_entry(record)),
            active: self.active.append(record),
            ..self
        }
    }

    /// Whether all of `writes` succeed, one after the other.
    pub open spec fn takes_all(self, writes: Seq<Write>) -> bool
        decreases writes.len(),
    {
        writes.len() == 0 || (self.takes_all(writes.drop_last()) && self.with_all(
            writes.drop_last(),
        ).takes(writes.last().record()))
    }

    /// The database after the successful puts `writes`, one after the other.
    pub open spec fn with_all(self, writes: Seq<Write>) -> DbView
        decreases writes.len(),
    {
        if writes.len() == 0 {
            self
        } else {
            self.with_all(writes.drop_last()).with(writes.last().record())
        }
    }

    /// Every key of the index leads to a whole record in a datafile that is
    /// open, and that record is one of the key.
    pub open spec fn sound(self) -> bool {
        forall|key: Seq<u8>| #[trigger]
            self.keydir.contains_key(key) ==> self.lookup(key) is Ok && self.lookup(
                key,
            )->Ok_0.key == key
    }

    /// After a put, a get of the same key returns the record that was put:
    /// its key, its value, its timestamp.
    pub proof fn lemma_put_then_get(self, record: Record)
        requires
            self.takes(record),
        ensures
            self.with(record).lookup(record.key) == Ok::<Record, StoreError>(record),
    {
        let at = self.active.data.len() as int;
        record.lemma_decode_encode(Seq::empty());
        assert(self.active.append(record).data.skip(at) =~= record.encode() + Seq::<u8>::empty());
    }

    /// A put leaves every other key as it was: a get that returned a record
    /// before returns the same record after.
    pub proof fn lemma_put_keeps_others(self, record: Record, other: Seq<u8>)
        requires
            other != record.key,
            self.lookup(other) is Ok,
        ensures
            self.with(record).lookup(other) == self.lookup(other),
    {
        let entry = self.keydir[other];
        if entry.file_id == self.active.id {
            self.active.lemma_append_keeps_reads(record, entry.offset);
        }
    }

    /// A put keeps the index sound.
    pub proof fn lemma_put_sound(self, record: Record)
        requires
            self.sound(),
            self.takes(record),
        ensures
            self.with(record).sound(),
    {
        let after = self.with(record);
        assert forall|key: Seq<u8>| #[trigger] after.keydir.contains_key(key) implies after.lookup(
            key,
        ) is Ok && after.lookup(key)->Ok_0.key == key by {
            if key == record.key {
                self.lemma_put_then_get(record);
            } else {
                assert(self.keydir.contains_key(key));
                self.lemma_put_keeps_others(record, key);
            }
        }
    }

    /// The last writer wins: after any number of successful puts, a get of a
    /// key that was written returns the record of the last put of that key.
    pub proof fn lemma_last_write_wins(self, writes: Seq<Write>, last: int)
        requires
            self.takes_all(writes),
            0 <= last < writes.len(),
            forall|i: int| last < i < writes.len() ==> writes[i].key != writes[last].key,
        ensures
            self.with_all(writes).lookup(writes[last].key) == Ok::<Record, StoreError>(
                writes[last].record(),
            ),
        decreases writes.len(),
    {
        let before = self.with_all(writes.drop_last());
        if last == writes.len() - 1 {
            before.lemma_put_then_get(writes.last().record());
        } else {
            assert forall|i: int| last < i < writes.drop_last().len() implies writes.drop_last()[i].key
                != writes.drop_last()[last].key by {
                assert(writes.drop_last()[i] == writes[i]);
            }
            self.lemma_last_write_wins(writes.drop_last(), last);
            assert(writes.drop_last()[last] == writes[last]);
            before.lemma_put_keeps_others(writes.last().record(), writes[last].key);
        }
    }
}

} // verus!
