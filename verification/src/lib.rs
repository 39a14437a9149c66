//! An embedded, persistent key-value store in the Bitcask style: an append-only
//! log of records plus an in-memory index that maps every live key to the place
//! of its latest record.
//!
//! The library holds the files as byte images and decides everything that
//! happens to them; reading a directory and writing the images out is left to
//! its caller.

use crate::clock::now;
use crate::datafile::{file_path, parse_path, path_of, Datafile, FileName, FileType};
use crate::encoder::{Entry, Record};
use crate::error::StoreError;
use crate::hint::HintFile;
use crate::keydir::{Keydir, KeydirEntry};
use crate::model::DbView;
use crate::recovery::{
    classify, hinted, images, index_items, items_of, lemma_replay_concat, next_id, read_names, readers_of,
    recovered, replay, replay_hints, replay_records, stored_of, Listing, Stored,
};
use std::collections::HashMap;
use vstd::prelude::*;

pub use crate::recovery::FileImage;

pub mod clock;
pub mod datafile;
pub mod encoder;
pub mod endian;
pub mod error;
pub mod hint;
pub mod keydir;
pub mod model;
pub mod recovery;

verus! {

/// Settings of one database.
#[derive(Clone)]
pub struct Config {
    dir: String,
    sync_on_put: bool,
}

impl Config {
    /// The directory that holds the database's files.
    pub closed spec fn directory(&self) -> Seq<char> {
        self.dir@
    }

    /// Whether every put is to be forced to the disk before it returns.
    pub closed spec fn syncs(&self) -> bool {
        self.sync_on_put
    }

    /// Settings for a database in `directory`, which does not force its puts
    /// to the disk.
    pub fn new(directory: &str) -> (conf: Self)
        ensures
            conf.directory() == directory@,
            !conf.syncs(),
    {
        Self { dir: directory.to_owned(), sync_on_put: false }
    }

    /// The same settings, but with puts forced to the disk or not as `sync`
    /// says.
    pub fn with_sync_on_put(self, sync: bool) -> (conf: Self)
        ensures
            conf.directory() == self.directory(),
            conf.syncs() == sync,
    {
        Self { dir: self.dir, sync_on_put: sync }
    }

    /// Whether every put is to be forced to the disk before it returns.
    pub fn sync_on_put(&self) -> (sync: bool)
        ensures
            sync == self.syncs(),
    {
        self.sync_on_put
    }

    /// The directory that holds the database's files.
    pub fn dir(&self) -> (dir: &str)
        ensures
            dir@ == self.directory(),
    {
        self.dir.as_str()
    }
}

/// The contents of the datafiles of a file manager, by id.
pub open spec fn contents(files: Map<u64, Datafile>) -> Map<u64, Seq<u8>> {
    Map::new(|id: u64| files.contains_key(id), |id: u64| files[id]@.data)
}

/// A database: the index, the read-only datafiles by id, and the active
/// datafile.
pub struct DB {
    pub config: Config,
    pub keydir: Keydir,
    pub manager: HashMap<u64, Datafile>,
    pub write_file: Datafile,
}

impl View for DB {
    type V = DbView;

    open spec fn view(&self) -> DbView {
        DbView {
            keydir: self.keydir@,
            readers: contents(self.manager@),
            active: self.write_file@,
        }
    }
}

impl DB {
    /// Opens the database on the files of its directory, as `open_at` does
    /// at the current time. Whether it succeeds does not depend on the time:
    /// the database is the one that opens at a time equal to the id of its
    /// active datafile, which is above every id found.
    ///
    /// Fails with `CorruptFile` where the name of a file cannot be parsed, and
    /// with `IoError` where no id is left for the active datafile.
    pub fn new(conf: Config, files: Vec<FileImage>) -> (res: Result<Self, StoreError>)
        ensures
            match res {
                Ok(db) => db.config == conf && recovered(images(files@), db@.active.id) == Ok::<
                    DbView,
                    StoreError,
                >(db@),
                Err(e) => recovered(images(files@), 0) == Err::<DbView, StoreError>(e),
            },
            res is Ok <==> recovered(images(files@), 0) is Ok,
    {
        Self::open_at(conf, files, now())
    }

    /// Opens the database on the files of its directory at time `now`.
    ///
    /// Every datafile becomes a reader. Every hint file is replayed into the
    /// index, in the order of the files: an item replaces the entry of its key
    /// only if it is newer. A datafile without a hint file is read record by
    /// record, and each record is offered to the index as its hint would have
    /// been. The active datafile is new and empty; its id is `now`, or the
    /// next above every id found if `now` is not above them.
    ///
    /// Fails with `CorruptFile` where the name of a file cannot be parsed, and
    /// with `IoError` where no id is left for the active datafile.
    pub fn open_at(conf: Config, files: Vec<FileImage>, now: u64) -> (res: Result<
        Self,
        StoreError,
    >)
        ensures
            match res {
                Ok(db) => db.config == conf && recovered(images(files@), now) == Ok::<
                    DbView,
                    StoreError,
                >(db@),
                Err(e) => recovered(images(files@), now) == Err::<DbView, StoreError>(e),
            },
            res matches Ok(db) ==> db@.tracks(classify(images(files@))->0),
    {
        let Listing { names, with_hints, highest } = match read_names(&files) {
            Ok(listing) => listing,
            Err(e) => return Err(e),
        };
        let ghost all = images(files@);
        let ghost stored = stored_of(names@, all);
        let mut keydir = Keydir::new();
        let mut manager: HashMap<u64, Datafile> = HashMap::new();
        let mut k: usize = 0;
        assert(stored.take(0) =~= Seq::<Stored>::empty());
        assert(contents(manager@) =~= Map::<u64, Seq<u8>>::empty());
        for file in it: files
            invariant
                all == images(it.seq()),
                stored == stored_of(names@, all),
                names@.len() == all.len(),
                k == it.index(),
                with_hints@ == hinted(stored),
                keydir@ == replay(Map::empty(), index_items(stored.take(k as int), hinted(stored))),
                contents(manager@) == readers_of(stored.take(k as int)),
        {
            let ghost before = index_items(stored.take(k as int), hinted(stored));
            let FileImage { path, data } = file;
            let FileName { id, kind } = names[k];
            proof {
                assert(stored.take(k + 1).drop_last() =~= stored.take(k as int));
                assert(stored.take(k + 1).last() == stored[k as int]);
                assert(stored[k as int].data == data@);
                lemma_replay_concat(Map::empty(), before, items_of(stored[k as int], hinted(stored)));
            }
            match kind {
                FileType::DataFile => {
                    if !with_hints.contains(&id) {
                        replay_records(&mut keydir, data.as_slice(), id);
                    }
                    manager.insert(id, Datafile::new_read_only(data, id));
                    assert(contents(manager@) =~= readers_of(stored.take(k + 1)));
                },
                FileType::HintFile => {
                    let mut hint_file = HintFile::new_read_only(data, id);
                    assert(hint_file@.unread() =~= data@);
                    replay_hints(&mut keydir, &mut hint_file);
                },
            }
            assert(k < names.len());
            k += 1;
        }
        assert(stored.take(stored.len() as int) =~= stored);
        let id = match next_id(now, highest) {
            Some(id) => id,
            None => return Err(StoreError::IoError),
        };
        proof {
            DbView::lemma_opened_tracks(stored, now);
        }
        Ok(Self { config: conf, keydir, manager, write_file: Datafile::new(id) })
    }

    /// Writes `value` under `key`, stamped with the current time: appends the
    /// record to the active datafile, then puts its place into the index.
    ///
    /// Fails with `IoError` where the append fails, and changes nothing then.
    pub fn put(&mut self, key: Vec<u8>, value: Vec<u8>) -> (res: Result<(), StoreError>)
        ensures
            final(self).config == old(self).config,
            final(self).manager == old(self).manager,
            match res {
                Ok(()) => {
                    let record = Record::fresh(
                        final(self)@.keydir[key@].timestamp,
                        key@,
                        value@,
                    );
                    &&& old(self)@.takes(record)
                    &&& final(self)@ == old(self)@.with(record)
                    &&& final(self)@.lookup(key@) == Ok::<Record, StoreError>(record)
                },
                Err(e) => {
                    &&& e == StoreError::IoError
                    &&& !old(self)@.takes(Record::fresh(0, key@, value@))
                    &&& final(self)@ == old(self)@
                },
            },
    {
        self.put_at(now(), key, value)
    }

    /// Writes `value` under `key` with the given timestamp.
    ///
    /// The put succeeds if and only if the active datafile accepts the record:
    /// it is active, the key and the value are each at most 2^32 - 1 bytes
    /// long, and the file stays within 64-bit offsets. It fails with `IoError`
    /// otherwise, and changes nothing then. After a put that succeeded, a get
    /// of the key returns the record.
    pub fn put_at(&mut self, timestamp: u64, key: Vec<u8>, value: Vec<u8>) -> (res: Result<
        (),
        StoreError,
    >)
        ensures
            final(self).config == old(self).config,
            final(self).manager == old(self).manager,
            ({
                let record = Record::fresh(timestamp, key@, value@);
                match res {
                    Ok(()) => {
                        &&& old(self)@.takes(record)
                        &&& final(self)@ == old(self)@.with(record)
                        &&& final(self)@.lookup(key@) == Ok::<Record, StoreError>(record)
                    },
                    Err(e) => {
                        &&& e == StoreError::IoError
                        &&& !old(self)@.takes(record)
                        &&& final(self)@ == old(self)@
                    },
                }
            }),
    {
        let key_entry: KeydirEntry = match self.write_file.write_at(
            timestamp,
            key.as_slice(),
            value,
        ) {
            Ok(entry) => entry,
            Err(_) => return Err(StoreError::IoError),
        };
        self.keydir.add_entry(key.as_slice(), key_entry);
        proof {
            old(self)@.lemma_put_then_get(Record::fresh(timestamp, key@, value@));
        }
        Ok(())
    }

    /// Closes the database and hands back the files that this session wrote,
    /// as they have to stand in the directory: the active datafile and, after
    /// it, its hint file. Opened again on the files it was opened on and
    /// these, the database finds every key with its last value, provided that
    /// no put was stamped with an earlier time than the record it replaced.
    pub fn close(self) -> (files: Vec<FileImage>)
        ensures
            files@.len() == if self@.active.hint is Some { 2int } else { 1int },
            files@[0]@.data == self@.active.data,
            files@[0].path@ == path_of(
                self.config.directory(),
                self@.active.id,
                FileType::DataFile,
            ),
            parse_path(files@[0]@.path) == Some(
                FileName { id: self@.active.id, kind: FileType::DataFile },
            ),
            self@.active.hint is Some ==> {
                &&& files@[1]@.data == self@.active.hint->0.data
                &&& files@[1].path@ == path_of(
                    self.config.directory(),
                    self@.active.id,
                    FileType::HintFile,
                )
                &&& parse_path(files@[1]@.path) == Some(
                    FileName { id: self@.active.id, kind: FileType::HintFile },
                )
            },
    {
        let DB { config, keydir, manager, write_file } = self;
        let id = write_file.id();
        let (data, hints) = write_file.into_bytes();
        let mut files: Vec<FileImage> = Vec::new();
        files.push(FileImage { path: file_path(config.dir(), id, FileType::DataFile), data });
        match hints {
            Some(hint) => {
                files.push(
                    FileImage { path: file_path(config.dir(), id, FileType::HintFile), data: hint },
                );
            },
            None => {},
        }
        files
    }

    /// Reads the latest record of `key`.
    ///
    /// Fails with `NotFound` if and only if the index does not hold the key;
    /// with `MissingFile` where the entry names a datafile that is neither
    /// the active one nor among the readers; with `IoError` where no whole
    /// record starts at the place that the entry names.
    pub fn get(&self, key: &[u8]) -> (res: Result<Entry, StoreError>)
        ensures
            match res {
                Ok(entry) => self@.lookup(key@) == Ok::<Record, StoreError>(entry@),
                Err(e) => self@.lookup(key@) == Err::<Record, StoreError>(e),
            },
    {
        let kd_entry = match self.keydir.get(key) {
            Ok(entry) => entry,
            Err(e) => return Err(e),
        };
        if kd_entry.file_id == self.write_file.id() {
            return self.write_file.read_whole_entry_from_offset(kd_entry.offset);
        }
        match self.manager.get(&kd_entry.file_id) {
            Some(file) => file.read_whole_entry_from_offset(kd_entry.offset),
            None => Err(StoreError::MissingFile),
        }
    }
}

} // verus!
