//! Startup: how the files of a database directory become a database again.
//!
//! Every datafile found is opened for reading; every hint file found is
//! replayed into the index, an item replacing what the index holds for its key
//! only if it is newer; a datafile that has no hint file is read record by
//! record in its place; then a new active datafile is made, with an id above
//! every id found.

use crate::datafile::{
    index_of, lemma_index_of_file_id, lemma_index_of_rising, parse_file_id, parse_path,
    DatafileView, FileName, FileType,
};
use crate::encoder::{Entry, Record, HEADER_LEN};
use crate::error::StoreError;
use crate::hint::{lemma_scan_append, lemma_scan_file_id, scan, HintFile};
use crate::keydir::{HintItem, Keydir, KeydirEntry};
use crate::model::DbView;
use std::collections::HashSet;
use vstd::prelude::*;
use vstd::slice::slice_subrange;
use vstd::utf8::encode_utf8;

verus! {

/// A file of the directory as a mathematical value: its path as bytes, and
/// its contents.
pub struct FileImageView {
    pub path: Seq<u8>,
    pub data: Seq<u8>,
}

/// A file as it is found in the database directory: its path and its
/// contents.
pub struct FileImage {
    pub path: String,
    pub data: Vec<u8>,
}

impl View for FileImage {
    type V = FileImageView;

    open spec fn view(&self) -> FileImageView {
        FileImageView { path: encode_utf8(self.path@), data: self.data@ }
    }
}

/// The files as mathematical values, in order.
pub open spec fn images(files: Seq<FileImage>) -> Seq<FileImageView> {
    files.map_values(|file: FileImage| file@)
}

/// A file of the directory, with what its name says.
pub struct Stored {
    pub id: u64,
    pub kind: FileType,
    pub data: Seq<u8>,
}

/// The files with what their names say, in the order given, if every name
/// can be parsed.
pub open spec fn classify(files: Seq<FileImageView>) -> Option<Seq<Stored>> {
    if forall|i: int| 0 <= i < files.len() ==> parse_path(#[trigger] files[i].path) is Some {
        Some(
            Seq::new(
                files.len(),
                |i: int|
                    Stored {
                        id: parse_path(files[i].path)->0.id,
                        kind: parse_path(files[i].path)->0.kind,
                        data: files[i].data,
                    },
            ),
        )
    } else {
        None
    }
}

/// The files with the given names and the contents of `files`, as many as
/// there are names.
pub open spec fn stored_of(names: Seq<FileName>, files: Seq<FileImageView>) -> Seq<Stored> {
    Seq::new(
        names.len(),
        |i: int| Stored { id: names[i].id, kind: names[i].kind, data: files[i].data },
    )
}

/// The ids that have a hint file among the files.
pub open spec fn hinted(files: Seq<Stored>) -> Set<u64> {
    Set::new(
        |id: u64|
            exists|i: int|
                0 <= i < files.len() && (#[trigger] files[i]).kind == FileType::HintFile
                    && files[i].id == id,
    )
}

/// One more file adds its id to the hinted ones if it is a hint file.
pub proof fn lemma_hinted_push(files: Seq<Stored>, file: Stored)
    ensures
        hinted(files.push(file)) == if file.kind == FileType::HintFile {
            hinted(files).insert(file.id)
        } else {
            hinted(files)
        },
{
    let more = files.push(file);
    let expected = if file.kind == FileType::HintFile {
        hinted(files).insert(file.id)
    } else {
        hinted(files)
    };
    assert forall|id: u64| hinted(more).contains(id) == expected.contains(id) by {
        if hinted(more).contains(id) {
            let i = choose|i: int|
                0 <= i < more.len() && (#[trigger] more[i]).kind == FileType::HintFile
                    && more[i].id == id;
            if i < files.len() {
                assert(files[i] == more[i]);
            }
        }
        if hinted(files).contains(id) {
            let i = choose|i: int|
                0 <= i < files.len() && (#[trigger] files[i]).kind == FileType::HintFile
                    && files[i].id == id;
            assert(more[i] == files[i]);
        }
        if file.kind == FileType::HintFile && id == file.id {
            assert(more[more.len() - 1] == file);
        }
    }
    assert(hinted(more) =~= expected);
}

/// What one file says to the index: a hint file what a scan of it yields; a
/// datafile nothing if its id is among `hinted`, and else, for want of
/// hints, what its own records say.
pub open spec fn items_of(file: Stored, hinted: Set<u64>) -> Seq<HintItem> {
    match file.kind {
        FileType::HintFile => scan(file.data, file.id),
        FileType::DataFile => if hinted.contains(file.id) {
            Seq::empty()
        } else {
            index_of(file.data, file.id, 0)
        },
    }
}

/// What all the files say to the index, in the order of the files, where
/// the datafiles with an id among `hinted` leave the word to their hint
/// files.
pub open spec fn index_items(files: Seq<Stored>, hinted: Set<u64>) -> Seq<HintItem>
    decreases files.len(),
{
    if files.len() == 0 {
        Seq::empty()
    } else {
        index_items(files.drop_last(), hinted) + items_of(files.last(), hinted)
    }
}

/// The index after the items were offered to it one after the other.
pub open spec fn replay(index: Map<Seq<u8>, KeydirEntry>, items: Seq<HintItem>) -> Map<
    Seq<u8>,
    KeydirEntry,
>
    decreases items.len(),
{
    if items.len() == 0 {
        index
    } else {
        Keydir::merged(replay(index, items.drop_last()), items.last().key, items.last().entry)
    }
}

/// The contents of the datafiles among the files, by id; of two with one id
/// the later counts.
pub open spec fn readers_of(files: Seq<Stored>) -> Map<u64, Seq<u8>>
    decreases files.len(),
{
    if files.len() == 0 {
        Map::empty()
    } else if files.last().kind == FileType::DataFile {
        readers_of(files.drop_last()).insert(files.last().id, files.last().data)
    } else {
        readers_of(files.drop_last())
    }
}

/// The greatest id among the files, if there is a file.
pub open spec fn highest_id(files: Seq<Stored>) -> Option<u64>
    decreases files.len(),
{
    if files.len() == 0 {
        None
    } else {
        match highest_id(files.drop_last()) {
            Some(id) if id > files.last().id => Some(id),
            _ => Some(files.last().id),
        }
    }
}

/// The id for a new datafile made at time `now`, where `highest` is the
/// greatest id in use: the time, if that is above every id in use, else the
/// next id above them. There is none where the greatest possible id is in
/// use.
pub open spec fn fresh_id(now: u64, highest: Option<u64>) -> Option<u64> {
    match highest {
        None => Some(now),
        Some(id) => if now > id {
            Some(now)
        } else if id < u64::MAX {
            Some((id + 1) as u64)
        } else {
            None
        },
    }
}

/// The database that opens on the given files at time `now`, or `IoError`
/// where no id is left for the new active datafile.
pub open spec fn recovered_from(files: Seq<Stored>, now: u64) -> Result<DbView, StoreError> {
    match fresh_id(now, highest_id(files)) {
        Some(id) => Ok(
            DbView {
                keydir: replay(Map::empty(), index_items(files, hinted(files))),
                readers: readers_of(files),
                active: DatafileView::empty(id),
            },
        ),
        None => Err(StoreError::IoError),
    }
}

/// The database that opens on the given files at time `now`, or
/// `CorruptFile` where a file's name cannot be parsed.
pub open spec fn recovered(files: Seq<FileImageView>, now: u64) -> Result<DbView, StoreError> {
    match classify(files) {
        Some(stored) => recovered_from(stored, now),
        None => Err(StoreError::CorruptFile),
    }
}

/// Offering items in two runs is offering them in one.
pub proof fn lemma_replay_concat(
    index: Map<Seq<u8>, KeydirEntry>,
    first: Seq<HintItem>,
    second: Seq<HintItem>,
)
    ensures
        replay(index, first + second) == replay(replay(index, first), second),
    decreases second.len(),
{
    if second.len() == 0 {
        assert(first + second =~= first);
    } else {
        assert((first + second).drop_last() =~= first + second.drop_last());
        assert((first + second).last() == second.last());
        lemma_replay_concat(index, first, second.drop_last());
    }
}

/// What the names of the files of a directory say, taken together.
pub struct Listing {
    /// For every file, in order, what its name says.
    pub names: Vec<FileName>,
    /// The ids that have a hint file.
    pub with_hints: HashSet<u64>,
    /// The greatest id, if there is a file.
    pub highest: Option<u64>,
}

/// Reads the names of all the files.
///
/// Fails with `CorruptFile` where one of them cannot be parsed.
pub fn read_names(files: &Vec<FileImage>) -> (res: Result<Listing, StoreError>)
    ensures
        match res {
            Ok(listing) => {
                let stored = stored_of(listing.names@, images(files@));
                &&& listing.names@.len() == files@.len()
                &&& classify(images(files@)) == Some(stored)
                &&& listing.with_hints@ == hinted(stored)
                &&& listing.highest == highest_id(stored)
            },
            Err(e) => e == StoreError::CorruptFile && classify(images(files@)) is None,
        },
{
    let ghost all = images(files@);
    let mut names: Vec<FileName> = Vec::new();
    let mut with_hints: HashSet<u64> = HashSet::new();
    let mut highest: Option<u64> = None;
    let mut i: usize = 0;
    assert(hinted(stored_of(names@, all)) =~= Set::<u64>::empty());
    while i < files.len()
        invariant
            i <= files@.len(),
            all == images(files@),
            names@.len() == i,
            forall|j: int| 0 <= j < i ==> parse_path(#[trigger] all[j].path) == Some(names@[j]),
            with_hints@ == hinted(stored_of(names@, all)),
            highest == highest_id(stored_of(names@, all)),
        decreases files@.len() - i,
    {
        let ghost earlier = stored_of(names@, all);
        assert(all[i as int].path == encode_utf8(files@[i as int].path@));
        let (id, kind) = match parse_file_id(files[i].path.as_str()) {
            Ok(name) => name,
            Err(_) => {
                return Err(StoreError::CorruptFile);
            },
        };
        names.push(FileName { id, kind });
        proof {
            let found = Stored { id, kind, data: all[i as int].data };
            assert(stored_of(names@, all) =~= earlier.push(found));
            assert(stored_of(names@, all).drop_last() =~= earlier);
            lemma_hinted_push(earlier, found);
        }
        if kind == FileType::HintFile {
            with_hints.insert(id);
        }
        highest =
        match highest {
            Some(seen) if seen > id => Some(seen),
            _ => Some(id),
        };
        i += 1;
    }
    assert(classify(all)->0 =~= stored_of(names@, all));
    Ok(Listing { names, with_hints, highest })
}

/// Offers to the index every item that a scan of the hint file yields from
/// its cursor on, in order, and leaves the cursor where the scan ended.
pub fn replay_hints(keydir: &mut Keydir, hint_file: &mut HintFile)
    ensures
        final(keydir)@ == replay(
            old(keydir)@,
            scan(old(hint_file)@.unread(), old(hint_file)@.file_id),
        ),
        final(hint_file)@.data == old(hint_file)@.data,
        final(hint_file)@.file_id == old(hint_file)@.file_id,
        final(hint_file)@.read_only == old(hint_file)@.read_only,
        KeydirEntry::from_hint(final(hint_file)@.unread(), final(hint_file)@.file_id) is None,
{
    let ghost start = keydir@;
    let ghost all = scan(hint_file@.unread(), hint_file@.file_id);
    let ghost mut done: Seq<HintItem> = Seq::empty();
    let mut left = hint_file.remaining();
    assert(done + all =~= all);
    while left > 0
        invariant_except_break
            hint_file@.cursor + left == hint_file@.data.len(),
            all == done + scan(hint_file@.unread(), hint_file@.file_id),
            keydir@ == replay(start, done),
        invariant
            hint_file@.data == old(hint_file)@.data,
            hint_file@.file_id == old(hint_file)@.file_id,
            hint_file@.read_only == old(hint_file)@.read_only,
        ensures
            keydir@ == replay(start, all),
            KeydirEntry::from_hint(hint_file@.unread(), hint_file@.file_id) is None,
        decreases left,
    {
        let ghost unread = hint_file@.unread();
        match hint_file.next() {
            Ok((entry, key)) => {
                keydir.add_if_newer(key.as_slice(), entry);
                left = hint_file.remaining();
                proof {
                    let earlier = done;
                    done = done.push(HintItem { entry, key: key@ });
                    assert(unread.skip(KeydirEntry::hint_len(key@) as int)
                        =~= hint_file@.unread());
                    assert(done + scan(hint_file@.unread(), hint_file@.file_id) =~= earlier
                        + scan(unread, hint_file@.file_id));
                    assert(done.drop_last() =~= earlier);
                }
            },
            Err(_) => {
                assert(done + scan(unread, hint_file@.file_id) =~= done);
                break ;
            },
        }
    }
}

/// Offers to the index, for every record of datafile `id` with the contents
/// `data`, front to back, what the record's hint would say.
pub fn replay_records(keydir: &mut Keydir, data: &[u8], id: u64)
    ensures
        final(keydir)@ == replay(old(keydir)@, index_of(data@, id, 0)),
{
    let ghost start = keydir@;
    let ghost all = index_of(data@, id, 0);
    let ghost mut done: Seq<HintItem> = Seq::empty();
    let mut at: usize = 0;
    assert(done + all =~= all);
    assert(data@.skip(0) =~= data@);
    loop
        invariant
            at <= data@.len(),
            all == done + index_of(data@.skip(at as int), id, at as nat),
            keydir@ == replay(start, done),
        ensures
            keydir@ == replay(start, all),
        decreases data@.len() - at,
    {
        let tail = slice_subrange(data, at, data.len());
        match Entry::decode(tail) {
            Ok(entry) => {
                let found = KeydirEntry {
                    file_id: id,
                    val_size: entry.value_size,
                    offset: at as u64,
                    timestamp: entry.timestamp,
                };
                keydir.add_if_newer(entry.key.as_slice(), found);
                let ghost from = at;
                at = at + (HEADER_LEN + entry.key.len() + entry.value.len());
                proof {
                    let earlier = done;
                    done = done.push(HintItem { entry: found, key: entry.key@ });
                    assert(data@.skip(from as int).skip(entry@.encoded_len() as int)
                        =~= data@.skip(at as int));
                    assert(done + index_of(data@.skip(at as int), id, at as nat) =~= earlier
                        + index_of(data@.skip(from as int), id, from as nat));
                    assert(done.drop_last() =~= earlier);
                }
            },
            Err(_) => {
                assert(done + index_of(data@.skip(at as int), id, at as nat) =~= done);
                break ;
            },
        }
    }
}

/// The id for a new datafile made at time `now`, where `highest` is the
/// greatest id in use, if an id is left.
pub fn next_id(now: u64, highest: Option<u64>) -> (id: Option<u64>)
    ensures
        id == fresh_id(now, highest),
{
    match highest {
        None => Some(now),
        Some(seen) => if now > seen {
            Some(now)
        } else if seen < u64::MAX {
            Some(seen + 1)
        } else {
            None
        },
    }
}

/// The id of every file is at most the highest.
pub proof fn lemma_highest_id(files: Seq<Stored>, i: int)
    requires
        0 <= i < files.len(),
    ensures
        highest_id(files) is Some,
        files[i].id <= highest_id(files)->0,
    decreases files.len(),
{
    if i < files.len() - 1 {
        lemma_highest_id(files.drop_last(), i);
    }
}

/// Every item of the files carries the id of one of them.
pub proof fn lemma_index_items_ids(files: Seq<Stored>, hinted: Set<u64>, i: int)
    requires
        0 <= i < index_items(files, hinted).len(),
    ensures
        exists|j: int|
            0 <= j < files.len() && (#[trigger] files[j]).id == index_items(
                files,
                hinted,
            )[i].entry.file_id,
    decreases files.len(),
{
    let earlier = index_items(files.drop_last(), hinted);
    if i < earlier.len() {
        lemma_index_items_ids(files.drop_last(), hinted, i);
        let j = choose|j: int|
            0 <= j < files.drop_last().len() && (#[trigger] files.drop_last()[j]).id
                == earlier[i].entry.file_id;
        assert(files[j].id == index_items(files, hinted)[i].entry.file_id);
    } else {
        if files.last().kind == FileType::HintFile {
            lemma_scan_file_id(files.last().data, files.last().id, i - earlier.len());
        } else {
            lemma_index_of_file_id(files.last().data, files.last().id, 0, i - earlier.len());
        }
        assert(files[files.len() - 1].id == index_items(files, hinted)[i].entry.file_id);
    }
}

/// Only the ids of the files themselves count in `hinted`.
pub proof fn lemma_index_items_hinted(files: Seq<Stored>, one: Set<u64>, other: Set<u64>)
    requires
        forall|i: int|
            0 <= i < files.len() ==> one.contains((#[trigger] files[i]).id) == other.contains(
                files[i].id,
            ),
    ensures
        index_items(files, one) == index_items(files, other),
    decreases files.len(),
{
    if files.len() > 0 {
        assert forall|i: int| 0 <= i < files.drop_last().len() implies one.contains(
            (#[trigger] files.drop_last()[i]).id,
        ) == other.contains(files.drop_last()[i].id) by {
            assert(files.drop_last()[i] == files[i]);
        }
        lemma_index_items_hinted(files.drop_last(), one, other);
        assert(files.last() == files[files.len() - 1]);
    }
}

/// The index holds, for every key that some item names, the newest item of
/// that key, and holds no other key: the item with the greatest timestamp,
/// among those the one of the greatest file id, among those the one of the
/// greatest offset. The order of the items decides only between items that
/// agree in all three.
pub proof fn lemma_replay_latest(items: Seq<HintItem>, key: Seq<u8>)
    ensures
        ({
            let index = replay(Map::empty(), items);
            &&& index.contains_key(key) <==> exists|i: int|
                0 <= i < items.len() && #[trigger] items[i].key == key
            &&& index.contains_key(key) ==> exists|i: int|
                0 <= i < items.len() && #[trigger] items[i].key == key && items[i].entry
                    == index[key]
            &&& forall|i: int|
                0 <= i < items.len() && #[trigger] items[i].key == key
                    ==> !items[i].entry.is_newer_than(index[key])
        }),
    decreases items.len(),
{
    if items.len() > 0 {
        let earlier = items.drop_last();
        let before = replay(Map::empty(), earlier);
        let index = replay(Map::empty(), items);
        lemma_replay_latest(earlier, key);
        assert forall|i: int| 0 <= i < earlier.len() implies #[trigger] earlier[i] == items[i] by {}
        if before.contains_key(key) {
            let i = choose|i: int|
                0 <= i < earlier.len() && #[trigger] earlier[i].key == key && earlier[i].entry
                    == before[key];
            assert(items[i].key == key);
            if index[key] == before[key] {
                assert(items[i].key == key && items[i].entry == index[key]);
            }
        }
        if items.last().key == key {
            assert(items[items.len() - 1].key == key);
            if index[key] == items.last().entry {
                assert(items[items.len() - 1].key == key && items[items.len() - 1].entry
                    == index[key]);
            }
        }
        if index.contains_key(key) {
            assert(exists|i: int|
                0 <= i < items.len() && #[trigger] items[i].key == key && items[i].entry
                    == index[key]);
        }
        if exists|i: int| 0 <= i < items.len() && #[trigger] items[i].key == key {
            let i = choose|i: int| 0 <= i < items.len() && #[trigger] items[i].key == key;
            if i < earlier.len() {
                assert(earlier[i].key == key);
            }
            assert(index.contains_key(key));
        }
        assert forall|i: int| 0 <= i < items.len() && #[trigger] items[i].key == key implies 
            !items[i].entry.is_newer_than(index[key]) by {
            if i < earlier.len() {
                assert(earlier[i].key == key);
                assert(!earlier[i].entry.is_newer_than(before[key]));
            }
        }
    }
}

/// No two items that differ name one key at one time and one place.
pub open spec fn distinct(items: Seq<HintItem>) -> bool {
    forall|i: int, j: int|
        #![trigger items[i], items[j]]
        0 <= i < items.len() && 0 <= j < items.len() && items[i].key == items[j].key
            && items[i].entry.timestamp == items[j].entry.timestamp && items[i].entry.file_id
            == items[j].entry.file_id && items[i].entry.offset == items[j].entry.offset
            ==> items[i].entry == items[j].entry
}

/// Every member of `a` is a member of `b`.
pub open spec fn within<A>(a: Seq<A>, b: Seq<A>) -> bool {
    forall|i: int| 0 <= i < a.len() ==> b.contains(#[trigger] a[i])
}

/// No two datafiles that differ have one id.
pub open spec fn one_datafile_per_id(files: Seq<Stored>) -> bool {
    forall|i: int, j: int|
        #![trigger files[i], files[j]]
        0 <= i < files.len() && 0 <= j < files.len() && files[i].kind == FileType::DataFile
            && files[j].kind == FileType::DataFile && files[i].id == files[j].id ==> files[i]
            == files[j]
}

/// The files are as this library leaves them: no two datafiles that differ
/// have one id, and no two items that differ name one key at one time and one
/// place. An empty directory is clean.
pub open spec fn clean(files: Seq<Stored>) -> bool {
    &&& one_datafile_per_id(files)
    &&& distinct(index_items(files, hinted(files)))
}

/// A key that the index holds after one run of items is held after any run
/// that has all those items, and with an entry that is no older.
proof fn lemma_replay_covers(a: Seq<HintItem>, b: Seq<HintItem>, key: Seq<u8>)
    requires
        within(a, b),
        replay(Map::empty(), a).contains_key(key),
    ensures
        replay(Map::empty(), b).contains_key(key),
        !replay(Map::empty(), a)[key].is_newer_than(replay(Map::empty(), b)[key]),
        exists|q: int|
            0 <= q < b.len() && (#[trigger] b[q]).key == key && b[q].entry == replay(
                Map::empty(),
                a,
            )[key],
{
    let ia = replay(Map::empty(), a);
    lemma_replay_latest(a, key);
    let p = choose|p: int| 0 <= p < a.len() && #[trigger] a[p].key == key && a[p].entry == ia[key];
    assert(b.contains(a[p]));
    let q = choose|q: int| 0 <= q < b.len() && b[q] == a[p];
    lemma_replay_latest(b, key);
    assert(b[q].key == key);
}

/// The order in which items are offered does not count for a key, as long as
/// no two items that differ name one key at one time and one place.
proof fn lemma_replay_any_order_at(a: Seq<HintItem>, b: Seq<HintItem>, key: Seq<u8>)
    requires
        within(a, b),
        within(b, a),
        distinct(a),
    ensures
        replay(Map::empty(), a).contains_key(key) == replay(Map::empty(), b).contains_key(key),
        replay(Map::empty(), a).contains_key(key) ==> replay(Map::empty(), a)[key] == replay(
            Map::empty(),
            b,
        )[key],
{
    let ia = replay(Map::empty(), a);
    let ib = replay(Map::empty(), b);
    if ia.contains_key(key) {
        lemma_replay_covers(a, b, key);
    }
    if ib.contains_key(key) {
        lemma_replay_covers(b, a, key);
    }
    if ia.contains_key(key) {
        lemma_replay_latest(a, key);
        let p = choose|p: int|
            0 <= p < a.len() && #[trigger] a[p].key == key && a[p].entry == ia[key];
        let q = choose|q: int| 0 <= q < a.len() && (#[trigger] a[q]).key == key && a[q].entry == ib[key];
        assert(a[p].entry == a[q].entry);
    }
}

/// The order in which items are offered does not count, as long as no two
/// items that differ name one key at one time and one place: the same items
/// in any order, any number of times each, make the same index.
pub proof fn lemma_replay_any_order(a: Seq<HintItem>, b: Seq<HintItem>)
    requires
        within(a, b),
        within(b, a),
        distinct(a),
    ensures
        replay(Map::empty(), a) == replay(Map::empty(), b),
{
    let ia = replay(Map::empty(), a);
    let ib = replay(Map::empty(), b);
    assert forall|key: Seq<u8>| #[trigger] ia.dom().contains(key) == ib.dom().contains(key) by {
        lemma_replay_any_order_at(a, b, key);
    }
    assert forall|key: Seq<u8>| ia.dom().contains(key) implies #[trigger] ia[key] == ib[key] by {
        lemma_replay_any_order_at(a, b, key);
    }
    assert(ia.dom() =~= ib.dom());
    assert(ia =~= ib);
}

/// Every item of a file is an item of the files.
proof fn lemma_index_items_from(files: Seq<Stored>, hinted: Set<u64>, i: int, j: int)
    requires
        0 <= i < files.len(),
        0 <= j < items_of(files[i], hinted).len(),
    ensures
        index_items(files, hinted).contains(items_of(files[i], hinted)[j]),
    decreases files.len(),
{
    let earlier = index_items(files.drop_last(), hinted);
    let all = index_items(files, hinted);
    let item = items_of(files[i], hinted)[j];
    if i == files.len() - 1 {
        assert(all[earlier.len() + j] == item);
    } else {
        assert(files.drop_last()[i] == files[i]);
        lemma_index_items_from(files.drop_last(), hinted, i, j);
        let n = choose|n: int| 0 <= n < earlier.len() && earlier[n] == item;
        assert(all[n] == item);
    }
}

/// Every item of the files is an item of one of them.
proof fn lemma_index_items_origin(files: Seq<Stored>, hinted: Set<u64>, n: int) -> (at: int)
    requires
        0 <= n < index_items(files, hinted).len(),
    ensures
        0 <= at < files.len(),
        items_of(files[at], hinted).contains(index_items(files, hinted)[n]),
    decreases files.len(),
{
    let earlier = index_items(files.drop_last(), hinted);
    let all = index_items(files, hinted);
    if n < earlier.len() {
        let at = lemma_index_items_origin(files.drop_last(), hinted, n);
        assert(files.drop_last()[at] == files[at]);
        at
    } else {
        let at = files.len() - 1;
        assert(items_of(files[at], hinted)[n - earlier.len()] == all[n]);
        at
    }
}

/// The items of files are among the items of any files that hold them all.
proof fn lemma_index_items_within(a: Seq<Stored>, b: Seq<Stored>, hinted: Set<u64>)
    requires
        within(a, b),
    ensures
        within(index_items(a, hinted), index_items(b, hinted)),
{
    let items_a = index_items(a, hinted);
    let items_b = index_items(b, hinted);
    assert forall|n: int| 0 <= n < items_a.len() implies items_b.contains(
        #[trigger] items_a[n],
    ) by {
        let i = lemma_index_items_origin(a, hinted, n);
        let of_file = items_of(a[i], hinted);
        let j = choose|j: int| 0 <= j < of_file.len() && of_file[j] == items_a[n];
        assert(b.contains(a[i]));
        let k = choose|k: int| 0 <= k < b.len() && b[k] == a[i];
        lemma_index_items_from(b, hinted, k, j);
    }
}

/// The ids with a hint file among files are such ids among any files that
/// hold them all.
proof fn lemma_hinted_within(a: Seq<Stored>, b: Seq<Stored>, id: u64)
    requires
        within(a, b),
        hinted(a).contains(id),
    ensures
        hinted(b).contains(id),
{
    let i = choose|i: int|
        0 <= i < a.len() && (#[trigger] a[i]).kind == FileType::HintFile && a[i].id == id;
    assert(b.contains(a[i]));
    let j = choose|j: int| 0 <= j < b.len() && b[j] == a[i];
    assert(b[j].kind == FileType::HintFile && b[j].id == id);
}

/// The highest id is the id of one of the files.
proof fn lemma_highest_id_attained(files: Seq<Stored>) -> (at: int)
    requires
        files.len() > 0,
    ensures
        0 <= at < files.len(),
        highest_id(files) == Some(files[at].id),
    decreases files.len(),
{
    let last = files.len() - 1;
    if files.len() > 1 {
        let at = lemma_highest_id_attained(files.drop_last());
        assert(files.drop_last()[at] == files[at]);
        if highest_id(files) == highest_id(files.drop_last()) {
            at
        } else {
            last
        }
    } else {
        assert(highest_id(files.drop_last()) is None);
        last
    }
}

/// The highest id among files is not above the highest among any files that
/// hold them all.
proof fn lemma_highest_id_within(a: Seq<Stored>, b: Seq<Stored>)
    requires
        within(a, b),
        a.len() > 0,
    ensures
        highest_id(a) is Some,
        highest_id(b) is Some,
        highest_id(a)->0 <= highest_id(b)->0,
{
    let at = lemma_highest_id_attained(a);
    assert(b.contains(a[at]));
    let j = choose|j: int| 0 <= j < b.len() && b[j] == a[at];
    lemma_highest_id(b, j);
}

/// Every reader is a datafile among the files.
proof fn lemma_readers_datafile(files: Seq<Stored>, id: u64) -> (at: int)
    requires
        readers_of(files).contains_key(id),
    ensures
        0 <= at < files.len(),
        files[at].id == id,
        files[at].kind == FileType::DataFile,
    decreases files.len(),
{
    if files.last().kind == FileType::DataFile && files.last().id == id {
        files.len() - 1
    } else {
        let at = lemma_readers_datafile(files.drop_last(), id);
        assert(files.drop_last()[at] == files[at]);
        at
    }
}

/// Where no two datafiles that differ have one id, the readers hold every
/// datafile under its id.
proof fn lemma_readers_of(files: Seq<Stored>, i: int)
    requires
        one_datafile_per_id(files),
        0 <= i < files.len(),
        files[i].kind == FileType::DataFile,
    ensures
        readers_of(files).contains_key(files[i].id),
        readers_of(files)[files[i].id] == files[i].data,
    decreases files.len(),
{
    let last = files.len() - 1;
    if i < last {
        let shorter = files.drop_last();
        assert forall|a: int, b: int|
            #![trigger shorter[a], shorter[b]]
            0 <= a < shorter.len() && 0 <= b < shorter.len() && shorter[a].kind
                == FileType::DataFile && shorter[b].kind == FileType::DataFile && shorter[a].id
                == shorter[b].id implies shorter[a] == shorter[b] by {
            assert(shorter[a] == files[a]);
            assert(shorter[b] == files[b]);
        }
        assert(shorter[i] == files[i]);
        lemma_readers_of(shorter, i);
        if files[last].kind == FileType::DataFile && files[last].id == files[i].id {
            assert(files[last] == files[i]);
        }
    }
}

/// A reader among files is the same reader among any files that hold them
/// all, where no two datafiles that differ have one id.
proof fn lemma_readers_within(a: Seq<Stored>, b: Seq<Stored>, id: u64)
    requires
        within(a, b),
        one_datafile_per_id(a),
        one_datafile_per_id(b),
        readers_of(a).contains_key(id),
    ensures
        readers_of(b).contains_key(id),
        readers_of(b)[id] == readers_of(a)[id],
{
    let i = lemma_readers_datafile(a, id);
    assert(b.contains(a[i]));
    let j = choose|j: int| 0 <= j < b.len() && b[j] == a[i];
    lemma_readers_of(a, i);
    lemma_readers_of(b, j);
}

/// What holds of the datafiles of files holds of any files within them.
proof fn lemma_one_datafile_within(a: Seq<Stored>, b: Seq<Stored>)
    requires
        within(b, a),
        one_datafile_per_id(a),
    ensures
        one_datafile_per_id(b),
{
    assert forall|i: int, j: int|
        #![trigger b[i], b[j]]
        0 <= i < b.len() && 0 <= j < b.len() && b[i].kind == FileType::DataFile && b[j].kind
            == FileType::DataFile && b[i].id == b[j].id implies b[i] == b[j] by {
        assert(a.contains(b[i]));
        assert(a.contains(b[j]));
        let p = choose|p: int| 0 <= p < a.len() && a[p] == b[i];
        let q = choose|q: int| 0 <= q < a.len() && a[q] == b[j];
        assert(a[p] == a[q]);
    }
}

/// The order in which the files of a directory are listed does not count:
/// clean files open as the same database in any order.
pub proof fn lemma_recovery_any_order(a: Seq<Stored>, b: Seq<Stored>, now: u64)
    requires
        within(a, b),
        within(b, a),
        clean(a),
    ensures
        recovered_from(a, now) == recovered_from(b, now),
{
    assert(hinted(a) =~= hinted(b)) by {
        assert forall|id: u64| hinted(a).contains(id) == hinted(b).contains(id) by {
            if hinted(a).contains(id) {
                lemma_hinted_within(a, b, id);
            }
            if hinted(b).contains(id) {
                lemma_hinted_within(b, a, id);
            }
        }
    }
    lemma_index_items_within(a, b, hinted(a));
    lemma_index_items_within(b, a, hinted(a));
    lemma_replay_any_order(index_items(a, hinted(a)), index_items(b, hinted(a)));
    lemma_one_datafile_within(a, b);
    assert(readers_of(a) =~= readers_of(b)) by {
        let ra = readers_of(a);
        let rb = readers_of(b);
        assert forall|id: u64| #[trigger] ra.dom().contains(id) == rb.dom().contains(id) by {
            if ra.contains_key(id) {
                lemma_readers_within(a, b, id);
            }
            if rb.contains_key(id) {
                lemma_readers_within(b, a, id);
            }
        }
        assert forall|id: u64| ra.dom().contains(id) implies #[trigger] ra[id] == rb[id] by {
            lemma_readers_within(a, b, id);
        }
        assert(ra.dom() =~= rb.dom());
    }
    assert(highest_id(a) == highest_id(b)) by {
        if a.len() > 0 {
            lemma_highest_id_within(a, b);
        }
        if b.len() > 0 {
            lemma_highest_id_within(b, a);
        }
    }
}

impl DbView {
    /// The database is what a restart on `files`, together with the active
    /// datafile and its hint file, would rebuild: the index is the replay of
    /// all their hints, the readers are the datafiles among `files`, the
    /// active hint file is faithful, and its id is above all others. Every
    /// entry of the index then lies in one of the files, before the end of
    /// the active one.
    pub open spec fn tracks(self, files: Seq<Stored>) -> bool {
        &&& self.active.faithful()
        &&& self.active.data.len() <= u64::MAX
        &&& self.keydir == replay(
            Map::empty(),
            index_items(files, hinted(files)) + scan(self.active.hint->0.data, self.active.id),
        )
        &&& self.readers == readers_of(files)
        &&& forall|i: int| 0 <= i < files.len() ==> (#[trigger] files[i]).id < self.active.id
        &&& forall|key: Seq<u8>| #[trigger]
            self.keydir.contains_key(key) ==> self.keydir[key].file_id < self.active.id || (
            self.keydir[key].file_id == self.active.id && self.keydir[key].offset
                < self.active.data.len())
    }

    /// The files that the database leaves behind: those it was opened on, and
    /// after them the active datafile and its hint file.
    pub open spec fn files_left(self, files: Seq<Stored>) -> Seq<Stored> {
        files.push(
            Stored { id: self.active.id, kind: FileType::DataFile, data: self.active.data },
        ).push(
            Stored {
                id: self.active.id,
                kind: FileType::HintFile,
                data: self.active.hint->0.data,
            },
        )
    }

    /// What the files left behind say to the index: what the files said that
    /// the database was opened on, and after that the hints of the active
    /// datafile.
    pub proof fn lemma_items_left(self, files: Seq<Stored>)
        requires
            self.tracks(files),
        ensures
            index_items(self.files_left(files), hinted(self.files_left(files))) == index_items(
                files,
                hinted(files),
            ) + scan(self.active.hint->0.data, self.active.id),
    {
        let left = self.files_left(files);
        let middle = left.drop_last();
        assert(middle.drop_last() =~= files);
        assert(left[left.len() - 1].kind == FileType::HintFile);
        assert(hinted(left).contains(self.active.id));
        assert forall|i: int| 0 <= i < files.len() implies hinted(left).contains(
            (#[trigger] files[i]).id,
        ) == hinted(files).contains(files[i].id) by {
            let id = files[i].id;
            if hinted(left).contains(id) {
                let j = choose|j: int|
                    0 <= j < left.len() && (#[trigger] left[j]).kind == FileType::HintFile
                        && left[j].id == id;
                assert(files[j] == left[j]);
            }
            if hinted(files).contains(id) {
                let j = choose|j: int|
                    0 <= j < files.len() && (#[trigger] files[j]).kind == FileType::HintFile
                        && files[j].id == id;
                assert(left[j] == files[j]);
            }
        }
        lemma_index_items_hinted(files, hinted(left), hinted(files));
        assert(index_items(middle, hinted(left)) =~= index_items(files, hinted(files)));
        assert(index_items(left, hinted(left)) =~= index_items(files, hinted(files)) + scan(
            self.active.hint->0.data,
            self.active.id,
        ));
    }

    /// The files that a database leaves behind are clean if those it was
    /// opened on were: again no two datafiles that differ have one id, and no
    /// two items that differ name one key at one time and one place. So the
    /// order in which they are listed at the next start does not count.
    pub proof fn lemma_left_clean(self, files: Seq<Stored>)
        requires
            self.tracks(files),
            clean(files),
        ensures
            clean(self.files_left(files)),
    {
        let left = self.files_left(files);
        let old_items = index_items(files, hinted(files));
        let new_items = scan(self.active.hint->0.data, self.active.id);
        let items = index_items(left, hinted(left));
        self.lemma_items_left(files);
        assert forall|i: int, j: int|
            #![trigger items[i], items[j]]
            0 <= i < items.len() && 0 <= j < items.len() && items[i].key == items[j].key
                && items[i].entry.timestamp == items[j].entry.timestamp
                && items[i].entry.file_id == items[j].entry.file_id && items[i].entry.offset
                == items[j].entry.offset implies items[i].entry == items[j].entry by {
            let n = old_items.len() as int;
            if i < n {
                lemma_index_items_ids(files, hinted(files), i);
            } else {
                lemma_index_of_file_id(self.active.data, self.active.id, 0, i - n);
            }
            if j < n {
                lemma_index_items_ids(files, hinted(files), j);
            } else {
                lemma_index_of_file_id(self.active.data, self.active.id, 0, j - n);
            }
            if i < n && j < n {
                assert(old_items[i] == items[i] && old_items[j] == items[j]);
            } else if i >= n && j >= n {
                if i < j {
                    lemma_index_of_rising(self.active.data, self.active.id, 0, i - n, j - n);
                } else if j < i {
                    lemma_index_of_rising(self.active.data, self.active.id, 0, j - n, i - n);
                }
            }
        }
        assert forall|i: int, j: int|
            #![trigger left[i], left[j]]
            0 <= i < left.len() && 0 <= j < left.len() && left[i].kind == FileType::DataFile
                && left[j].kind == FileType::DataFile && left[i].id == left[j].id implies left[i]
                == left[j] by {
            if i < files.len() && j < files.len() {
                assert(left[i] == files[i] && left[j] == files[j]);
            } else if i < files.len() {
                assert(left[i] == files[i]);
            } else if j < files.len() {
                assert(left[j] == files[j]);
            }
        }
    }

    /// A database that has just been opened on `files` tracks them.
    pub proof fn lemma_opened_tracks(files: Seq<Stored>, now: u64)
        requires
            recovered_from(files, now) is Ok,
        ensures
            recovered_from(files, now)->Ok_0.tracks(files),
    {
        let db = recovered_from(files, now)->Ok_0;
        let items = index_items(files, hinted(files));
        assert(items + scan(Seq::<u8>::empty(), db.active.id) =~= items);
        assert(index_of(Seq::<u8>::empty(), db.active.id, 0) =~= scan(
            Seq::<u8>::empty(),
            db.active.id,
        ));
        assert forall|i: int| 0 <= i < files.len() implies (#[trigger] files[i]).id
            < db.active.id by {
            lemma_highest_id(files, i);
        }
        assert forall|key: Seq<u8>| #[trigger] db.keydir.contains_key(key) implies db.keydir[key].file_id
            < db.active.id by {
            lemma_replay_latest(items, key);
            let i = choose|i: int|
                0 <= i < items.len() && #[trigger] items[i].key == key && items[i].entry
                    == db.keydir[key];
            lemma_index_items_ids(files, hinted(files), i);
        }
    }

    /// A put at a time that is not before the time of the record that the
    /// index holds for the key keeps the database in step with its files.
    pub proof fn lemma_put_tracks(self, files: Seq<Stored>, record: Record)
        requires
            self.tracks(files),
            self.takes(record),
            self.keydir.contains_key(record.key) ==> record.timestamp
                >= self.keydir[record.key].timestamp,
        ensures
            self.with(record).tracks(files),
    {
        let after = self.with(record);
        let entry = self.active.next_entry(record);
        let item = HintItem { entry, key: record.key };
        let hints = self.active.hint->0.data;
        self.active.lemma_append_faithful(record);
        lemma_scan_append(hints, entry, record.key);
        let earlier = index_items(files, hinted(files)) + scan(hints, self.active.id);
        let all = index_items(files, hinted(files)) + scan(
            after.active.hint->0.data,
            self.active.id,
        );
        assert(all =~= earlier.push(item));
        assert(all.drop_last() =~= earlier);
        assert(replay(Map::empty(), all) == Keydir::merged(self.keydir, record.key, entry));
        record.lemma_decode_encode(Seq::empty());
    }

    /// What was written survives a restart: a database that tracks its files
    /// and is opened again on the files it leaves behind holds the same index,
    /// and a get of any key returns what it returned before.
    pub proof fn lemma_reopen(self, files: Seq<Stored>, now: u64, key: Seq<u8>)
        requires
            self.tracks(files),
            recovered_from(self.files_left(files), now) is Ok,
        ensures
            recovered_from(self.files_left(files), now)->Ok_0.keydir == self.keydir,
            recovered_from(self.files_left(files), now)->Ok_0.lookup(key) == self.lookup(key),
            recovered_from(self.files_left(files), now)->Ok_0.tracks(self.files_left(files)),
    {
        let left = self.files_left(files);
        let middle = left.drop_last();
        let again = recovered_from(left, now)->Ok_0;
        assert(middle.drop_last() =~= files);
        self.lemma_items_left(files);
        assert(readers_of(middle) =~= self.readers.insert(self.active.id, self.active.data));
        assert(readers_of(left) =~= readers_of(middle));
        lemma_highest_id(left, left.len() - 1);
        DbView::lemma_opened_tracks(left, now);
        assert(!self.readers.contains_key(self.active.id)) by {
            if self.readers.contains_key(self.active.id) {
                lemma_readers_ids(files, self.active.id);
            }
        }
    }

    /// Persistence: a database that tracks the files it was opened on is
    /// closed, and a database is opened on those files followed by the two
    /// files that the first one left. Then the second finds for every key what
    /// the first one found.
    pub proof fn lemma_persistence(
        self,
        files: Seq<FileImageView>,
        left: Seq<FileImageView>,
        now: u64,
        key: Seq<u8>,
    )
        requires
            classify(files) is Some,
            self.tracks(classify(files)->0),
            left.len() == 2,
            left[0].data == self.active.data,
            parse_path(left[0].path) == Some(
                FileName { id: self.active.id, kind: FileType::DataFile },
            ),
            left[1].data == self.active.hint->0.data,
            parse_path(left[1].path) == Some(
                FileName { id: self.active.id, kind: FileType::HintFile },
            ),
            recovered(files + left, now) is Ok,
        ensures
            recovered(files + left, now)->Ok_0.lookup(key) == self.lookup(key),
            recovered(files + left, now)->Ok_0.keydir == self.keydir,
    {
        let stored = classify(files)->0;
        let all = files + left;
        assert(all[files.len() as int] == left[0]);
        assert(all[files.len() as int + 1] == left[1]);
        assert forall|i: int| 0 <= i < all.len() implies parse_path(#[trigger] all[i].path)
            is Some by {
            if i < files.len() {
                assert(all[i] == files[i]);
            } else if i == files.len() {
            } else {
                assert(i == files.len() + 1);
            }
        }
        assert forall|i: int| 0 <= i < files.len() implies (#[trigger] classify(all)->0[i])
            == stored[i] by {
            assert(all[i] == files[i]);
        }
        assert(classify(all)->0 =~= self.files_left(stored));
        self.lemma_reopen(stored, now, key);
    }

    /// A restart keeps the index sound.
    pub proof fn lemma_reopen_sound(self, files: Seq<Stored>, now: u64)
        requires
            self.tracks(files),
            self.sound(),
            recovered_from(self.files_left(files), now) is Ok,
        ensures
            recovered_from(self.files_left(files), now)->Ok_0.sound(),
    {
        let again = recovered_from(self.files_left(files), now)->Ok_0;
        assert forall|key: Seq<u8>| #[trigger] again.keydir.contains_key(key) implies again.lookup(
            key,
        ) is Ok && again.lookup(key)->Ok_0.key == key by {
            self.lemma_reopen(files, now, key);
        }
    }

    /// A database opened on an empty directory is sound: its index is empty.
    pub proof fn lemma_empty_sound(now: u64)
        ensures
            recovered_from(Seq::empty(), now) is Ok,
            recovered_from(Seq::empty(), now)->Ok_0.sound(),
            recovered_from(Seq::empty(), now)->Ok_0.keydir == Map::<Seq<u8>, KeydirEntry>::empty(),
    {
    }
}

/// Every reader is one of the files.
pub proof fn lemma_readers_ids(files: Seq<Stored>, id: u64)
    requires
        readers_of(files).contains_key(id),
    ensures
        exists|i: int| 0 <= i < files.len() && (#[trigger] files[i]).id == id,
    decreases files.len(),
{
    if files.len() > 0 {
        if files.last().kind == FileType::DataFile && files.last().id == id {
            assert(files[files.len() - 1].id == id);
        } else {
            lemma_readers_ids(files.drop_last(), id);
            let i = choose|i: int|
                0 <= i < files.drop_last().len() && (#[trigger] files.drop_last()[i]).id == id;
            assert(files[i].id == id);
        }
    }
}

} // verus!
