//! Hint files: for each datafile a compact sidecar that lists, record by
//! record, the key and the place of the record, so that the index can be
//! rebuilt without reading the values.

use crate::error::StoreError;
use crate::keydir::{HintItem, KeydirEntry};
use vstd::prelude::*;
use vstd::slice::slice_subrange;

verus! {

/// The items that a hint file of datafile `file_id` with contents `data`
/// yields, front to back, up to the first place where no whole record stands.
pub open spec fn scan(data: Seq<u8>, file_id: u64) -> Seq<HintItem>
    decreases data.len(),
{
    match KeydirEntry::from_hint(data, file_id) {
        Some(item) => seq![item] + scan(
            data.skip(KeydirEntry::hint_len(item.key) as int),
            file_id,
        ),
        None => Seq::empty(),
    }
}

/// `data` is made of whole hint records and nothing else. Where the records
/// end does not depend on the id of the file.
pub open spec fn whole(data: Seq<u8>) -> bool
    decreases data.len(),
{
    data.len() == 0 || match KeydirEntry::from_hint(data, 0) {
        Some(item) => whole(data.skip(KeydirEntry::hint_len(item.key) as int)),
        None => false,
    }
}

/// A hint record appended to whole records is found by a scan, after all
/// that was found before.
pub proof fn lemma_scan_append(data: Seq<u8>, entry: KeydirEntry, key: Seq<u8>)
    requires
        whole(data),
        key.len() <= u64::MAX,
    ensures
        whole(data + entry.hint(key)),
        scan(data + entry.hint(key), entry.file_id) == scan(data, entry.file_id).push(
            HintItem { entry, key },
        ),
    decreases data.len(),
{
    let id = entry.file_id;
    let added = entry.hint(key);
    let longer = data + added;
    if data.len() == 0 {
        assert(longer =~= added + Seq::<u8>::empty());
        entry.lemma_from_hint_of_hint(key, Seq::empty());
        KeydirEntry { file_id: 0, ..entry }.lemma_from_hint_of_hint(key, Seq::empty());
        assert(KeydirEntry { file_id: 0, ..entry }.hint(key) == added);
        let rest = longer.skip(KeydirEntry::hint_len(key) as int);
        assert(rest =~= Seq::<u8>::empty());
        assert(whole(rest));
        assert(whole(longer));
        assert(scan(rest, id) =~= Seq::<HintItem>::empty());
        assert(scan(data, id) =~= Seq::<HintItem>::empty());
        assert(scan(longer, id) =~= scan(data, id).push(HintItem { entry, key }));
    } else {
        KeydirEntry::lemma_from_hint_prefix(data, added, 0);
        lemma_from_hint_any_file(data, 0, id);
        lemma_from_hint_any_file(longer, 0, id);
        let first = KeydirEntry::from_hint(data, id)->0;
        let n = KeydirEntry::hint_len(first.key) as int;
        assert(longer.skip(n) =~= data.skip(n) + added);
        lemma_scan_append(data.skip(n), entry, key);
        assert(KeydirEntry::from_hint(longer, 0)->0.key == first.key);
        assert(whole(longer));
        assert(scan(longer, id) =~= scan(data, id).push(HintItem { entry, key }));
    }
}

/// The file id decides nothing but the id of the entries read.
pub proof fn lemma_from_hint_any_file(data: Seq<u8>, a: u64, b: u64)
    ensures
        KeydirEntry::from_hint(data, a) is Some <==> KeydirEntry::from_hint(data, b) is Some,
        KeydirEntry::from_hint(data, a) is Some ==> KeydirEntry::from_hint(data, a)->0.key
            == KeydirEntry::from_hint(data, b)->0.key,
{
}

/// Every item of a scan carries the id of the file scanned.
pub proof fn lemma_scan_file_id(data: Seq<u8>, file_id: u64, i: int)
    requires
        0 <= i < scan(data, file_id).len(),
    ensures
        scan(data, file_id)[i].entry.file_id == file_id,
    decreases data.len(),
{
    let first = KeydirEntry::from_hint(data, file_id)->0;
    if i > 0 {
        lemma_scan_file_id(data.skip(KeydirEntry::hint_len(first.key) as int), file_id, i - 1);
    }
}

/// A hint file held in memory: its contents, and a cursor for scanning them.
pub struct HintFile {
    data: Vec<u8>,
    offset: u64,
    file_id: u64,
    read_only: bool,
}

/// A hint file as a mathematical value.
pub struct HintView {
    /// The contents of the file.
    pub data: Seq<u8>,
    /// Where the next scan step reads.
    pub cursor: nat,
    /// The id of the datafile that the hints belong to.
    pub file_id: u64,
    /// Whether the file takes no more records.
    pub read_only: bool,
}

impl HintView {
    /// What a scan has not read yet.
    pub open spec fn unread(self) -> Seq<u8> {
        self.data.skip(self.cursor as int)
    }
}

impl View for HintFile {
    type V = HintView;

    closed spec fn view(&self) -> HintView {
        HintView {
            data: self.data@,
            cursor: self.offset as nat,
            file_id: self.file_id,
            read_only: self.read_only,
        }
    }
}

impl HintFile {
    #[verifier::type_invariant]
    spec fn cursor_in_file(&self) -> bool {
        self.offset <= self.data@.len()
    }

    /// An empty hint file for datafile `file_id`, open for appending.
    pub fn new(file_id: u64) -> (hint: Self)
        ensures
            hint@ == (HintView { data: Seq::empty(), cursor: 0, file_id, read_only: false }),
    {
        Self { data: Vec::new(), offset: 0, file_id, read_only: false }
    }

    /// The hint file of datafile `file_id` with the contents `data`, for
    /// scanning from the start.
    pub fn new_read_only(data: Vec<u8>, file_id: u64) -> (hint: Self)
        ensures
            hint@ == (HintView { data: data@, cursor: 0, file_id, read_only: true }),
    {
        Self { data, offset: 0, file_id, read_only: true }
    }

    /// The contents of the file.
    pub fn bytes(&self) -> (data: &Vec<u8>)
        ensures
            data@ == self@.data,
    {
        &self.data
    }

    /// The number of bytes that a scan has not read yet.
    pub fn remaining(&self) -> (left: usize)
        ensures
            self@.cursor + left == self@.data.len(),
            left == self@.unread().len(),
    {
        proof {
            use_type_invariant(self);
        }
        self.data.len() - self.offset as usize
    }

    /// Gives up the file for its contents.
    pub fn into_bytes(self) -> (data: Vec<u8>)
        ensures
            data@ == self@.data,
    {
        self.data
    }

    /// Appends the hint record for `entry` under `key`.
    ///
    /// Fails with `IoError`, and changes nothing, on a file that was opened
    /// for reading only.
    pub fn write_keydir_entry(&mut self, entry: &KeydirEntry, key: &[u8]) -> (res: Result<
        (),
        StoreError,
    >)
        ensures
            match res {
                Ok(()) => !old(self)@.read_only && final(self)@ == (HintView {
                    data: old(self)@.data + entry.hint(key@),
                    ..old(self)@
                }),
                Err(e) => {
                    &&& e == StoreError::IoError
                    &&& old(self)@.read_only
                    &&& final(self)@ == old(self)@
                },
            },
    {
        proof {
            use_type_invariant(&*self);
        }
        if self.read_only {
            return Err(StoreError::IoError);
        }
        let record = entry.encode(key);
        let cursor = self.offset;
        let mut data: Vec<u8> = Vec::new();
        self.offset = 0;
        std::mem::swap(&mut self.data, &mut data);
        let ghost before = data@;
        data.extend_from_slice(record.as_slice());
        assert(data@ =~= before + entry.hint(key@));
        self.data = data;
        self.offset = cursor;
        Ok(())
    }

    /// Reads the hint record at the cursor and moves the cursor past it. The
    /// entry carries the id of this file.
    ///
    /// Fails with `EndOfFile`, and leaves the cursor where it is, where no
    /// whole record remains.
    pub fn next(&mut self) -> (res: Result<(KeydirEntry, Vec<u8>), StoreError>)
        ensures
            match res {
                Ok((entry, key)) => KeydirEntry::from_hint(old(self)@.unread(), old(self)@.file_id)
                    == Some(HintItem { entry, key: key@ }) && final(self)@ == (HintView {
                    cursor: old(self)@.cursor + KeydirEntry::hint_len(key@),
                    ..old(self)@
                }),
                Err(e) => e == StoreError::EndOfFile && KeydirEntry::from_hint(
                    old(self)@.unread(),
                    old(self)@.file_id,
                ) is None && final(self)@ == old(self)@,
            },
    {
        proof {
            use_type_invariant(&*self);
        }
        let unread = slice_subrange(self.data.as_slice(), self.offset as usize, self.data.len());
        match KeydirEntry::decode(unread, self.file_id) {
            Ok((entry, key)) => {
                self.offset = self.offset + (crate::keydir::HINT_HEADER_LEN + key.len()) as u64;
                Ok((entry, key))
            },
            Err(_) => Err(StoreError::EndOfFile),
        }
    }
}

} // verus!
