//! Datafiles: append-only logs of records, each with an id, and the names
//! under which they and their hint files are kept.

use crate::clock::now;
use crate::encoder::{Entry, Record, HEADER_LEN};
use crate::error::StoreError;
use crate::hint::{lemma_scan_append, scan, whole, HintFile, HintView};
use crate::keydir::{HintItem, KeydirEntry};
use vstd::prelude::*;
use vstd::slice::{slice_subrange, slice_to_vec};
use vstd::string::{StringExecFns, StringSliceAdditionalSpecFns};
use vstd::utf8::{encode_utf8, is_ascii_chars, is_ascii_chars_encode_utf8};

verus! {

/// The two kinds of file in a database directory.
#[derive(Clone, Copy, Debug, PartialEq, Eq, Structural)]
pub enum FileType {
    DataFile,
    HintFile,
}

/// The byte `/`, which ends the directories of a path.
pub const SLASH: u8 = 0x2f;

/// The byte `.`, which stands between a file's id and its extension.
pub const DOT: u8 = 0x2e;

/// The byte `0`.
pub const DIGIT_0: u8 = 0x30;

/// The byte `9`.
pub const DIGIT_9: u8 = 0x39;

/// What the name of a file says: the id, and the kind of file.
pub struct FileName {
    pub id: u64,
    pub kind: FileType,
}

/// Where the file name starts in `path`: behind the last `/`, or at the
/// front where there is none.
pub open spec fn name_start(path: Seq<u8>) -> nat
    decreases path.len(),
{
    if path.len() == 0 {
        0
    } else if path.last() == SLASH {
        path.len()
    } else {
        name_start(path.drop_last())
    }
}

/// `s` is one or more decimal digits.
pub open spec fn is_digits(s: Seq<u8>) -> bool {
    &&& s.len() > 0
    &&& forall|i: int| 0 <= i < s.len() ==> DIGIT_0 <= #[trigger] s[i] <= DIGIT_9
}

/// The number that the decimal digits `s` spell.
pub open spec fn decimal(s: Seq<u8>) -> nat
    decreases s.len(),
{
    if s.len() == 0 {
        0
    } else {
        10 * decimal(s.drop_last()) + (s.last() - DIGIT_0) as nat
    }
}

/// The kind of file that an extension stands for: `df` a datafile, `ht` a
/// hint file.
pub open spec fn kind_of(extension: Seq<u8>) -> Option<FileType> {
    if extension == seq![0x64u8, 0x66u8] {
        Some(FileType::DataFile)
    } else if extension == seq![0x68u8, 0x74u8] {
        Some(FileType::HintFile)
    } else {
        None
    }
}

/// What the file name `name` says, if it has the form `<id>.df` or
/// `<id>.ht` with the id in decimal digits and within 64 bits.
pub open spec fn parse_name(name: Seq<u8>) -> Option<FileName> {
    let stem = name.take(name.len() - 3);
    let extension = name.skip(name.len() - 2);
    if name.len() >= 4 && name[name.len() - 3] == DOT && is_digits(stem) && decimal(stem)
        <= u64::MAX && kind_of(extension) is Some {
        Some(FileName { id: decimal(stem) as u64, kind: kind_of(extension)->0 })
    } else {
        None
    }
}

/// What the path `path` says of its file, whatever directories it names.
pub open spec fn parse_path(path: Seq<u8>) -> Option<FileName> {
    parse_name(path.skip(name_start(path) as int))
}

/// The number spelled by the first digits of `s` is not above the number
/// spelled by all of them.
pub proof fn lemma_decimal_grows(s: Seq<u8>, k: int)
    requires
        is_digits(s),
        0 <= k <= s.len(),
    ensures
        decimal(s.take(k)) <= decimal(s),
    decreases s.len() - k,
{
    if k == s.len() {
        assert(s.take(k) =~= s);
    } else {
        let longer = s.take(k + 1);
        assert(longer.drop_last() =~= s.take(k));
        assert(longer.last() == s[k]);
        lemma_decimal_grows(s, k + 1);
    }
}

/// Reads the id and the kind of a file from its path. The directories of the
/// path do not count: the name is what follows the last `/`.
///
/// Fails with `CorruptFile` where the name is not `<id>.df` or `<id>.ht`
/// with an id in decimal digits that fits in 64 bits.
pub fn parse_file_id(path: &str) -> (res: Result<(u64, FileType), StoreError>)
    ensures
        match res {
            Ok((id, kind)) => parse_path(path.spec_bytes()) == Some(FileName { id, kind }),
            Err(e) => e == StoreError::CorruptFile && parse_path(path.spec_bytes()) is None,
        },
{
    let bytes = path.as_bytes();
    let mut start: usize = bytes.len();
    assert(bytes@.take(bytes@.len() as int) =~= bytes@);
    while start > 0 && bytes[start - 1] != SLASH
        invariant
            start <= bytes@.len(),
            name_start(bytes@) == name_start(bytes@.take(start as int)),
        decreases start,
    {
        assert(bytes@.take(start as int).drop_last() =~= bytes@.take(start - 1));
        start -= 1;
    }
    assert(name_start(bytes@) == start);
    let name = slice_subrange(bytes, start, bytes.len());
    if name.len() < 4 {
        return Err(StoreError::CorruptFile);
    }
    let stem_len: usize = name.len() - 3;
    if name[stem_len] != DOT {
        return Err(StoreError::CorruptFile);
    }
    let ghost stem = name@.take(stem_len as int);
    let mut id: u64 = 0;
    let mut i: usize = 0;
    while i < stem_len
        invariant
            i <= stem_len,
            stem_len == name@.len() - 3,
            stem == name@.take(stem_len as int),
            name@ == path.spec_bytes().skip(name_start(path.spec_bytes()) as int),
            forall|j: int| 0 <= j < i ==> DIGIT_0 <= #[trigger] stem[j] <= DIGIT_9,
            id == decimal(stem.take(i as int)),
        decreases stem_len - i,
    {
        let c = name[i];
        if c < DIGIT_0 || c > DIGIT_9 {
            assert(stem[i as int] == c);
            return Err(StoreError::CorruptFile);
        }
        let digit: u64 = (c - DIGIT_0) as u64;
        proof {
            assert(stem.take(i + 1).drop_last() =~= stem.take(i as int));
            assert(stem.take(i + 1).last() == c);
        }
        if id > (u64::MAX - digit) / 10 {
            proof {
                if is_digits(stem) {
                    lemma_decimal_grows(stem, i + 1);
                }
            }
            return Err(StoreError::CorruptFile);
        }
        id = id * 10 + digit;
        i += 1;
    }
    assert(stem.take(stem_len as int) =~= stem);
    let e0 = name[stem_len + 1];
    let e1 = name[stem_len + 2];
    assert(name@.skip(name@.len() - 2) =~= seq![e0, e1]);
    if e0 == 0x64 && e1 == 0x66 {
        Ok((id, FileType::DataFile))
    } else if e0 == 0x68 && e1 == 0x74 {
        Ok((id, FileType::HintFile))
    } else {
        assert(seq![e0, e1] != seq![0x64u8, 0x66u8]) by {
            if seq![e0, e1] == seq![0x64u8, 0x66u8] {
                assert(seq![e0, e1][0] == 0x64u8 && seq![e0, e1][1] == 0x66u8);
            }
        }
        assert(seq![e0, e1] != seq![0x68u8, 0x74u8]) by {
            if seq![e0, e1] == seq![0x68u8, 0x74u8] {
                assert(seq![e0, e1][0] == 0x68u8 && seq![e0, e1][1] == 0x74u8);
            }
        }
        Err(StoreError::CorruptFile)
    }
}

/// The decimal digits of `n`, without leading zeros.
pub open spec fn digits_of(n: nat) -> Seq<u8>
    decreases n,
{
    if n < 10 {
        seq![(DIGIT_0 + n) as u8]
    } else {
        digits_of(n / 10).push((DIGIT_0 + n % 10) as u8)
    }
}

/// The extension of a kind of file: `df` for a datafile, `ht` for a hint
/// file.
pub open spec fn extension_of(kind: FileType) -> Seq<u8> {
    match kind {
        FileType::DataFile => seq![0x64u8, 0x66u8],
        FileType::HintFile => seq![0x68u8, 0x74u8],
    }
}

/// The name of the file of kind `kind` with the id `id`: `<id>.df` or
/// `<id>.ht`.
pub open spec fn name_of(id: u64, kind: FileType) -> Seq<u8> {
    digits_of(id as nat) + seq![DOT] + extension_of(kind)
}

/// The path of the file of kind `kind` with the id `id` in `directory`:
/// `<directory>/<id>.df` or `<directory>/<id>.ht`.
pub open spec fn path_of(directory: Seq<char>, id: u64, kind: FileType) -> Seq<char> {
    directory + seq!['/'] + name_of(id, kind).map_values(|b: u8| b as char)
}

/// The digits of a number are digits, and spell the number.
pub proof fn lemma_digits_of(n: nat)
    ensures
        is_digits(digits_of(n)),
        decimal(digits_of(n)) == n,
    decreases n,
{
    if n < 10 {
        let one = digits_of(n);
        assert(one.drop_last() =~= Seq::<u8>::empty());
        assert(decimal(one.drop_last()) == 0);
    } else {
        lemma_digits_of(n / 10);
        let all = digits_of(n);
        assert(all.drop_last() =~= digits_of(n / 10));
    }
}

/// A file's name says the id and the kind that it was made of.
pub proof fn lemma_parse_name_of(id: u64, kind: FileType)
    ensures
        parse_name(name_of(id, kind)) == Some(FileName { id, kind }),
        forall|i: int| 0 <= i < name_of(id, kind).len() ==> #[trigger] name_of(id, kind)[i] != SLASH,
        forall|i: int| 0 <= i < name_of(id, kind).len() ==> #[trigger] name_of(id, kind)[i] < 0x80,
{
    lemma_digits_of(id as nat);
    let name = name_of(id, kind);
    let digits = digits_of(id as nat);
    assert(name.take(name.len() - 3) =~= digits);
    assert(name.skip(name.len() - 2) =~= extension_of(kind));
    assert(seq![0x64u8, 0x66u8] != seq![0x68u8, 0x74u8]) by {
        assert(seq![0x64u8, 0x66u8][0] != seq![0x68u8, 0x74u8][0]);
    }
    assert forall|i: int| 0 <= i < name.len() implies #[trigger] name[i] != SLASH && name[i]
        < 0x80 by {
        if i < digits.len() {
            assert(name[i] == digits[i]);
        }
    }
}

/// In a path that ends in a `/` and a name without `/`, the name starts
/// behind that `/`.
pub proof fn lemma_name_start(directory: Seq<u8>, name: Seq<u8>)
    requires
        forall|i: int| 0 <= i < name.len() ==> #[trigger] name[i] != SLASH,
    ensures
        name_start(directory + seq![SLASH] + name) == directory.len() + 1,
    decreases name.len(),
{
    let path = directory + seq![SLASH] + name;
    if name.len() == 0 {
        assert(path.last() == SLASH);
    } else {
        assert(path.last() == name.last());
        assert(path.drop_last() =~= directory + seq![SLASH] + name.drop_last());
        lemma_name_start(directory, name.drop_last());
    }
}

/// The encoding of two strings in a row is the two encodings in a row.
pub proof fn lemma_encode_utf8_concat(a: Seq<char>, b: Seq<char>)
    ensures
        encode_utf8(a + b) == encode_utf8(a) + encode_utf8(b),
    decreases a.len(),
{
    if a.len() == 0 {
        assert(a + b =~= b);
        assert(encode_utf8(a) + encode_utf8(b) =~= encode_utf8(b));
    } else {
        assert((a + b).drop_first() =~= a.drop_first() + b);
        lemma_encode_utf8_concat(a.drop_first(), b);
        assert(encode_utf8(a + b) =~= encode_utf8(a) + encode_utf8(b));
    }
}

/// The path of a file says the id and the kind that it was made of,
/// whatever the directory.
pub proof fn lemma_parse_path_of(directory: Seq<char>, id: u64, kind: FileType)
    ensures
        parse_path(encode_utf8(path_of(directory, id, kind))) == Some(FileName { id, kind }),
{
    let name = name_of(id, kind);
    let name_chars = name.map_values(|b: u8| b as char);
    let slash = seq!['/'];
    lemma_parse_name_of(id, kind);
    lemma_encode_utf8_concat(directory + slash, name_chars);
    lemma_encode_utf8_concat(directory, slash);
    assert(is_ascii_chars(slash));
    is_ascii_chars_encode_utf8(slash);
    assert(encode_utf8(slash) =~= seq![SLASH]);
    assert forall|i: int| 0 <= i < name_chars.len() implies '\0' <= #[trigger] name_chars[i]
        <= '\u{7f}' by {
        let b = name[i];
        assert(b < 0x80);
        assert(name_chars[i] == b as char);
    }
    is_ascii_chars_encode_utf8(name_chars);
    assert forall|i: int| 0 <= i < name.len() implies encode_utf8(name_chars)[i] == name[i] by {
        let b = name[i];
        assert(name_chars[i] == b as char);
        assert((b as char) as u8 == b);
    }
    assert(encode_utf8(name_chars) =~= name);
    let bytes = encode_utf8(path_of(directory, id, kind));
    assert(bytes == encode_utf8(directory) + seq![SLASH] + name);
    lemma_name_start(encode_utf8(directory), name);
    assert(bytes.skip(encode_utf8(directory).len() as int + 1) =~= name);
}

/// The one-character string of a decimal digit.
fn digit_str(digit: u8) -> (s: &'static str)
    requires
        digit < 10,
    ensures
        s@ == seq![((DIGIT_0 + digit) as u8) as char],
{
    proof {
        reveal_strlit("0");
        reveal_strlit("1");
        reveal_strlit("2");
        reveal_strlit("3");
        reveal_strlit("4");
        reveal_strlit("5");
        reveal_strlit("6");
        reveal_strlit("7");
        reveal_strlit("8");
        reveal_strlit("9");
    }
    let s = match digit {
        0 => "0",
        1 => "1",
        2 => "2",
        3 => "3",
        4 => "4",
        5 => "5",
        6 => "6",
        7 => "7",
        8 => "8",
        _ => "9",
    };
    assert(s@ =~= seq![((DIGIT_0 + digit) as u8) as char]);
    s
}

/// The path under which the file of kind `kind` with the id `id` is kept in
/// `directory`.
pub fn file_path(directory: &str, id: u64, kind: FileType) -> (path: String)
    ensures
        path@ == path_of(directory@, id, kind),
        parse_path(encode_utf8(path@)) == Some(FileName { id, kind }),
{
    let mut reversed: Vec<u8> = Vec::new();
    let mut rest: u64 = id;
    while rest >= 10
        invariant
            digits_of(id as nat) == digits_of(rest as nat) + Seq::new(
                reversed@.len(),
                |i: int| (DIGIT_0 + reversed@[reversed@.len() - 1 - i]) as u8,
            ),
            forall|i: int| 0 <= i < reversed@.len() ==> #[trigger] reversed@[i] < 10,
        decreases rest,
    {
        let ghost before = reversed@;
        reversed.push((rest % 10) as u8);
        proof {
            let tail_before = Seq::new(
                before.len(),
                |i: int| (DIGIT_0 + before[before.len() - 1 - i]) as u8,
            );
            let tail = Seq::new(
                reversed@.len(),
                |i: int| (DIGIT_0 + reversed@[reversed@.len() - 1 - i]) as u8,
            );
            assert(digits_of(rest as nat) + tail_before =~= digits_of((rest / 10) as nat) + tail);
        }
        rest = rest / 10;
    }
    let mut path = String::from_str(directory);
    proof {
        reveal_strlit("/");
    }
    path.append("/");
    path.append(digit_str(rest as u8));
    let ghost head = directory@ + seq!['/'];
    let mut left: usize = reversed.len();
    assert(path@ =~= head + digits_of(rest as nat).map_values(|b: u8| b as char));
    while left > 0
        invariant
            left <= reversed@.len(),
            forall|i: int| 0 <= i < reversed@.len() ==> #[trigger] reversed@[i] < 10,
            path@ == head + (digits_of(rest as nat) + Seq::new(
                (reversed@.len() - left) as nat,
                |i: int| (DIGIT_0 + reversed@[reversed@.len() - 1 - i]) as u8,
            )).map_values(|b: u8| b as char),
        decreases left,
    {
        left -= 1;
        let ghost before = path@;
        path.append(digit_str(reversed[left]));
        proof {
            let shorter = digits_of(rest as nat) + Seq::new(
                (reversed@.len() - left - 1) as nat,
                |i: int| (DIGIT_0 + reversed@[reversed@.len() - 1 - i]) as u8,
            );
            let longer = digits_of(rest as nat) + Seq::new(
                (reversed@.len() - left) as nat,
                |i: int| (DIGIT_0 + reversed@[reversed@.len() - 1 - i]) as u8,
            );
            assert(longer =~= shorter.push((DIGIT_0 + reversed@[left as int]) as u8));
            assert(path@ =~= head + longer.map_values(|b: u8| b as char));
        }
    }
    proof {
        reveal_strlit(".df");
        reveal_strlit(".ht");
    }
    let ghost digits = digits_of(id as nat);
    assert(path@ =~= head + digits.map_values(|b: u8| b as char));
    match kind {
        FileType::DataFile => path.append(".df"),
        FileType::HintFile => path.append(".ht"),
    }
    proof {
        assert(path@ =~= path_of(directory@, id, kind));
        lemma_parse_path_of(directory@, id, kind);
    }
    path
}

/// The index entry for record `record` of datafile `id`, where the record
/// starts at `offset`.
pub open spec fn entry_at(id: u64, offset: nat, record: Record) -> KeydirEntry {
    KeydirEntry {
        file_id: id,
        val_size: record.value_size,
        offset: offset as u64,
        timestamp: record.timestamp,
    }
}

/// What the records of a log say to the index: for each record of `data`,
/// front to back, its key and its entry, where `data` is the part of
/// datafile `id` that starts at offset `base`.
pub open spec fn index_of(data: Seq<u8>, id: u64, base: nat) -> Seq<HintItem>
    decreases data.len(),
{
    match Record::decode(data) {
        Some(record) => seq![HintItem { entry: entry_at(id, base, record), key: record.key }]
            + index_of(
            data.skip(record.encoded_len() as int),
            id,
            base + record.encoded_len(),
        ),
        None => Seq::empty(),
    }
}

/// Every item of a log's index carries the id of the log's file.
pub proof fn lemma_index_of_file_id(data: Seq<u8>, id: u64, base: nat, i: int)
    requires
        0 <= i < index_of(data, id, base).len(),
    ensures
        index_of(data, id, base)[i].entry.file_id == id,
    decreases data.len(),
{
    let first = Record::decode(data)->0;
    Record::lemma_decode_prefix(data, Seq::empty());
    if i > 0 {
        lemma_index_of_file_id(
            data.skip(first.encoded_len() as int),
            id,
            base + first.encoded_len(),
            i - 1,
        );
    }
}

/// Every item of a log's index lies within the log.
pub proof fn lemma_index_of_within(data: Seq<u8>, id: u64, base: nat, i: int)
    requires
        0 <= i < index_of(data, id, base).len(),
        base + data.len() <= u64::MAX,
    ensures
        base <= index_of(data, id, base)[i].entry.offset < base + data.len(),
    decreases data.len(),
{
    let first = Record::decode(data)->0;
    Record::lemma_decode_prefix(data, Seq::empty());
    if i > 0 {
        lemma_index_of_within(
            data.skip(first.encoded_len() as int),
            id,
            base + first.encoded_len(),
            i - 1,
        );
    }
}

/// The items of a log's index stand in the order of their offsets.
pub proof fn lemma_index_of_rising(data: Seq<u8>, id: u64, base: nat, i: int, j: int)
    requires
        0 <= i < j < index_of(data, id, base).len(),
        base + data.len() <= u64::MAX,
    ensures
        index_of(data, id, base)[i].entry.offset < index_of(data, id, base)[j].entry.offset,
    decreases data.len(),
{
    let first = Record::decode(data)->0;
    Record::lemma_decode_prefix(data, Seq::empty());
    let rest = data.skip(first.encoded_len() as int);
    if i == 0 {
        lemma_index_of_within(rest, id, base + first.encoded_len(), j - 1);
    } else {
        lemma_index_of_rising(rest, id, base + first.encoded_len(), i - 1, j - 1);
    }
}

/// `data` is made of whole records and nothing else.
pub open spec fn is_log(data: Seq<u8>) -> bool
    decreases data.len(),
{
    data.len() == 0 || match Record::decode(data) {
        Some(record) => is_log(data.skip(record.encoded_len() as int)),
        None => false,
    }
}

/// A record appended to a log stands in the log's index after all that stood
/// there before, with the offset at which it was appended.
pub proof fn lemma_log_append(data: Seq<u8>, record: Record, id: u64, base: nat)
    requires
        is_log(data),
        record.wf(),
    ensures
        is_log(data + record.encode()),
        index_of(data + record.encode(), id, base) == index_of(data, id, base).push(
            HintItem { entry: entry_at(id, base + data.len(), record), key: record.key },
        ),
    decreases data.len(),
{
    let added = record.encode();
    let longer = data + added;
    let item = HintItem { entry: entry_at(id, base + data.len(), record), key: record.key };
    if data.len() == 0 {
        assert(longer =~= added + Seq::<u8>::empty());
        record.lemma_decode_encode(Seq::empty());
        let rest = longer.skip(record.encoded_len() as int);
        assert(rest =~= Seq::<u8>::empty());
        assert(is_log(rest));
        assert(is_log(longer));
        assert(index_of(rest, id, base + record.encoded_len()) =~= Seq::<HintItem>::empty());
        assert(index_of(data, id, base) =~= Seq::<HintItem>::empty());
        assert(index_of(longer, id, base) =~= index_of(data, id, base).push(item));
    } else {
        Record::lemma_decode_prefix(data, added);
        let first = Record::decode(data)->0;
        let n = first.encoded_len();
        assert(longer.skip(n as int) =~= data.skip(n as int) + added);
        lemma_log_append(data.skip(n as int), record, id, base + n);
        assert(is_log(longer));
        assert(index_of(longer, id, base) =~= index_of(data, id, base).push(item));
    }
}

/// The record that starts at `offset` in a datafile with the contents
/// `data`, if a whole one is there.
pub open spec fn read_in(data: Seq<u8>, offset: u64) -> Option<Record> {
    if offset <= data.len() {
        Record::decode(data.skip(offset as int))
    } else {
        None
    }
}

/// A datafile as a mathematical value.
pub struct DatafileView {
    /// Whether the file takes no more records.
    pub read_only: bool,
    /// The id of the file.
    pub id: u64,
    /// The contents of the file.
    pub data: Seq<u8>,
    /// The hint file that is written along with the file, if it is active.
    pub hint: Option<HintView>,
}

impl DatafileView {
    /// The empty active datafile `id` with its empty hint file.
    pub open spec fn empty(id: u64) -> DatafileView {
        DatafileView {
            read_only: false,
            id,
            data: Seq::empty(),
            hint: Some(
                HintView { data: Seq::empty(), cursor: 0, file_id: id, read_only: false },
            ),
        }
    }

    /// The hint file says of the datafile what the datafile says itself: both
    /// hold whole records only, and a scan of the hints yields one item for
    /// each record of the datafile, in the order of the records, with the
    /// record's key, size, timestamp and offset.
    pub open spec fn faithful(self) -> bool {
        &&& self.hint is Some
        &&& self.hint->0.file_id == self.id
        &&& !self.hint->0.read_only
        &&& is_log(self.data)
        &&& whole(self.hint->0.data)
        &&& scan(self.hint->0.data, self.id) == index_of(self.data, self.id, 0)
    }

    /// Whether an append of `record` succeeds: the file is active, the
    /// record is well formed, and the file with the record stays within what
    /// a 64-bit offset can address.
    pub open spec fn accepts(self, record: Record) -> bool {
        &&& !self.read_only
        &&& record.wf()
        &&& self.data.len() + record.encoded_len() <= u64::MAX
    }

    /// The error of an append of `record` that does not succeed.
    pub open spec fn refusal(self, record: Record) -> StoreError {
        if self.read_only {
            StoreError::ReadOnly
        } else if !record.wf() {
            StoreError::CorruptFile
        } else {
            StoreError::IoError
        }
    }

    /// The index entry that an append of `record` returns.
    pub open spec fn next_entry(self, record: Record) -> KeydirEntry {
        entry_at(self.id, self.data.len(), record)
    }

    /// The file after an append of `record`: the record's bytes stand at the
    /// end of the data, and its hint record at the end of the hints.
    pub open spec fn append(self, record: Record) -> DatafileView {
        DatafileView {
            data: self.data + record.encode(),
            hint: Some(
                HintView {
                    data: self.hint->0.data + self.next_entry(record).hint(record.key),
                    ..self.hint->0
                },
            ),
            ..self
        }
    }

    /// The record that starts at `offset`, if a whole one is there.
    pub open spec fn read(self, offset: u64) -> Option<Record> {
        read_in(self.data, offset)
    }

    /// Appending keeps the hint file faithful.
    pub proof fn lemma_append_faithful(self, record: Record)
        requires
            self.faithful(),
            record.wf(),
        ensures
            self.append(record).faithful(),
    {
        lemma_log_append(self.data, record, self.id, 0);
        lemma_scan_append(self.hint->0.data, self.next_entry(record), record.key);
    }

    /// Appends only add: a record that was appended can be read at the offset
    /// that its append returned, also after any number of further appends, and
    /// each append returns a greater offset than the one before.
    pub proof fn lemma_append_only(self, first: Record, second: Record)
        requires
            self.accepts(first),
            self.append(first).accepts(second),
        ensures
            self.next_entry(first).offset < self.append(first).next_entry(second).offset,
            self.append(first).data.subrange(
                self.next_entry(first).offset as int,
                self.next_entry(first).offset + first.encoded_len(),
            ) == first.encode(),
            self.append(first).append(second).data.subrange(
                self.next_entry(first).offset as int,
                self.next_entry(first).offset + first.encoded_len(),
            ) == first.encode(),
            self.append(first).read(self.next_entry(first).offset) == Some(first),
            self.append(first).append(second).read(self.next_entry(first).offset) == Some(first),
    {
        let at = self.data.len() as int;
        first.lemma_decode_encode(Seq::empty());
        first.lemma_decode_encode(second.encode());
        let one = self.append(first).data;
        let two = self.append(first).append(second).data;
        assert(one.subrange(at, at + first.encoded_len()) =~= first.encode());
        assert(two.subrange(at, at + first.encoded_len()) =~= first.encode());
        assert(one.skip(at) =~= first.encode() + Seq::<u8>::empty());
        assert(two.skip(at) =~= first.encode() + second.encode());
    }

    /// What was readable stays readable, and reads the same, after an append.
    pub proof fn lemma_append_keeps_reads(self, record: Record, offset: u64)
        requires
            self.read(offset) is Some,
        ensures
            self.append(record).read(offset) == self.read(offset),
    {
        Record::lemma_decode_prefix(self.data.skip(offset as int), record.encode());
        assert(self.append(record).data.skip(offset as int) =~= self.data.skip(offset as int)
            + record.encode());
    }
}

/// What an append writes, worked out before anything is written.
pub struct Staged {
    /// The index entry that the append returns.
    pub entry: KeydirEntry,
    /// The bytes that the append adds to the datafile.
    pub record: Vec<u8>,
    /// The bytes that the append adds to the hint file.
    pub hint: Vec<u8>,
}

/// One datafile, held in memory: the active one, which takes appends and
/// writes its hint file along, or a read-only one.
pub struct Datafile {
    read_only: bool,
    id: u64,
    data: Vec<u8>,
    hint_file: Option<HintFile>,
}

impl View for Datafile {
    type V = DatafileView;

    closed spec fn view(&self) -> DatafileView {
        DatafileView {
            read_only: self.read_only,
            id: self.id,
            data: self.data@,
            hint: match self.hint_file {
                Some(hint) => Some(hint@),
                None => None,
            },
        }
    }
}

impl Datafile {
    #[verifier::type_invariant]
    spec fn hints_kept(&self) -> bool {
        if self.read_only {
            self.hint_file is None
        } else {
            self@.faithful()
        }
    }

    /// An empty active datafile with the id `id`, and its empty hint file.
    pub fn new(id: u64) -> (file: Self)
        ensures
            file@ == DatafileView::empty(id),
            file@.faithful(),
    {
        let file = Self {
            read_only: false,
            id,
            data: Vec::new(),
            hint_file: Some(HintFile::new(id)),
        };
        assert(scan(Seq::<u8>::empty(), id) =~= index_of(Seq::<u8>::empty(), id, 0));
        file
    }

    /// The datafile `file_id` with the contents `data`, for reading only. It
    /// has no hint file.
    pub fn new_read_only(data: Vec<u8>, file_id: u64) -> (file: Self)
        ensures
            file@ == (DatafileView { read_only: true, id: file_id, data: data@, hint: None }),
    {
        Self { read_only: true, id: file_id, data, hint_file: None }
    }

    /// Why an append of `entry` would fail, if it would.
    fn refuses(&self, entry: &Entry) -> (res: Option<StoreError>)
        ensures
            match res {
                Some(e) => !self@.accepts(entry@) && e == self@.refusal(entry@),
                None => self@.accepts(entry@),
            },
    {
        if self.read_only {
            return Some(StoreError::ReadOnly);
        }
        if !entry.is_well_formed() {
            return Some(StoreError::CorruptFile);
        }
        let room: u64 = u64::MAX - self.data.len() as u64;
        if room < HEADER_LEN as u64 || entry.key_size as u64 + entry.value_size as u64 > room
            - HEADER_LEN as u64 {
            return Some(StoreError::IoError);
        }
        None
    }

    /// Appends `entry` and its hint record, and returns the offset of the
    /// record's first byte: the length of the file before.
    ///
    /// Fails with `ReadOnly` on a file that is not active, with `CorruptFile`
    /// where the sizes in the entry are not the lengths of its key and value,
    /// and with `IoError` where the file would outgrow what a 64-bit offset
    /// can address. A failed append changes nothing.
    pub fn write_entry(&mut self, entry: &Entry) -> (res: Result<u64, StoreError>)
        ensures
            match res {
                Ok(offset) => {
                    &&& old(self)@.accepts(entry@)
                    &&& offset == old(self)@.data.len()
                    &&& final(self)@ == old(self)@.append(entry@)
                    &&& final(self)@.faithful()
                },
                Err(e) => {
                    &&& !old(self)@.accepts(entry@)
                    &&& e == old(self)@.refusal(entry@)
                    &&& final(self)@ == old(self)@
                },
            },
    {
        proof {
            use_type_invariant(&*self);
        }
        match self.refuses(entry) {
            Some(e) => return Err(e),
            None => {},
        }
        let ghost before = self@;
        let mut taken = Datafile::new_read_only(Vec::new(), self.id);
        std::mem::swap(self, &mut taken);
        let Datafile { read_only, id, mut data, hint_file } = taken;
        let mut hint = hint_file.unwrap();
        let offset = data.len() as u64;
        let record = entry.encode();
        data.extend_from_slice(record.as_slice());
        assert(data@ =~= before.data + entry@.encode());
        let keydir_entry = KeydirEntry {
            file_id: id,
            timestamp: entry.timestamp,
            val_size: entry.value_size,
            offset,
        };
        // The hint file of an active datafile takes records: this cannot fail.
        let _ = hint.write_keydir_entry(&keydir_entry, entry.key.as_slice());
        proof {
            before.lemma_append_faithful(entry@);
        }
        *self = Datafile { read_only, id, data, hint_file: Some(hint) };
        Ok(offset)
    }

    /// Appends a record for `key` and `value`, stamped with the current time,
    /// and returns the index entry of the record.
    ///
    /// Fails as `write_entry` does; the record is not well formed where the
    /// key or the value is longer than 32 bits can say.
    pub fn write(&mut self, key: &[u8], value: Vec<u8>) -> (res: Result<KeydirEntry, StoreError>)
        ensures
            match res {
                Ok(entry) => {
                    let record = Record::fresh(entry.timestamp, key@, value@);
                    &&& old(self)@.accepts(record)
                    &&& entry == old(self)@.next_entry(record)
                    &&& final(self)@ == old(self)@.append(record)
                    &&& final(self)@.faithful()
                },
                Err(e) => {
                    &&& !old(self)@.accepts(Record::fresh(0, key@, value@))
                    &&& e == old(self)@.refusal(Record::fresh(0, key@, value@))
                    &&& final(self)@ == old(self)@
                },
            },
    {
        self.write_at(now(), key, value)
    }

    /// Appends a record for `key` and `value` with the given timestamp, and
    /// returns the index entry of the record.
    pub fn write_at(&mut self, timestamp: u64, key: &[u8], value: Vec<u8>) -> (res: Result<
        KeydirEntry,
        StoreError,
    >)
        ensures
            ({
                let record = Record::fresh(timestamp, key@, value@);
                match res {
                    Ok(entry) => {
                        &&& old(self)@.accepts(record)
                        &&& entry == old(self)@.next_entry(record)
                        &&& final(self)@ == old(self)@.append(record)
                        &&& final(self)@.faithful()
                    },
                    Err(e) => {
                        &&& !old(self)@.accepts(record)
                        &&& e == old(self)@.refusal(record)
                        &&& final(self)@ == old(self)@
                    },
                }
            }),
    {
        let entry = Entry::with_timestamp(timestamp, slice_to_vec(key), value);
        match self.write_entry(&entry) {
            Ok(offset) => Ok(
                KeydirEntry {
                    file_id: self.id,
                    timestamp: entry.timestamp,
                    val_size: entry.value_size,
                    offset,
                },
            ),
            Err(e) => Err(e),
        }
    }

    /// Works out what `write_at` with the same arguments would append to the
    /// datafile and to its hint file, and the entry that it would return, and
    /// changes nothing. It fails where `write_at` would, with the same error.
    pub fn stage(&self, timestamp: u64, key: &[u8], value: &[u8]) -> (res: Result<
        Staged,
        StoreError,
    >)
        ensures
            ({
                let record = Record::fresh(timestamp, key@, value@);
                match res {
                    Ok(staged) => {
                        &&& self@.accepts(record)
                        &&& staged.entry == self@.next_entry(record)
                        &&& self@.append(record).data == self@.data + staged.record@
                        &&& self@.append(record).hint->0.data == self@.hint->0.data + staged.hint@
                    },
                    Err(e) => !self@.accepts(record) && e == self@.refusal(record),
                }
            }),
    {
        let entry = Entry::with_timestamp(
            timestamp,
            slice_to_vec(key),
            slice_to_vec(value),
        );
        match self.refuses(&entry) {
            Some(e) => return Err(e),
            None => {},
        }
        let keydir_entry = KeydirEntry {
            file_id: self.id,
            timestamp: entry.timestamp,
            val_size: entry.value_size,
            offset: self.data.len() as u64,
        };
        let record = entry.encode();
        let hint = keydir_entry.encode(key);
        Ok(Staged { entry: keydir_entry, record, hint })
    }

    /// Reads the record that starts at `offset`.
    ///
    /// Fails with `IoError` where no whole record starts there.
    pub fn read_whole_entry_from_offset(&self, offset: u64) -> (res: Result<Entry, StoreError>)
        ensures
            match res {
                Ok(entry) => self@.read(offset) == Some(entry@),
                Err(e) => e == StoreError::IoError && self@.read(offset) is None,
            },
    {
        if offset > self.data.len() as u64 {
            return Err(StoreError::IoError);
        }
        let tail = slice_subrange(self.data.as_slice(), offset as usize, self.data.len());
        match Entry::decode(tail) {
            Ok(entry) => Ok(entry),
            Err(_) => Err(StoreError::IoError),
        }
    }

    /// The id of the file.
    pub fn id(&self) -> (id: u64)
        ensures
            id == self@.id,
    {
        self.id
    }

    /// Whether the file takes no appends. An active file's hints are
    /// faithful at any time.
    pub fn is_read_only(&self) -> (read_only: bool)
        ensures
            read_only == self@.read_only,
            !read_only ==> self@.faithful(),
            read_only ==> self@.hint is None,
    {
        proof {
            use_type_invariant(self);
        }
        self.read_only
    }

    /// The contents of the file.
    pub fn bytes(&self) -> (data: &Vec<u8>)
        ensures
            data@ == self@.data,
    {
        &self.data
    }

    /// The contents of the hint file, if the datafile is active.
    pub fn hint_bytes(&self) -> (hints: Option<&Vec<u8>>)
        ensures
            match hints {
                Some(data) => self@.hint is Some && data@ == self@.hint->0.data,
                None => self@.hint is None,
            },
    {
        match &self.hint_file {
            Some(hint) => Some(hint.bytes()),
            None => None,
        }
    }

    /// Gives up the file for its contents and, if it is active, those of its
    /// hint file.
    pub fn into_bytes(self) -> (res: (Vec<u8>, Option<Vec<u8>>))
        ensures
            ({
                let (data, hints) = res;
                &&& data@ == self@.data
                &&& match hints {
                    Some(hint) => self@.hint is Some && hint@ == self@.hint->0.data,
                    None => self@.hint is None,
                }
            }),
    {
        let Datafile { read_only, id, data, hint_file } = self;
        let hints = match hint_file {
            Some(hint) => Some(hint.into_bytes()),
            None => None,
        };
        (data, hints)
    }
}

} // verus!
