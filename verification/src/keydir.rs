//! The in-memory index ("keydir") and the hint records that rebuild it.
//!
//! A hint record stands for one record of the datafile with the same id. It is
//! laid out without padding, all integers big-endian:
//!
//! ```text
//! offset  size  field
//!   0      8    timestamp
//!   8      8    key_size
//!  16      4    value_size
//!  20      8    offset of the record in the datafile
//!  28      K    key
//! ```

use crate::endian::{
    be_u32, be_u64, from_be_u32, from_be_u64, get_u32, get_u64, lemma_from_be_u32_of_be_u32,
    lemma_from_be_u32_prefix, lemma_from_be_u64_of_be_u64, lemma_from_be_u64_prefix, put_u32,
    put_u64,
};
use crate::error::StoreError;
use vstd::prelude::*;
use vstd::slice::{slice_subrange, slice_to_vec};

verus! {

/// The length of a hint record's header in bytes.
pub const HINT_HEADER_LEN: usize = 28;

/// Where the latest record of a key lies.
#[derive(Clone, Copy, Debug, PartialEq, Eq, Structural)]
pub struct KeydirEntry {
    pub file_id: u64,
    pub val_size: u32,
    pub offset: u64,
    pub timestamp: u64,
}

/// What one hint record says: a key and where its record lies.
pub struct HintItem {
    pub entry: KeydirEntry,
    pub key: Seq<u8>,
}

impl KeydirEntry {
    /// The hint record for this entry under `key`. The file id is not part of
    /// it: it is the id of the hint file that holds the record.
    pub open spec fn hint(self, key: Seq<u8>) -> Seq<u8> {
        be_u64(self.timestamp) + be_u64(key.len() as u64) + be_u32(self.val_size) + be_u64(
            self.offset,
        ) + key
    }

    /// The number of bytes that the hint record for `key` takes.
    pub open spec fn hint_len(key: Seq<u8>) -> nat {
        HINT_HEADER_LEN as nat + key.len()
    }

    /// The entry and key at the front of `bytes`, read as a hint record of
    /// file `file_id`, if a whole one is there.
    pub open spec fn from_hint(bytes: Seq<u8>, file_id: u64) -> Option<HintItem> {
        if bytes.len() < HINT_HEADER_LEN {
            None
        } else {
            let key_size = from_be_u64(bytes.skip(8));
            if bytes.len() < HINT_HEADER_LEN + key_size {
                None
            } else {
                Some(
                    HintItem {
                        entry: KeydirEntry {
                            file_id,
                            val_size: from_be_u32(bytes.skip(16)),
                            offset: from_be_u64(bytes.skip(20)),
                            timestamp: from_be_u64(bytes),
                        },
                        key: bytes.subrange(HINT_HEADER_LEN as int, HINT_HEADER_LEN + key_size),
                    },
                )
            }
        }
    }

    /// Whether this entry wins over `other` for the same key: the greater
    /// timestamp wins, then the greater file id, then the greater offset.
    pub open spec fn is_newer_than(self, other: KeydirEntry) -> bool {
        ||| self.timestamp > other.timestamp
        ||| self.timestamp == other.timestamp && self.file_id > other.file_id
        ||| self.timestamp == other.timestamp && self.file_id == other.file_id && self.offset
            > other.offset
    }

    /// A hint record can be read back, whatever bytes follow it, and gives the
    /// entry and the key again.
    pub proof fn lemma_from_hint_of_hint(self, key: Seq<u8>, rest: Seq<u8>)
        requires
            key.len() <= u64::MAX,
        ensures
            self.hint(key).len() == KeydirEntry::hint_len(key),
            KeydirEntry::from_hint(self.hint(key) + rest, self.file_id) == Some(
                HintItem { entry: self, key },
            ),
    {
        let bytes = self.hint(key) + rest;
        let after_ts = be_u64(key.len() as u64) + be_u32(self.val_size) + be_u64(self.offset) + key
            + rest;
        let after_ks = be_u32(self.val_size) + be_u64(self.offset) + key + rest;
        let after_vs = be_u64(self.offset) + key + rest;
        let after_off = key + rest;
        lemma_from_be_u64_of_be_u64(self.timestamp, after_ts);
        lemma_from_be_u64_of_be_u64(key.len() as u64, after_ks);
        lemma_from_be_u32_of_be_u32(self.val_size, after_vs);
        lemma_from_be_u64_of_be_u64(self.offset, after_off);
        assert(bytes =~= be_u64(self.timestamp) + after_ts);
        assert(bytes.skip(8) =~= be_u64(key.len() as u64) + after_ks);
        assert(bytes.skip(16) =~= be_u32(self.val_size) + after_vs);
        assert(bytes.skip(20) =~= be_u64(self.offset) + after_off);
        let decoded = KeydirEntry::from_hint(bytes, self.file_id)->0;
        assert(decoded.key =~= key);
    }

    /// Reading a hint record touches the record's own bytes and no others.
    pub proof fn lemma_from_hint_prefix(bytes: Seq<u8>, more: Seq<u8>, file_id: u64)
        requires
            KeydirEntry::from_hint(bytes, file_id) is Some,
        ensures
            KeydirEntry::from_hint(bytes + more, file_id) == KeydirEntry::from_hint(
                bytes,
                file_id,
            ),
            KeydirEntry::hint_len(KeydirEntry::from_hint(bytes, file_id)->0.key) <= bytes.len(),
    {
        let longer = bytes + more;
        assert(longer.take(8) =~= bytes.take(8));
        assert(longer.skip(8).take(8) =~= bytes.skip(8).take(8));
        assert(longer.skip(16).take(4) =~= bytes.skip(16).take(4));
        assert(longer.skip(20).take(8) =~= bytes.skip(20).take(8));
        lemma_from_be_u64_prefix(longer, bytes);
        lemma_from_be_u64_prefix(longer.skip(8), bytes.skip(8));
        lemma_from_be_u32_prefix(longer.skip(16), bytes.skip(16));
        lemma_from_be_u64_prefix(longer.skip(20), bytes.skip(20));
        let a = KeydirEntry::from_hint(bytes, file_id)->0;
        let b = KeydirEntry::from_hint(longer, file_id)->0;
        assert(a.key =~= b.key);
    }

    /// The hint record for this entry under `key`.
    pub fn encode(&self, key: &[u8]) -> (bytes: Vec<u8>)
        ensures
            bytes@ == self.hint(key@),
            bytes@.len() == HINT_HEADER_LEN + key@.len(),
    {
        let mut buffer: Vec<u8> = Vec::new();
        put_u64(&mut buffer, self.timestamp);
        put_u64(&mut buffer, key.len() as u64);
        put_u32(&mut buffer, self.val_size);
        put_u64(&mut buffer, self.offset);
        buffer.extend_from_slice(key);
        assert(buffer@ =~= self.hint(key@));
        buffer
    }

    /// Reads the hint record at the front of `bytes` as one of file `file_id`,
    /// and gives the entry and the key.
    ///
    /// Fails with `ShortRead` where `bytes` end before the header, or before
    /// the key that the header announces.
    pub fn decode(bytes: &[u8], file_id: u64) -> (res: Result<(Self, Vec<u8>), StoreError>)
        ensures
            match res {
                Ok((entry, key)) => KeydirEntry::from_hint(bytes@, file_id) == Some(
                    HintItem { entry, key: key@ },
                ),
                Err(e) => e == StoreError::ShortRead && KeydirEntry::from_hint(bytes@, file_id)
                    is None,
            },
    {
        if bytes.len() < HINT_HEADER_LEN {
            return Err(StoreError::ShortRead);
        }
        assert(bytes@.skip(0) =~= bytes@);
        let timestamp = get_u64(bytes, 0);
        let key_size = get_u64(bytes, 8);
        let val_size = get_u32(bytes, 16);
        let offset = get_u64(bytes, 20);
        if key_size > (bytes.len() - HINT_HEADER_LEN) as u64 {
            return Err(StoreError::ShortRead);
        }
        let key_end: usize = HINT_HEADER_LEN + key_size as usize;
        let key = slice_to_vec(slice_subrange(bytes, HINT_HEADER_LEN, key_end));
        Ok((Self { file_id, val_size, offset, timestamp }, key))
    }

    /// Whether this entry wins over `other` for the same key.
    pub fn newer_than(&self, other: &KeydirEntry) -> (newer: bool)
        ensures
            newer == self.is_newer_than(*other),
    {
        if self.timestamp != other.timestamp {
            self.timestamp > other.timestamp
        } else if self.file_id != other.file_id {
            self.file_id > other.file_id
        } else {
            self.offset > other.offset
        }
    }
}

/// `a` comes before `b` in the order of the index, and index `i` shows it:
/// the two agree before `i`, and there `a` ends or holds the smaller byte.
pub open spec fn below_at(a: Seq<u8>, b: Seq<u8>, i: int) -> bool {
    &&& 0 <= i <= a.len()
    &&& i < b.len()
    &&& forall|j: int| 0 <= j < i ==> a[j] == b[j]
    &&& (i == a.len() || a[i] < b[i])
}

/// The order of the index: byte strings compared byte by byte, a proper
/// prefix before its extensions.
pub open spec fn below(a: Seq<u8>, b: Seq<u8>) -> bool {
    exists|i: int| below_at(a, b, i)
}

/// Nothing is below itself, so what is below a key differs from it.
pub proof fn lemma_below_differs(a: Seq<u8>, b: Seq<u8>)
    requires
        below(a, b),
    ensures
        a != b,
{
    let i = choose|i: int| below_at(a, b, i);
    assert(below_at(a, b, i));
}

/// The order of the index is transitive.
pub proof fn lemma_below_transitive(a: Seq<u8>, b: Seq<u8>, c: Seq<u8>)
    requires
        below(a, b),
        below(b, c),
    ensures
        below(a, c),
{
    let i = choose|i: int| below_at(a, b, i);
    let j = choose|j: int| below_at(b, c, j);
    assert(below_at(a, b, i));
    assert(below_at(b, c, j));
    if i <= j {
        assert(below_at(a, c, i));
    } else {
        assert(below_at(a, c, j));
    }
}

/// How two keys stand to each other in the order of the index.
#[derive(Clone, Copy, Debug, PartialEq, Eq, Structural)]
pub enum KeyOrder {
    Before,
    Same,
    After,
}

/// Places `a` against `b` in the order of the index.
pub fn key_order(a: &[u8], b: &[u8]) -> (order: KeyOrder)
    ensures
        match order {
            KeyOrder::Before => below(a@, b@),
            KeyOrder::Same => a@ == b@,
            KeyOrder::After => below(b@, a@),
        },
{
    let mut i: usize = 0;
    while i < a.len() && i < b.len()
        invariant
            i <= a@.len(),
            i <= b@.len(),
            forall|j: int| 0 <= j < i ==> a@[j] == b@[j],
        decreases a@.len() - i,
    {
        if a[i] < b[i] {
            assert(below_at(a@, b@, i as int));
            return KeyOrder::Before;
        }
        if a[i] > b[i] {
            assert(below_at(b@, a@, i as int));
            return KeyOrder::After;
        }
        i += 1;
    }
    if i < b.len() {
        assert(below_at(a@, b@, i as int));
        KeyOrder::Before
    } else if i < a.len() {
        assert(below_at(b@, a@, i as int));
        KeyOrder::After
    } else {
        assert(a@ =~= b@);
        KeyOrder::Same
    }
}

/// One key of the index with its entry.
struct Slot {
    key: Vec<u8>,
    entry: KeydirEntry,
}

/// The outcome of a search: whether the key is there, and the place where it
/// stands or would have to stand.
struct Found {
    hit: bool,
    at: usize,
}

/// The keys stand in strictly rising order, so that none occurs twice.
spec fn rising(slots: Seq<Slot>) -> bool {
    forall|i: int, j: int| 0 <= i < j < slots.len() ==> below(#[trigger] slots[i].key@, #[trigger] slots[j].key@)
}

/// Some slot holds `key`.
spec fn holds(slots: Seq<Slot>, key: Seq<u8>) -> bool {
    exists|i: int| 0 <= i < slots.len() && #[trigger] slots[i].key@ == key
}

/// The place of a slot that holds `key`.
spec fn place(slots: Seq<Slot>, key: Seq<u8>) -> int {
    choose|i: int| 0 <= i < slots.len() && #[trigger] slots[i].key@ == key
}

/// The mapping that a sequence of slots stands for.
spec fn mapping(slots: Seq<Slot>) -> Map<Seq<u8>, KeydirEntry> {
    Map::new(|key: Seq<u8>| holds(slots, key), |key: Seq<u8>| slots[place(slots, key)].entry)
}

/// In rising slots a key has one place only.
proof fn lemma_place(slots: Seq<Slot>, i: int)
    requires
        rising(slots),
        0 <= i < slots.len(),
    ensures
        holds(slots, slots[i].key@),
        place(slots, slots[i].key@) == i,
        mapping(slots).contains_key(slots[i].key@),
        mapping(slots)[slots[i].key@] == slots[i].entry,
{
    let key = slots[i].key@;
    let j = place(slots, key);
    assert(0 <= j < slots.len() && slots[j].key@ == key);
    if j < i {
        lemma_below_differs(slots[j].key@, slots[i].key@);
    } else if i < j {
        lemma_below_differs(slots[i].key@, slots[j].key@);
    }
}

/// The index: for every live key the place of its latest record.
///
/// The keys are kept in rising order, so a lookup halves the range it
/// searches at every step.
pub struct Keydir {
    entries: Vec<Slot>,
}

impl View for Keydir {
    type V = Map<Seq<u8>, KeydirEntry>;

    closed spec fn view(&self) -> Map<Seq<u8>, KeydirEntry> {
        mapping(self.entries@)
    }
}

impl Keydir {
    #[verifier::type_invariant]
    spec fn rising_keys(&self) -> bool {
        rising(self.entries@)
    }

    /// What the index holds after `entry` was offered for `key` during
    /// recovery: the entry replaces the one that is there only if it is
    /// newer.
    pub open spec fn merged(
        index: Map<Seq<u8>, KeydirEntry>,
        key: Seq<u8>,
        entry: KeydirEntry,
    ) -> Map<Seq<u8>, KeydirEntry> {
        if index.contains_key(key) && !entry.is_newer_than(index[key]) {
            index
        } else {
            index.insert(key, entry)
        }
    }

    /// An empty index.
    pub fn new() -> (keydir: Self)
        ensures
            keydir@ == Map::<Seq<u8>, KeydirEntry>::empty(),
    {
        let keydir = Self { entries: Vec::new() };
        assert(keydir@ =~= Map::<Seq<u8>, KeydirEntry>::empty());
        keydir
    }

    /// The number of keys in the index.
    pub fn len(&self) -> (n: usize)
        ensures
            self@.dom().finite(),
            n == self@.dom().len(),
    {
        proof {
            use_type_invariant(self);
            let slots = self.entries@;
            let keys = slots.map_values(|slot: Slot| slot.key@);
            assert forall|i: int, j: int| 0 <= i < keys.len() && 0 <= j < keys.len() && i
                != j implies keys[i] != keys[j] by {
                if i < j {
                    lemma_below_differs(slots[i].key@, slots[j].key@);
                } else {
                    lemma_below_differs(slots[j].key@, slots[i].key@);
                }
            }
            keys.unique_seq_to_set();
            assert forall|key: Seq<u8>| keys.to_set().contains(key) == self@.dom().contains(
                key,
            ) by {
                if keys.to_set().contains(key) {
                    let i = choose|i: int| 0 <= i < keys.len() && keys[i] == key;
                    assert(slots[i].key@ == key);
                }
                if holds(slots, key) {
                    let i = place(slots, key);
                    assert(keys[i] == key);
                }
            }
            assert(keys.to_set() =~= self@.dom());
        }
        self.entries.len()
    }

    /// Whether the index holds no key.
    pub fn is_empty(&self) -> (empty: bool)
        ensures
            empty == (self@.dom().len() == 0),
            self@.dom().finite(),
    {
        self.len() == 0
    }

    /// Finds `key`: whether it is there, and the place where it stands or
    /// would have to stand.
    fn search(&self, key: &[u8]) -> (res: Found)
        ensures
            res.at <= self.entries@.len(),
            res.hit ==> res.at < self.entries@.len() && self.entries@[res.at as int].key@ == key@,
            res.hit == self@.contains_key(key@),
            forall|i: int| 0 <= i < res.at ==> below(#[trigger] self.entries@[i].key@, key@),
            forall|i: int|
                res.at + (if res.hit { 1int } else { 0int }) <= i < self.entries@.len() ==> below(
                    key@,
                    #[trigger] self.entries@[i].key@,
                ),
    {
        proof {
            use_type_invariant(self);
        }
        let mut lo: usize = 0;
        let mut hi: usize = self.entries.len();
        while lo < hi
            invariant
                lo <= hi <= self.entries@.len(),
                rising(self.entries@),
                forall|i: int| 0 <= i < lo ==> below(#[trigger] self.entries@[i].key@, key@),
                forall|i: int|
                    hi <= i < self.entries@.len() ==> below(
                        key@,
                        #[trigger] self.entries@[i].key@,
                    ),
            decreases hi - lo,
        {
            let mid = lo + (hi - lo) / 2;
            match key_order(self.entries[mid].key.as_slice(), key) {
                KeyOrder::Same => {
                    proof {
                        lemma_place(self.entries@, mid as int);
                        assert forall|i: int| 0 <= i < mid implies below(
                            #[trigger] self.entries@[i].key@,
                            key@,
                        ) by {}
                        assert forall|i: int| mid + 1 <= i < self.entries@.len() implies below(
                            key@,
                            #[trigger] self.entries@[i].key@,
                        ) by {}
                    }
                    return Found { hit: true, at: mid };
                },
                KeyOrder::Before => {
                    proof {
                        assert forall|i: int| 0 <= i < mid + 1 implies below(
                            #[trigger] self.entries@[i].key@,
                            key@,
                        ) by {
                            if i < mid {
                                lemma_below_transitive(
                                    self.entries@[i].key@,
                                    self.entries@[mid as int].key@,
                                    key@,
                                );
                            }
                        }
                    }
                    lo = mid + 1;
                },
                KeyOrder::After => {
                    proof {
                        assert forall|i: int| mid <= i < self.entries@.len() implies below(
                            key@,
                            #[trigger] self.entries@[i].key@,
                        ) by {
                            if mid < i {
                                lemma_below_transitive(
                                    key@,
                                    self.entries@[mid as int].key@,
                                    self.entries@[i].key@,
                                );
                            }
                        }
                    }
                    hi = mid;
                },
            }
        }
        proof {
            if holds(self.entries@, key@) {
                let i = place(self.entries@, key@);
                if i < lo {
                    lemma_below_differs(self.entries@[i].key@, key@);
                } else {
                    lemma_below_differs(key@, self.entries@[i].key@);
                }
            }
        }
        Found { hit: false, at: lo }
    }

    /// Puts `entry` under `key`, in place of what was there.
    pub fn add_entry(&mut self, key: &[u8], entry: KeydirEntry)
        ensures
            final(self)@ == old(self)@.insert(key@, entry),
    {
        proof {
            use_type_invariant(&*self);
        }
        let Found { hit: found, at } = self.search(key);
        let slot = Slot { key: slice_to_vec(key), entry };
        let ghost before = self.entries@;
        let mut entries: Vec<Slot> = Vec::new();
        std::mem::swap(&mut self.entries, &mut entries);
        if found {
            entries.set(at, slot);
            proof {
                let after = entries@;
                assert forall|i: int| 0 <= i < after.len() implies #[trigger] after[i].key@
                    == before[i].key@ by {}
                assert(rising(after));
                assert forall|k: Seq<u8>| holds(after, k) == holds(before, k) by {
                    if holds(before, k) {
                        let i = place(before, k);
                        assert(after[i].key@ == k);
                    }
                    if holds(after, k) {
                        let i = place(after, k);
                        assert(before[i].key@ == k);
                    }
                }
                assert forall|k: Seq<u8>| holds(after, k) implies #[trigger] mapping(after)[k]
                    == mapping(before).insert(key@, entry)[k] by {
                    let i = place(after, k);
                    lemma_place(after, i);
                    lemma_place(before, i);
                }
                assert(mapping(after) =~= mapping(before).insert(key@, entry));
            }
        } else {
            entries.insert(at, slot);
            proof {
                let after = entries@;
                assert forall|i: int, j: int| 0 <= i < j < after.len() implies below(
                    #[trigger] after[i].key@,
                    #[trigger] after[j].key@,
                ) by {
                    let oi = if i < at { i } else { i - 1 };
                    let oj = if j < at { j } else { j - 1 };
                    if i != at && j != at {
                        assert(below(before[oi].key@, before[oj].key@));
                    } else if i == at {
                        assert(below(key@, before[oj].key@));
                    } else {
                        assert(below(before[oi].key@, key@));
                    }
                }
                assert(after[at as int].key@ == key@);
                assert forall|k: Seq<u8>| holds(after, k) == (k == key@ || holds(before, k)) by {
                    if holds(before, k) {
                        let i = place(before, k);
                        let ni = if i < at { i } else { i + 1 };
                        assert(after[ni].key@ == k);
                    }
                    if holds(after, k) && k != key@ {
                        let i = place(after, k);
                        let oi = if i < at { i } else { i - 1 };
                        assert(before[oi].key@ == k);
                    }
                }
                assert forall|k: Seq<u8>| holds(after, k) implies #[trigger] mapping(after)[k]
                    == mapping(before).insert(key@, entry)[k] by {
                    let i = place(after, k);
                    lemma_place(after, i);
                    if i != at {
                        let oi = if i < at { i } else { i - 1 };
                        lemma_place(before, oi);
                    }
                }
                assert(mapping(after) =~= mapping(before).insert(key@, entry));
            }
        }
        self.entries = entries;
    }

    /// Puts an entry made of the given fields under `key`, in place of what
    /// was there. It always succeeds.
    pub fn add(&mut self, key: &[u8], vsize: u32, file_id: u64, offset: u64, ts: u64) -> (res:
        Result<(), StoreError>)
        ensures
            res is Ok,
            final(self)@ == old(self)@.insert(
                key@,
                KeydirEntry { file_id, val_size: vsize, offset, timestamp: ts },
            ),
    {
        self.add_entry(key, KeydirEntry { file_id, offset, timestamp: ts, val_size: vsize });
        Ok(())
    }

    /// Offers `entry` for `key` as recovery does: it is put under `key`
    /// unless the entry that is there is as new or newer.
    pub fn add_if_newer(&mut self, key: &[u8], entry: KeydirEntry)
        ensures
            final(self)@ == Keydir::merged(old(self)@, key@, entry),
    {
        let keep = match self.get(key) {
            Ok(present) => !entry.newer_than(&present),
            Err(_) => false,
        };
        if !keep {
            self.add_entry(key, entry);
        }
    }

    /// The entry of `key`, or `NotFound`.
    pub fn get(&self, key: &[u8]) -> (res: Result<KeydirEntry, StoreError>)
        ensures
            match res {
                Ok(entry) => self@.contains_key(key@) && self@[key@] == entry,
                Err(e) => e == StoreError::NotFound && !self@.contains_key(key@),
            },
    {
        proof {
            use_type_invariant(self);
        }
        let Found { hit: found, at } = self.search(key);
        if found {
            proof {
                lemma_place(self.entries@, at as int);
            }
            Ok(self.entries[at].entry)
        } else {
            Err(StoreError::NotFound)
        }
    }

    /// Takes `key` out of the index, or fails with `NotFound` and leaves the
    /// index as it was.
    pub fn remove(&mut self, key: &[u8]) -> (res: Result<(), StoreError>)
        ensures
            match res {
                Ok(()) => old(self)@.contains_key(key@) && final(self)@ == old(self)@.remove(key@),
                Err(e) => e == StoreError::NotFound && !old(self)@.contains_key(key@)
                    && final(self)@ == old(self)@,
            },
    {
        proof {
            use_type_invariant(&*self);
        }
        let Found { hit: found, at } = self.search(key);
        if !found {
            return Err(StoreError::NotFound);
        }
        let ghost before = self.entries@;
        let mut entries: Vec<Slot> = Vec::new();
        std::mem::swap(&mut self.entries, &mut entries);
        entries.remove(at);
        proof {
            let after = entries@;
            assert forall|i: int, j: int| 0 <= i < j < after.len() implies below(
                #[trigger] after[i].key@,
                #[trigger] after[j].key@,
            ) by {
                let oi = if i < at { i } else { i + 1 };
                let oj = if j < at { j } else { j + 1 };
                assert(below(before[oi].key@, before[oj].key@));
            }
            lemma_place(before, at as int);
            assert forall|k: Seq<u8>| holds(after, k) == (k != key@ && holds(before, k)) by {
                if holds(before, k) && k != key@ {
                    let i = place(before, k);
                    let ni = if i < at { i } else { i - 1 };
                    assert(after[ni].key@ == k);
                }
                if holds(after, k) {
                    let i = place(after, k);
                    let oi = if i < at { i } else { i + 1 };
                    assert(before[oi].key@ == k);
                    lemma_place(before, oi);
                }
            }
            assert forall|k: Seq<u8>| holds(after, k) implies #[trigger] mapping(after)[k]
                == mapping(before).remove(key@)[k] by {
                let i = place(after, k);
                lemma_place(after, i);
                let oi = if i < at { i } else { i + 1 };
                lemma_place(before, oi);
            }
            assert(mapping(after) =~= mapping(before).remove(key@));
        }
        self.entries = entries;
        Ok(())
    }
}

} // verus!
