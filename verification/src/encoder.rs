//! Log records and their byte format.
//!
//! A record is laid out without padding, all integers big-endian:
//!
//! ```text
//! offset  size  field
//!   0      8    timestamp
//!   8      4    key_size
//!  12      4    value_size
//!  16      K    key
//!  16+K    V    value
//! ```

use crate::clock::now;
use crate::endian::{
    be_u32, be_u64, from_be_u32, from_be_u64, get_u32, get_u64, lemma_be_u32_of_from_be_u32,
    lemma_be_u64_of_from_be_u64, lemma_from_be_u32_of_be_u32, lemma_from_be_u32_prefix,
    lemma_from_be_u64_of_be_u64, lemma_from_be_u64_prefix,
    put_u32, put_u64,
};
use crate::error::StoreError;
use vstd::prelude::*;
use vstd::slice::{slice_subrange, slice_to_vec};

verus! {

/// The length of a record's header in bytes.
pub const HEADER_LEN: usize = 16;

/// One entry of a datafile.
pub struct Entry {
    pub timestamp: u64,
    pub key_size: u32,
    pub value_size: u32,
    pub key: Vec<u8>,
    pub value: Vec<u8>,
}

/// A record as a mathematical value.
pub struct Record {
    pub timestamp: u64,
    pub key_size: u32,
    pub value_size: u32,
    pub key: Seq<u8>,
    pub value: Seq<u8>,
}

impl View for Entry {
    type V = Record;

    open spec fn view(&self) -> Record {
        Record {
            timestamp: self.timestamp,
            key_size: self.key_size,
            value_size: self.value_size,
            key: self.key@,
            value: self.value@,
        }
    }
}

impl Record {
    /// The record written for `key` and `value` at time `timestamp`. The size
    /// fields hold the lengths as far as 32 bits can.
    pub open spec fn fresh(timestamp: u64, key: Seq<u8>, value: Seq<u8>) -> Record {
        Record {
            timestamp,
            key_size: key.len() as u32,
            value_size: value.len() as u32,
            key,
            value,
        }
    }

    /// The size fields agree with the payloads.
    pub open spec fn wf(self) -> bool {
        &&& self.key_size == self.key.len()
        &&& self.value_size == self.value.len()
    }

    /// The bytes that stand for the record in a datafile.
    pub open spec fn encode(self) -> Seq<u8> {
        be_u64(self.timestamp) + be_u32(self.key_size) + be_u32(self.value_size) + self.key
            + self.value
    }

    /// The number of bytes that a well-formed record takes in a datafile.
    pub open spec fn encoded_len(self) -> nat {
        (HEADER_LEN + self.key_size + self.value_size) as nat
    }

    /// The record at the front of `bytes`, if a whole one is there.
    pub open spec fn decode(bytes: Seq<u8>) -> Option<Record> {
        if bytes.len() < HEADER_LEN {
            None
        } else {
            let key_size = from_be_u32(bytes.skip(8));
            let value_size = from_be_u32(bytes.skip(12));
            if bytes.len() < HEADER_LEN + key_size + value_size {
                None
            } else {
                Some(
                    Record {
                        timestamp: from_be_u64(bytes),
                        key_size,
                        value_size,
                        key: bytes.subrange(HEADER_LEN as int, HEADER_LEN + key_size),
                        value: bytes.subrange(
                            HEADER_LEN + key_size,
                            HEADER_LEN + key_size + value_size,
                        ),
                    },
                )
            }
        }
    }

    /// A record can be read back from its encoding, whatever bytes follow it,
    /// and the encoding is as long as the header says.
    pub proof fn lemma_decode_encode(self, rest: Seq<u8>)
        requires
            self.wf(),
        ensures
            self.encode().len() == self.encoded_len(),
            Record::decode(self.encode() + rest) == Some(self),
    {
        let bytes = self.encode() + rest;
        let after_ts = be_u32(self.key_size) + be_u32(self.value_size) + self.key + self.value
            + rest;
        let after_ks = be_u32(self.value_size) + self.key + self.value + rest;
        let after_vs = self.key + self.value + rest;
        lemma_from_be_u64_of_be_u64(self.timestamp, after_ts);
        lemma_from_be_u32_of_be_u32(self.key_size, after_ks);
        lemma_from_be_u32_of_be_u32(self.value_size, after_vs);
        assert(bytes =~= be_u64(self.timestamp) + after_ts);
        assert(bytes.skip(8) =~= be_u32(self.key_size) + after_ks);
        assert(bytes.skip(12) =~= be_u32(self.value_size) + after_vs);
        let decoded = Record::decode(bytes)->0;
        assert(decoded.key =~= self.key);
        assert(decoded.value =~= self.value);
    }

    /// Decoding reads the record's own bytes and no others: what follows them
    /// does not change the result.
    pub proof fn lemma_decode_prefix(bytes: Seq<u8>, more: Seq<u8>)
        requires
            Record::decode(bytes) is Some,
        ensures
            Record::decode(bytes + more) == Record::decode(bytes),
            Record::decode(bytes)->0.wf(),
            Record::decode(bytes)->0.encoded_len() <= bytes.len(),
    {
        let longer = bytes + more;
        assert(longer.take(8) =~= bytes.take(8));
        assert(longer.skip(8).take(4) =~= bytes.skip(8).take(4));
        assert(longer.skip(12).take(4) =~= bytes.skip(12).take(4));
        lemma_from_be_u64_prefix(longer, bytes);
        lemma_from_be_u32_prefix(longer.skip(8), bytes.skip(8));
        lemma_from_be_u32_prefix(longer.skip(12), bytes.skip(12));
        let a = Record::decode(bytes)->0;
        let b = Record::decode(longer)->0;
        assert(a.key =~= b.key);
        assert(a.value =~= b.value);
    }

    /// A decoded record encodes to the bytes it was read from.
    pub proof fn lemma_encode_decode(bytes: Seq<u8>)
        requires
            Record::decode(bytes) is Some,
        ensures
            Record::decode(bytes)->0.encode() == bytes.take(
                Record::decode(bytes)->0.encoded_len() as int,
            ),
    {
        let r = Record::decode(bytes)->0;
        lemma_be_u64_of_from_be_u64(bytes.take(8));
        lemma_be_u32_of_from_be_u32(bytes.subrange(8, 12));
        lemma_be_u32_of_from_be_u32(bytes.subrange(12, 16));
        assert(bytes.take(8).take(8) =~= bytes.take(8));
        assert(bytes.subrange(8, 12).take(4) =~= bytes.skip(8).take(4));
        assert(bytes.subrange(12, 16).take(4) =~= bytes.skip(12).take(4));
        lemma_from_be_u64_prefix(bytes.take(8), bytes);
        lemma_from_be_u32_prefix(bytes.subrange(8, 12), bytes.skip(8));
        lemma_from_be_u32_prefix(bytes.subrange(12, 16), bytes.skip(12));
        assert(r.encode() =~= bytes.take(r.encoded_len() as int));
    }
}

impl Entry {
    /// A record for `key` and `value`, stamped with the current time.
    ///
    /// The size fields are 32 bits wide and hold the lengths modulo 2^32: the
    /// record of a longer key or value is not well formed, and no datafile
    /// accepts it.
    pub fn new(key: Vec<u8>, value: Vec<u8>) -> (entry: Self)
        ensures
            entry@ == Record::fresh(entry.timestamp, key@, value@),
    {
        Self::with_timestamp(now(), key, value)
    }

    /// A record for `key` and `value` with the given timestamp.
    pub fn with_timestamp(timestamp: u64, key: Vec<u8>, value: Vec<u8>) -> (entry: Self)
        ensures
            entry@ == Record::fresh(timestamp, key@, value@),
            key@.len() <= u32::MAX && value@.len() <= u32::MAX ==> entry@.wf(),
    {
        Self {
            timestamp,
            key_size: #[verifier::truncate]
            (key.len() as u32),
            value_size: #[verifier::truncate]
            (value.len() as u32),
            key,
            value,
        }
    }

    /// Whether the size fields agree with the payloads.
    pub fn is_well_formed(&self) -> (ok: bool)
        ensures
            ok == self@.wf(),
    {
        self.key.len() as u64 == self.key_size as u64 && self.value.len() as u64
            == self.value_size as u64
    }

    /// The bytes that stand for this record in a datafile.
    pub fn encode(&self) -> (bytes: Vec<u8>)
        ensures
            bytes@ == self@.encode(),
            self@.wf() ==> bytes@.len() == HEADER_LEN + self.key_size + self.value_size,
    {
        let mut buffer: Vec<u8> = Vec::new();
        put_u64(&mut buffer, self.timestamp);
        put_u32(&mut buffer, self.key_size);
        put_u32(&mut buffer, self.value_size);
        buffer.extend_from_slice(self.key.as_slice());
        assert(buffer@ =~= be_u64(self.timestamp) + be_u32(self.key_size) + be_u32(
            self.value_size,
        ) + self.key@);
        buffer.extend_from_slice(self.value.as_slice());
        assert(buffer@ =~= self@.encode());
        buffer
    }

    /// Reads the record at the front of `bytes`.
    ///
    /// Fails with `ShortRead` where `bytes` end before the header, or before
    /// the key and value that the header announces.
    pub fn decode(bytes: &[u8]) -> (res: Result<Self, StoreError>)
        ensures
            match res {
                Ok(entry) => Record::decode(bytes@) == Some(entry@),
                Err(e) => e == StoreError::ShortRead && Record::decode(bytes@) is None,
            },
    {
        if bytes.len() < HEADER_LEN {
            return Err(StoreError::ShortRead);
        }
        assert(bytes@.skip(0) =~= bytes@);
        let timestamp = get_u64(bytes, 0);
        let key_size = get_u32(bytes, 8);
        let value_size = get_u32(bytes, 12);
        let needed: u64 = HEADER_LEN as u64 + key_size as u64 + value_size as u64;
        if (bytes.len() as u64) < needed {
            return Err(StoreError::ShortRead);
        }
        let key_end: usize = HEADER_LEN + key_size as usize;
        let value_end: usize = key_end + value_size as usize;
        let key = slice_to_vec(slice_subrange(bytes, HEADER_LEN, key_end));
        let value = slice_to_vec(slice_subrange(bytes, key_end, value_end));
        Ok(Self { timestamp, key_size, value_size, key, value })
    }
}

} // verus!
