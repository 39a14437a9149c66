use bitcask::encoder::{Entry, HEADER_LEN};
use bitcask::error::StoreError;

fn record(timestamp: u64, key: &str, value: &str) -> Entry {
    Entry::with_timestamp(timestamp, key.as_bytes().to_vec(), value.as_bytes().to_vec())
}

#[test]
fn encode_gives_the_documented_bytes() {
    let entry = record(1, "k", "v");
    let bytes = entry.encode();
    assert_eq!(bytes.len(), 18);
    assert_eq!(
        bytes,
        vec![0, 0, 0, 0, 0, 0, 0, 1, 0, 0, 0, 1, 0, 0, 0, 1, 0x6B, 0x76]
    );
}

#[test]
fn encode_is_big_endian_in_every_field() {
    let entry = Entry::with_timestamp(0x0102030405060708, vec![0xAA; 258], vec![0xBB; 3]);
    let bytes = entry.encode();
    assert_eq!(&bytes[0..8], &[1, 2, 3, 4, 5, 6, 7, 8]);
    assert_eq!(&bytes[8..12], &[0, 0, 1, 2]);
    assert_eq!(&bytes[12..16], &[0, 0, 0, 3]);
    assert_eq!(bytes.len(), HEADER_LEN + 258 + 3);
    assert_eq!(bytes[16], 0xAA);
    assert_eq!(bytes[16 + 258], 0xBB);
}

#[test]
fn encoded_length_is_header_plus_payloads() {
    let entry = record(7, "hello", "world!!");
    assert_eq!(entry.encode().len(), 16 + 5 + 7);
    let empty = record(7, "", "");
    assert_eq!(empty.encode().len(), 16);
}

#[test]
fn decode_undoes_encode() {
    let entry = record(1234567890, "some key", "some value");
    let back = Entry::decode(&entry.encode()).unwrap();
    assert_eq!(back.timestamp, 1234567890);
    assert_eq!(back.key_size, 8);
    assert_eq!(back.value_size, 10);
    assert_eq!(back.key, b"some key".to_vec());
    assert_eq!(back.value, b"some value".to_vec());
}

#[test]
fn decode_undoes_encode_for_extreme_timestamps() {
    for timestamp in [0u64, 1, 255, 256, u32::MAX as u64, u64::MAX - 1, u64::MAX] {
        let entry = record(timestamp, "k", "");
        let back = Entry::decode(&entry.encode()).unwrap();
        assert_eq!(back.timestamp, timestamp);
        assert_eq!(back.key, b"k".to_vec());
        assert!(back.value.is_empty());
    }
}

#[test]
fn decode_reads_only_its_own_record() {
    let mut bytes = record(5, "a", "bc").encode();
    bytes.extend_from_slice(&record(6, "zz", "y").encode());
    bytes.extend_from_slice(&[9, 9, 9]);
    let first = Entry::decode(&bytes).unwrap();
    assert_eq!(first.timestamp, 5);
    assert_eq!(first.key, b"a".to_vec());
    assert_eq!(first.value, b"bc".to_vec());
    let second = Entry::decode(&bytes[16 + 3..]).unwrap();
    assert_eq!(second.timestamp, 6);
    assert_eq!(second.key, b"zz".to_vec());
    assert_eq!(second.value, b"y".to_vec());
}

#[test]
fn decode_fails_on_a_short_header() {
    let bytes = record(5, "a", "b").encode();
    for len in 0..16 {
        assert!(matches!(
            Entry::decode(&bytes[..len]),
            Err(StoreError::ShortRead)
        ));
    }
}

#[test]
fn decode_fails_on_a_short_payload() {
    let bytes = record(5, "key", "value").encode();
    for len in 16..bytes.len() {
        assert!(matches!(
            Entry::decode(&bytes[..len]),
            Err(StoreError::ShortRead)
        ));
    }
    assert!(Entry::decode(&bytes).is_ok());
}

#[test]
fn new_stamps_the_record_with_the_clock() {
    let entry = Entry::new(b"key".to_vec(), b"value".to_vec());
    assert!(entry.timestamp > 1_000_000_000);
    assert_eq!(entry.key_size, 3);
    assert_eq!(entry.value_size, 5);
    assert_eq!(entry.key, b"key".to_vec());
    assert_eq!(entry.value, b"value".to_vec());
    assert!(entry.is_well_formed());
}

#[test]
fn clock_does_not_stand_at_zero() {
    let first = bitcask::clock::now();
    let second = bitcask::clock::now();
    assert!(first > 1_000_000_000);
    assert!(second > 1_000_000_000);
}

#[test]
fn a_record_with_wrong_sizes_is_not_well_formed() {
    let entry = Entry {
        timestamp: 1,
        key_size: 2,
        value_size: 1,
        key: b"k".to_vec(),
        value: b"v".to_vec(),
    };
    assert!(!entry.is_well_formed());
    let entry = Entry {
        timestamp: 1,
        key_size: 1,
        value_size: 0,
        key: b"k".to_vec(),
        value: b"v".to_vec(),
    };
    assert!(!entry.is_well_formed());
}

#[test]
fn big_endian_helpers_round_trip() {
    let mut buf = vec![0xFF];
    bitcask::endian::put_u32(&mut buf, 0xDEADBEEF);
    bitcask::endian::put_u64(&mut buf, 0x0011223344556677);
    assert_eq!(
        buf,
        vec![0xFF, 0xDE, 0xAD, 0xBE, 0xEF, 0x00, 0x11, 0x22, 0x33, 0x44, 0x55, 0x66, 0x77]
    );
    assert_eq!(bitcask::endian::get_u32(&buf, 1), 0xDEADBEEF);
    assert_eq!(bitcask::endian::get_u64(&buf, 5), 0x0011223344556677);
}
