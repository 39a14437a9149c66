use bitcask::error::StoreError;
use bitcask::keydir::{key_order, KeyOrder, Keydir, KeydirEntry};

#[test]
fn can_insert_and_get() {
    let mut keydir = Keydir::new();
    let res = keydir.add("helloworld".as_bytes(), 1, 1, 1, 1);
    assert!(!res.is_err());

    // get the value from the keydir
    let value = keydir.get("helloworld".as_bytes());
    assert!(!value.is_err());
    let value: KeydirEntry = value.unwrap();

    assert_eq!(value.file_id, 1);
    assert_eq!(value.offset, 1);
    assert_eq!(value.timestamp, 1);
    assert_eq!(value.val_size, 1);
}

#[test]
fn cannot_delete_non_existing_key() {
    let mut keydir = Keydir::new();

    assert!(keydir.remove("hello".as_bytes()).is_err());
}

#[test]
fn delete_value() {
    let mut keydir = Keydir::new();

    let res = keydir.add("helloworld1".as_bytes(), 1, 1, 1, 1);
    assert!(!res.is_err());

    let res = keydir.add("helloworld2".as_bytes(), 1, 1, 1, 1);
    assert!(!res.is_err());

    assert!(!keydir.remove("helloworld1".as_bytes()).is_err());
    assert!(!keydir.remove("helloworld2".as_bytes()).is_err());

    let value = keydir.get("helloworld1".as_bytes());
    assert!(value.is_err());

    let value = keydir.get("helloworld2".as_bytes());
    assert!(value.is_err());
}

fn entry(file_id: u64, offset: u64, timestamp: u64) -> KeydirEntry {
    KeydirEntry { file_id, val_size: 3, offset, timestamp }
}

#[test]
fn get_of_an_absent_key_is_not_found() {
    let keydir = Keydir::new();
    assert_eq!(keydir.get(b"x"), Err(StoreError::NotFound));
}

#[test]
fn remove_of_an_absent_key_is_not_found_and_changes_nothing() {
    let mut keydir = Keydir::new();
    keydir.add_entry(b"a", entry(1, 2, 3));
    assert_eq!(keydir.remove(b"b"), Err(StoreError::NotFound));
    assert_eq!(keydir.len(), 1);
    assert_eq!(keydir.get(b"a"), Ok(entry(1, 2, 3)));
}

#[test]
fn add_entry_overwrites_without_looking_at_the_time() {
    let mut keydir = Keydir::new();
    keydir.add_entry(b"k", entry(1, 0, 100));
    keydir.add_entry(b"k", entry(1, 40, 50));
    assert_eq!(keydir.get(b"k"), Ok(entry(1, 40, 50)));
    assert_eq!(keydir.len(), 1);
}

#[test]
fn keys_are_found_whatever_the_order_of_insertion() {
    let keys: Vec<&[u8]> = vec![b"m", b"", b"zz", b"a", b"ab", b"b", b"aa", b"z", b"\xff", b"\x00"];
    let mut keydir = Keydir::new();
    assert!(keydir.is_empty());
    for (i, key) in keys.iter().enumerate() {
        keydir.add_entry(key, entry(1, i as u64, 7));
    }
    assert_eq!(keydir.len(), keys.len());
    for (i, key) in keys.iter().enumerate() {
        assert_eq!(keydir.get(key), Ok(entry(1, i as u64, 7)));
    }
    assert!(keydir.get(b"abc").is_err());
    assert!(keydir.remove(b"ab").is_ok());
    assert_eq!(keydir.len(), keys.len() - 1);
    assert!(keydir.get(b"ab").is_err());
    assert_eq!(keydir.get(b"aa"), Ok(entry(1, 6, 7)));
    assert_eq!(keydir.get(b"a"), Ok(entry(1, 3, 7)));
}

#[test]
fn key_order_is_bytewise_with_prefixes_first() {
    assert_eq!(key_order(b"a", b"b"), KeyOrder::Before);
    assert_eq!(key_order(b"b", b"a"), KeyOrder::After);
    assert_eq!(key_order(b"ab", b"ab"), KeyOrder::Same);
    assert_eq!(key_order(b"a", b"ab"), KeyOrder::Before);
    assert_eq!(key_order(b"ab", b"a"), KeyOrder::After);
    assert_eq!(key_order(b"", b""), KeyOrder::Same);
    assert_eq!(key_order(b"", b"\x00"), KeyOrder::Before);
    assert_eq!(key_order(b"a\xff", b"b"), KeyOrder::Before);
}

#[test]
fn add_if_newer_takes_the_greater_timestamp() {
    let mut keydir = Keydir::new();
    keydir.add_if_newer(b"k", entry(5, 10, 100));
    assert_eq!(keydir.get(b"k"), Ok(entry(5, 10, 100)));
    keydir.add_if_newer(b"k", entry(9, 90, 99));
    assert_eq!(keydir.get(b"k"), Ok(entry(5, 10, 100)));
    keydir.add_if_newer(b"k", entry(1, 0, 101));
    assert_eq!(keydir.get(b"k"), Ok(entry(1, 0, 101)));
}

#[test]
fn add_if_newer_breaks_ties_by_file_id_then_offset() {
    let mut keydir = Keydir::new();
    keydir.add_if_newer(b"k", entry(5, 10, 100));
    keydir.add_if_newer(b"k", entry(4, 99, 100));
    assert_eq!(keydir.get(b"k"), Ok(entry(5, 10, 100)));
    keydir.add_if_newer(b"k", entry(6, 0, 100));
    assert_eq!(keydir.get(b"k"), Ok(entry(6, 0, 100)));
    keydir.add_if_newer(b"k", entry(6, 1, 100));
    assert_eq!(keydir.get(b"k"), Ok(entry(6, 1, 100)));
    keydir.add_if_newer(b"k", entry(6, 1, 100));
    assert_eq!(keydir.get(b"k"), Ok(entry(6, 1, 100)));
    keydir.add_if_newer(b"k", entry(6, 0, 100));
    assert_eq!(keydir.get(b"k"), Ok(entry(6, 1, 100)));
}

#[test]
fn newer_than_orders_by_time_file_and_offset() {
    assert!(entry(1, 1, 2).newer_than(&entry(9, 9, 1)));
    assert!(!entry(9, 9, 1).newer_than(&entry(1, 1, 2)));
    assert!(entry(2, 0, 5).newer_than(&entry(1, 9, 5)));
    assert!(entry(2, 3, 5).newer_than(&entry(2, 2, 5)));
    assert!(!entry(2, 3, 5).newer_than(&entry(2, 3, 5)));
}

#[test]
fn hint_record_has_the_documented_bytes() {
    let e = KeydirEntry { file_id: 77, val_size: 0x0A0B0C0D, offset: 0x1122334455667788, timestamp: 1 };
    let bytes = e.encode(b"key");
    assert_eq!(bytes.len(), 28 + 3);
    assert_eq!(&bytes[0..8], &[0, 0, 0, 0, 0, 0, 0, 1]);
    assert_eq!(&bytes[8..16], &[0, 0, 0, 0, 0, 0, 0, 3]);
    assert_eq!(&bytes[16..20], &[0x0A, 0x0B, 0x0C, 0x0D]);
    assert_eq!(&bytes[20..28], &[0x11, 0x22, 0x33, 0x44, 0x55, 0x66, 0x77, 0x88]);
    assert_eq!(&bytes[28..], b"key");
}

#[test]
fn hint_record_decodes_to_the_entry_with_the_given_file_id() {
    let e = KeydirEntry { file_id: 77, val_size: 10, offset: 4096, timestamp: 123 };
    let mut bytes = e.encode(b"hello");
    bytes.extend_from_slice(b"trailing");
    let (back, key) = KeydirEntry::decode(&bytes, 77).unwrap();
    assert_eq!(back, e);
    assert_eq!(key, b"hello".to_vec());
    let (other, _) = KeydirEntry::decode(&bytes, 5).unwrap();
    assert_eq!(other.file_id, 5);
    assert_eq!(other.offset, 4096);
}

#[test]
fn hint_record_cut_short_is_a_short_read() {
    let e = KeydirEntry { file_id: 1, val_size: 10, offset: 0, timestamp: 123 };
    let bytes = e.encode(b"hello");
    for len in 0..bytes.len() {
        assert_eq!(
            KeydirEntry::decode(&bytes[..len], 1),
            Err(StoreError::ShortRead)
        );
    }
    let mut huge = bytes.clone();
    for b in &mut huge[8..16] {
        *b = 0xFF;
    }
    assert_eq!(
        KeydirEntry::decode(&huge, 1),
        Err(StoreError::ShortRead)
    );
}
