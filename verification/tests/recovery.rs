use bitcask::datafile::{Datafile, FileType};
use bitcask::error::StoreError;
use bitcask::hint::HintFile;
use bitcask::keydir::{Keydir, KeydirEntry};
use bitcask::recovery::{next_id, read_names, replay_hints, replay_records, FileImage};

fn image(path: &str) -> FileImage {
    FileImage { path: path.to_string(), data: Vec::new() }
}

#[test]
fn read_names_tells_ids_kinds_hints_and_the_highest_id() {
    let files = vec![image("d/7.df"), image("d/7.ht"), image("d/30.df"), image("d/9.ht")];
    let listing = read_names(&files).unwrap();
    assert_eq!(listing.names.len(), 4);
    assert_eq!(listing.names[0].id, 7);
    assert_eq!(listing.names[0].kind, FileType::DataFile);
    assert_eq!(listing.names[1].id, 7);
    assert_eq!(listing.names[1].kind, FileType::HintFile);
    assert_eq!(listing.names[2].id, 30);
    assert_eq!(listing.names[3].id, 9);
    assert_eq!(listing.highest, Some(30));
    assert!(listing.with_hints.contains(&7));
    assert!(listing.with_hints.contains(&9));
    assert!(!listing.with_hints.contains(&30));
    assert_eq!(listing.with_hints.len(), 2);
}

#[test]
fn read_names_of_an_empty_directory() {
    let listing = read_names(&Vec::new()).unwrap();
    assert!(listing.names.is_empty());
    assert!(listing.with_hints.is_empty());
    assert_eq!(listing.highest, None);
}

#[test]
fn read_names_fails_on_a_name_it_cannot_parse() {
    let files = vec![image("d/7.df"), image("d/seven.ht")];
    assert!(matches!(read_names(&files), Err(StoreError::CorruptFile)));
}

#[test]
fn next_id_is_the_time_or_the_next_above_every_id() {
    assert_eq!(next_id(10, None), Some(10));
    assert_eq!(next_id(0, None), Some(0));
    assert_eq!(next_id(10, Some(9)), Some(10));
    assert_eq!(next_id(10, Some(10)), Some(11));
    assert_eq!(next_id(10, Some(500)), Some(501));
    assert_eq!(next_id(u64::MAX, Some(u64::MAX - 1)), Some(u64::MAX));
    assert_eq!(next_id(3, Some(u64::MAX - 1)), Some(u64::MAX));
    assert_eq!(next_id(3, Some(u64::MAX)), None);
    assert_eq!(next_id(u64::MAX, Some(u64::MAX)), None);
}

#[test]
fn replay_hints_offers_every_item_and_keeps_the_newest() {
    let mut hints = HintFile::new(4);
    let old = KeydirEntry { file_id: 4, val_size: 1, offset: 0, timestamp: 10 };
    let new = KeydirEntry { file_id: 4, val_size: 2, offset: 20, timestamp: 11 };
    let stale = KeydirEntry { file_id: 4, val_size: 3, offset: 40, timestamp: 9 };
    let other = KeydirEntry { file_id: 4, val_size: 4, offset: 60, timestamp: 1 };
    hints.write_keydir_entry(&old, b"k").unwrap();
    hints.write_keydir_entry(&new, b"k").unwrap();
    hints.write_keydir_entry(&stale, b"k").unwrap();
    hints.write_keydir_entry(&other, b"other").unwrap();
    let total = hints.bytes().len();
    assert_eq!(hints.remaining(), total);

    let mut keydir = Keydir::new();
    let present = KeydirEntry { file_id: 3, val_size: 0, offset: 0, timestamp: 5 };
    keydir.add_entry(b"untouched", present);
    keydir.add_entry(b"other", present);
    replay_hints(&mut keydir, &mut hints);
    assert_eq!(keydir.get(b"k"), Ok(new));
    assert_eq!(keydir.get(b"other"), Ok(present));
    assert_eq!(keydir.get(b"untouched"), Ok(present));
    assert_eq!(keydir.len(), 3);
    assert_eq!(hints.remaining(), 0);
    assert!(matches!(hints.next(), Err(StoreError::EndOfFile)));
}

#[test]
fn replay_hints_stops_at_a_torn_record() {
    let mut hints = HintFile::new(4);
    let entry = KeydirEntry { file_id: 4, val_size: 1, offset: 0, timestamp: 10 };
    hints.write_keydir_entry(&entry, b"a").unwrap();
    hints.write_keydir_entry(&entry, b"b").unwrap();
    let mut bytes = hints.into_bytes();
    bytes.truncate(bytes.len() - 1);
    let mut hints = HintFile::new_read_only(bytes, 4);
    let mut keydir = Keydir::new();
    replay_hints(&mut keydir, &mut hints);
    assert_eq!(keydir.len(), 1);
    assert_eq!(keydir.get(b"a"), Ok(entry));
    assert_eq!(hints.remaining(), 28);
}

#[test]
fn replay_records_says_what_the_hints_say() {
    let mut df = Datafile::new(12);
    df.write_at(100, b"a", b"1".to_vec()).unwrap();
    df.write_at(99, b"b", b"22".to_vec()).unwrap();
    df.write_at(101, b"a", b"333".to_vec()).unwrap();
    df.write_at(100, b"a", b"4444".to_vec()).unwrap();
    let mut from_records = Keydir::new();
    replay_records(&mut from_records, df.bytes(), 12);
    let mut hints = HintFile::new_read_only(df.hint_bytes().unwrap().clone(), 12);
    let mut from_hints = Keydir::new();
    replay_hints(&mut from_hints, &mut hints);
    assert_eq!(from_records.len(), 2);
    assert_eq!(from_hints.len(), 2);
    assert_eq!(
        from_records.get(b"a"),
        Ok(KeydirEntry { file_id: 12, val_size: 3, offset: 18 + 19, timestamp: 101 })
    );
    assert_eq!(
        from_records.get(b"b"),
        Ok(KeydirEntry { file_id: 12, val_size: 2, offset: 18, timestamp: 99 })
    );
    assert_eq!(from_records.get(b"a"), from_hints.get(b"a"));
    assert_eq!(from_records.get(b"b"), from_hints.get(b"b"));
}

#[test]
fn replay_records_of_an_empty_datafile_changes_nothing() {
    let mut keydir = Keydir::new();
    let present = KeydirEntry { file_id: 3, val_size: 0, offset: 0, timestamp: 5 };
    keydir.add_entry(b"k", present);
    replay_records(&mut keydir, &[], 9);
    replay_records(&mut keydir, &[1, 2, 3], 9);
    assert_eq!(keydir.len(), 1);
    assert_eq!(keydir.get(b"k"), Ok(present));
}
