use bitcask::datafile::{file_path, Datafile, FileType};
use bitcask::encoder::Entry;
use bitcask::error::StoreError;
use bitcask::keydir::KeydirEntry;
use bitcask::{Config, FileImage, DB};

fn image(path: &str, data: Vec<u8>) -> FileImage {
    FileImage { path: path.to_string(), data }
}

fn value_of(db: &DB, key: &str) -> Vec<u8> {
    db.get(key.as_bytes()).unwrap().value
}

#[test]
fn directory_is_created() {
    let configuration: Config = Config::new("test_dir");
    assert_eq!(configuration.dir(), "test_dir");
    assert!(!configuration.sync_on_put());
    let db = DB::new(configuration, Vec::new());

    assert!(!db.is_err());
    let db = db.unwrap();
    assert!(db.keydir.is_empty());
    assert!(db.manager.is_empty());
    assert!(!db.write_file.is_read_only());
    assert!(matches!(db.get(b"x"), Err(StoreError::NotFound)));
}

#[test]
fn test_write_read() {
    let configuration: Config = Config::new("test_dir2");
    let db = DB::new(configuration, Vec::new());
    assert!(!db.is_err());
    let mut db = db.unwrap();

    let err = db.put("hello".as_bytes().to_vec(), "world".as_bytes().to_vec());
    assert!(!err.is_err());

    let entry = db.get("hello".as_bytes());
    if entry.is_err() {
        println!("{:?}", entry.as_ref().err().unwrap());
    }
    assert!(!entry.is_err());
    let entry = entry.unwrap();

    assert_eq!(String::from_utf8_lossy(&entry.value), "world");
    assert_eq!(entry.key, b"hello".to_vec());
}

#[test]
fn test_persistance() {
    let configuration: Config = Config::new("test_dir");
    let db1 = DB::new(configuration, Vec::new());
    if db1.is_err() {
        println!("{:?}", db1.as_ref().err().unwrap());
    }
    assert!(!db1.is_err());
    let mut db1 = db1.unwrap();

    // write a fews entries into the database1
    let err = db1.put("hello1".as_bytes().to_vec(), "world".as_bytes().to_vec());
    assert!(!err.is_err());

    let err = db1.put("hello2".as_bytes().to_vec(), "world".as_bytes().to_vec());
    assert!(!err.is_err());

    // lets create a similar configuration and database, and we should still find all of the values.
    let configuration2 = Config::new("test_dir");
    let db2 = DB::new(configuration2, db1.close());
    assert!(!db2.is_err());
    let db2 = db2.unwrap();

    let err = db2.get("hello2".as_bytes());
    if err.is_err() {
        println!("{:?}", err.as_ref().err().unwrap());
    }
    assert!(!err.is_err());
    assert_eq!(err.unwrap().value, b"world".to_vec());

    let err = db2.get("hello1".as_bytes());
    assert!(!err.is_err());
    assert_eq!(err.unwrap().value, b"world".to_vec());
}

#[test]
fn get_on_an_empty_database_is_not_found() {
    let db = DB::open_at(Config::new("d"), Vec::new(), 100).unwrap();
    assert!(matches!(db.get(b"x"), Err(StoreError::NotFound)));
    assert_eq!(db.write_file.id(), 100);
}

#[test]
fn the_last_put_wins() {
    let mut db = DB::open_at(Config::new("d"), Vec::new(), 100).unwrap();
    db.put(b"k".to_vec(), b"a".to_vec()).unwrap();
    db.put(b"k".to_vec(), b"b".to_vec()).unwrap();
    db.put(b"k".to_vec(), b"c".to_vec()).unwrap();
    assert_eq!(value_of(&db, "k"), b"c".to_vec());
    assert_eq!(db.keydir.len(), 1);
}

#[test]
fn the_last_put_wins_even_with_an_older_timestamp() {
    let mut db = DB::open_at(Config::new("d"), Vec::new(), 100).unwrap();
    db.put_at(50, b"k".to_vec(), b"new clock".to_vec()).unwrap();
    db.put_at(40, b"other".to_vec(), b"x".to_vec()).unwrap();
    db.put_at(30, b"k".to_vec(), b"old clock".to_vec()).unwrap();
    let record = db.get(b"k").unwrap();
    assert_eq!(record.value, b"old clock".to_vec());
    assert_eq!(record.timestamp, 30);
    assert_eq!(value_of(&db, "other"), b"x".to_vec());
}

#[test]
fn puts_leave_other_keys_alone() {
    let mut db = DB::open_at(Config::new("d"), Vec::new(), 100).unwrap();
    for i in 0..50u32 {
        let key = format!("key{}", i % 10);
        let value = format!("value{}", i);
        db.put_at(i as u64, key.into_bytes(), value.into_bytes()).unwrap();
    }
    assert_eq!(db.keydir.len(), 10);
    for i in 0..10u32 {
        assert_eq!(
            value_of(&db, &format!("key{}", i)),
            format!("value{}", 40 + i).into_bytes()
        );
    }
}

#[test]
fn put_at_records_the_place_in_the_index() {
    let mut db = DB::open_at(Config::new("d"), Vec::new(), 100).unwrap();
    db.put_at(7, b"a".to_vec(), b"12345".to_vec()).unwrap();
    db.put_at(8, b"bc".to_vec(), b"".to_vec()).unwrap();
    assert_eq!(
        db.keydir.get(b"a"),
        Ok(KeydirEntry { file_id: 100, val_size: 5, offset: 0, timestamp: 7 })
    );
    assert_eq!(
        db.keydir.get(b"bc"),
        Ok(KeydirEntry { file_id: 100, val_size: 0, offset: 22, timestamp: 8 })
    );
    let record = db.get(b"a").unwrap();
    assert_eq!(record.timestamp, 7);
    assert_eq!(record.key_size, 1);
    assert_eq!(record.value_size, 5);
}

#[test]
fn empty_keys_and_values_are_kept() {
    let mut db = DB::open_at(Config::new("d"), Vec::new(), 100).unwrap();
    db.put(Vec::new(), b"value of the empty key".to_vec()).unwrap();
    db.put(b"empty".to_vec(), Vec::new()).unwrap();
    assert_eq!(value_of(&db, ""), b"value of the empty key".to_vec());
    assert_eq!(value_of(&db, "empty"), Vec::<u8>::new());
}

#[test]
fn a_failed_put_changes_nothing() {
    let mut db = DB::open_at(Config::new("d"), Vec::new(), 100).unwrap();
    db.put(b"k".to_vec(), b"before".to_vec()).unwrap();
    let sealed = Datafile::new_read_only(db.write_file.bytes().clone(), db.write_file.id());
    db.write_file = sealed;
    assert_eq!(db.put(b"k".to_vec(), b"after".to_vec()), Err(StoreError::IoError));
    assert_eq!(db.put(b"new".to_vec(), b"x".to_vec()), Err(StoreError::IoError));
    assert_eq!(value_of(&db, "k"), b"before".to_vec());
    assert!(matches!(db.get(b"new"), Err(StoreError::NotFound)));
    assert_eq!(db.keydir.len(), 1);
}

#[test]
fn two_sessions_on_one_directory() {
    let mut a = DB::open_at(Config::new("dir"), Vec::new(), 1000).unwrap();
    a.put(b"hello1".to_vec(), b"world".to_vec()).unwrap();
    a.put(b"hello2".to_vec(), b"world".to_vec()).unwrap();
    let files = a.close();
    assert_eq!(files.len(), 2);
    assert_eq!(files[0].path, "dir/1000.df");
    assert_eq!(files[1].path, "dir/1000.ht");
    let b = DB::open_at(Config::new("dir"), files, 2000).unwrap();
    assert_eq!(value_of(&b, "hello1"), b"world".to_vec());
    assert_eq!(value_of(&b, "hello2"), b"world".to_vec());
    assert_eq!(b.write_file.id(), 2000);
    assert!(b.write_file.bytes().is_empty());
    assert!(b.manager.contains_key(&1000));
}

fn copy_of(files: &[FileImage]) -> Vec<FileImage> {
    files
        .iter()
        .map(|file| FileImage { path: file.path.clone(), data: file.data.clone() })
        .collect()
}

#[test]
fn three_sessions_keep_the_last_value_of_every_key() {
    let mut directory: Vec<FileImage> = Vec::new();
    let mut now = 500u64;
    for session in 0..3u32 {
        let mut db = DB::open_at(Config::new("dir"), copy_of(&directory), now).unwrap();
        for i in 0..4u32 {
            let key = format!("key{}", (session + i) % 5);
            let value = format!("s{}i{}", session, i);
            db.put_at(now + i as u64, key.into_bytes(), value.into_bytes()).unwrap();
        }
        directory.extend(db.close());
        now += 10;
    }
    assert_eq!(directory.len(), 6);
    let db = DB::open_at(Config::new("dir"), directory, now).unwrap();
    assert_eq!(db.keydir.len(), 5);
    assert_eq!(value_of(&db, "key0"), b"s2i3".to_vec());
    assert_eq!(value_of(&db, "key1"), b"s1i0".to_vec());
    assert_eq!(value_of(&db, "key2"), b"s2i0".to_vec());
    assert_eq!(value_of(&db, "key3"), b"s2i1".to_vec());
    assert_eq!(value_of(&db, "key4"), b"s2i2".to_vec());
}

#[test]
fn sessions_within_one_second_keep_the_last_value() {
    let mut directory: Vec<FileImage> = Vec::new();
    for session in 0..4u32 {
        let mut db = DB::open_at(Config::new("dir"), copy_of(&directory), 900).unwrap();
        assert_eq!(db.write_file.id(), 900 + session as u64);
        db.put_at(900, b"k".to_vec(), format!("v{}", session).into_bytes()).unwrap();
        db.put_at(900, b"k".to_vec(), format!("w{}", session).into_bytes()).unwrap();
        directory.extend(db.close());
    }
    let mut shuffled = copy_of(&directory);
    shuffled.reverse();
    for files in [directory, shuffled] {
        let db = DB::open_at(Config::new("dir"), files, 900).unwrap();
        assert_eq!(value_of(&db, "k"), b"w3".to_vec());
        assert_eq!(db.write_file.id(), 904);
    }
}

#[test]
fn a_clock_that_steps_back_lets_the_greater_timestamp_win_at_restart() {
    let mut db = DB::open_at(Config::new("dir"), Vec::new(), 10).unwrap();
    db.put_at(5, b"k".to_vec(), b"a".to_vec()).unwrap();
    db.put_at(3, b"k".to_vec(), b"b".to_vec()).unwrap();
    assert_eq!(value_of(&db, "k"), b"b".to_vec());
    let again = DB::open_at(Config::new("dir"), db.close(), 20).unwrap();
    assert_eq!(value_of(&again, "k"), b"a".to_vec());
}

#[test]
fn startup_indexes_the_latest_record_of_every_key() {
    let mut df = Datafile::new(42);
    df.write_at(100, b"a", b"old".to_vec()).unwrap();
    df.write_at(101, b"b", b"only".to_vec()).unwrap();
    let latest = df.write_at(102, b"a", b"new".to_vec()).unwrap();
    let (data, hints) = df.into_bytes();
    let files = vec![image("db/42.df", data), image("db/42.ht", hints.unwrap())];
    let db = DB::open_at(Config::new("db"), files, 1000).unwrap();
    assert_eq!(db.keydir.len(), 2);
    assert_eq!(db.keydir.get(b"a"), Ok(latest));
    assert_eq!(
        db.keydir.get(b"b"),
        Ok(KeydirEntry { file_id: 42, val_size: 4, offset: 16 + 1 + 3, timestamp: 101 })
    );
    assert_eq!(value_of(&db, "a"), b"new".to_vec());
    assert_eq!(value_of(&db, "b"), b"only".to_vec());
    assert_eq!(db.manager.len(), 1);
    assert!(db.manager.get(&42).unwrap().is_read_only());
}

#[test]
fn startup_gives_the_same_index_hints_first_or_data_first() {
    let mut df = Datafile::new(42);
    df.write_at(100, b"a", b"1".to_vec()).unwrap();
    df.write_at(100, b"a", b"2".to_vec()).unwrap();
    let (data, hints) = df.into_bytes();
    let hints = hints.unwrap();
    let one = DB::open_at(
        Config::new("db"),
        vec![image("42.df", data.clone()), image("42.ht", hints.clone())],
        1000,
    )
    .unwrap();
    let other = DB::open_at(
        Config::new("db"),
        vec![image("42.ht", hints), image("42.df", data)],
        1000,
    )
    .unwrap();
    assert_eq!(value_of(&one, "a"), b"2".to_vec());
    assert_eq!(value_of(&other, "a"), b"2".to_vec());
    assert_eq!(one.keydir.get(b"a"), other.keydir.get(b"a"));
}

#[test]
fn startup_lets_the_newer_hint_win_whatever_the_order_of_the_files() {
    let mut old = Datafile::new(1);
    old.write_at(200, b"k", b"written later by the clock".to_vec()).unwrap();
    old.write_at(50, b"tie", b"lower file".to_vec()).unwrap();
    let mut new = Datafile::new(2);
    new.write_at(100, b"k", b"written earlier by the clock".to_vec()).unwrap();
    new.write_at(50, b"tie", b"higher file".to_vec()).unwrap();
    let (old_data, old_hints) = old.into_bytes();
    let (new_data, new_hints) = new.into_bytes();
    let files = vec![
        image("1.df", old_data),
        image("1.ht", old_hints.unwrap()),
        image("2.df", new_data),
        image("2.ht", new_hints.unwrap()),
    ];
    let mut reversed = copy_of(&files);
    reversed.reverse();
    for files in [files, reversed] {
        let db = DB::open_at(Config::new("db"), files, 1000).unwrap();
        assert_eq!(value_of(&db, "k"), b"written later by the clock".to_vec());
        assert_eq!(value_of(&db, "tie"), b"higher file".to_vec());
        assert_eq!(db.keydir.get(b"k").unwrap().file_id, 1);
        assert_eq!(db.keydir.get(b"tie").unwrap().file_id, 2);
    }
}

#[test]
fn startup_scans_a_datafile_that_has_no_hint_file() {
    let mut df = Datafile::new(42);
    df.write_at(100, b"a", b"old".to_vec()).unwrap();
    df.write_at(101, b"b", b"only".to_vec()).unwrap();
    let latest = df.write_at(102, b"a", b"new".to_vec()).unwrap();
    let (data, _) = df.into_bytes();
    let db = DB::open_at(Config::new("db"), vec![image("db/42.df", data)], 1000).unwrap();
    assert_eq!(db.keydir.len(), 2);
    assert_eq!(db.keydir.get(b"a"), Ok(latest));
    assert_eq!(value_of(&db, "a"), b"new".to_vec());
    assert_eq!(value_of(&db, "b"), b"only".to_vec());
}

#[test]
fn startup_scans_a_datafile_up_to_a_torn_record() {
    let mut df = Datafile::new(42);
    df.write_at(100, b"a", b"whole".to_vec()).unwrap();
    df.write_at(101, b"b", b"torn".to_vec()).unwrap();
    let (mut data, _) = df.into_bytes();
    data.truncate(data.len() - 2);
    let db = DB::open_at(Config::new("db"), vec![image("42.df", data)], 1000).unwrap();
    assert_eq!(db.keydir.len(), 1);
    assert_eq!(value_of(&db, "a"), b"whole".to_vec());
    assert!(matches!(db.get(b"b"), Err(StoreError::NotFound)));
}

#[test]
fn startup_trusts_a_hint_file_that_covers_fewer_records() {
    let mut df = Datafile::new(42);
    df.write_at(100, b"a", b"1".to_vec()).unwrap();
    df.write_at(101, b"b", b"2".to_vec()).unwrap();
    let (data, hints) = df.into_bytes();
    let mut hints = hints.unwrap();
    hints.truncate(hints.len() - 1);
    let files = vec![image("42.df", data), image("42.ht", hints)];
    let mut db = DB::open_at(Config::new("db"), files, 1000).unwrap();
    assert_eq!(value_of(&db, "a"), b"1".to_vec());
    assert!(matches!(db.get(b"b"), Err(StoreError::NotFound)));
    db.put(b"b".to_vec(), b"again".to_vec()).unwrap();
    assert_eq!(value_of(&db, "b"), b"again".to_vec());
}

#[test]
fn startup_fails_on_a_name_it_cannot_parse() {
    for name in ["notes.txt", "db/LOCK", "1.2.df", "x.ht", "12"] {
        let files = vec![image("db/1.df", Vec::new()), image(name, Vec::new())];
        assert!(matches!(
            DB::open_at(Config::new("db"), files, 1000),
            Err(StoreError::CorruptFile)
        ));
        let files = vec![image(name, Vec::new())];
        assert!(matches!(DB::new(Config::new("db"), files), Err(StoreError::CorruptFile)));
    }
}

#[test]
fn the_new_datafile_gets_an_id_above_every_id_found() {
    let files = || vec![image("db/100.df", Vec::new()), image("db/300.ht", Vec::new())];
    assert_eq!(DB::open_at(Config::new("db"), files(), 50).unwrap().write_file.id(), 301);
    assert_eq!(DB::open_at(Config::new("db"), files(), 300).unwrap().write_file.id(), 301);
    assert_eq!(DB::open_at(Config::new("db"), files(), 301).unwrap().write_file.id(), 301);
    assert_eq!(DB::open_at(Config::new("db"), files(), 7000).unwrap().write_file.id(), 7000);
    assert_eq!(DB::open_at(Config::new("db"), Vec::new(), 0).unwrap().write_file.id(), 0);
    let db = DB::new(Config::new("db"), files()).unwrap();
    assert!(db.write_file.id() > 1_000_000_000);
}

#[test]
fn startup_fails_where_no_id_is_left() {
    let files = || vec![image("db/18446744073709551615.df", Vec::new())];
    assert!(matches!(
        DB::open_at(Config::new("db"), files(), 5),
        Err(StoreError::IoError)
    ));
    assert!(matches!(
        DB::open_at(Config::new("db"), files(), u64::MAX),
        Err(StoreError::IoError)
    ));
    assert!(matches!(DB::new(Config::new("db"), files()), Err(StoreError::IoError)));
    let below = vec![image("db/18446744073709551614.df", Vec::new())];
    assert_eq!(
        DB::open_at(Config::new("db"), below, 5).unwrap().write_file.id(),
        u64::MAX
    );
}

#[test]
fn get_fails_with_missing_file_where_the_datafile_is_not_there() {
    let hints = KeydirEntry { file_id: 5, val_size: 1, offset: 0, timestamp: 1 }.encode(b"k");
    let db = DB::open_at(Config::new("db"), vec![image("5.ht", hints)], 1000).unwrap();
    assert_eq!(db.keydir.len(), 1);
    assert!(matches!(db.get(b"k"), Err(StoreError::MissingFile)));
    assert!(matches!(db.get(b"other"), Err(StoreError::NotFound)));
}

#[test]
fn get_fails_with_io_error_where_no_record_stands_at_the_offset() {
    let record = Entry::with_timestamp(1, b"k".to_vec(), b"v".to_vec()).encode();
    let hints = KeydirEntry { file_id: 5, val_size: 1, offset: 4, timestamp: 1 }.encode(b"k");
    let files = vec![image("5.df", record), image("5.ht", hints)];
    let db = DB::open_at(Config::new("db"), files, 1000).unwrap();
    assert!(matches!(db.get(b"k"), Err(StoreError::IoError)));
}

#[test]
fn of_two_datafiles_with_one_id_the_later_counts() {
    let one = Entry::with_timestamp(1, b"k".to_vec(), b"one".to_vec()).encode();
    let two = Entry::with_timestamp(1, b"k".to_vec(), b"two".to_vec()).encode();
    let hints = KeydirEntry { file_id: 5, val_size: 3, offset: 0, timestamp: 1 }.encode(b"k");
    let files = vec![image("a/5.df", one), image("b/005.df", two), image("5.ht", hints)];
    let db = DB::open_at(Config::new("db"), files, 1000).unwrap();
    assert_eq!(value_of(&db, "k"), b"two".to_vec());
}

#[test]
fn close_hands_back_the_files_of_the_session() {
    let mut db = DB::open_at(Config::new("some/dir"), Vec::new(), 77).unwrap();
    db.put_at(1, b"k".to_vec(), b"v".to_vec()).unwrap();
    let data = db.write_file.bytes().clone();
    let hints = db.write_file.hint_bytes().unwrap().clone();
    let files = db.close();
    assert_eq!(files.len(), 2);
    assert_eq!(files[0].path, "some/dir/77.df");
    assert_eq!(files[0].data, data);
    assert_eq!(files[1].path, "some/dir/77.ht");
    assert_eq!(files[1].data, hints);
    assert_eq!(data, Entry::with_timestamp(1, b"k".to_vec(), b"v".to_vec()).encode());
    assert_eq!(
        hints,
        KeydirEntry { file_id: 77, val_size: 1, offset: 0, timestamp: 1 }.encode(b"k")
    );
}

#[test]
fn config_keeps_its_settings() {
    let conf = Config::new("a/b");
    assert_eq!(conf.dir(), "a/b");
    assert!(!conf.sync_on_put());
    let conf = conf.with_sync_on_put(true);
    assert_eq!(conf.dir(), "a/b");
    assert!(conf.sync_on_put());
    let copy = conf.clone();
    assert_eq!(copy.dir(), "a/b");
    assert!(copy.sync_on_put());
}
