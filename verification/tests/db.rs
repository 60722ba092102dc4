use chloedb::binarylog::{BinaryLog, OperationType};
use chloedb::db::DB;
use chloedb::error::DBError;
use chloedb::index::MapValue;

fn frame(op: OperationType, key: &[u8], val: &[u8]) -> Vec<u8> {
    BinaryLog::serialize(BinaryLog::new(1, op, key, val))
}

fn sorted(mut v: Vec<Vec<u8>>) -> Vec<Vec<u8>> {
    v.sort();
    v
}

#[test]
fn new_store_is_empty() {
    let db = DB::new("logs");
    assert!(db.list().is_empty());
    assert_eq!(db.active_file(), "logs/0001.log");
    assert_eq!(db.dir(), "logs");
    assert!(!db.check_compaction(5));
    assert!(db.check_compaction(6));
}

#[test]
fn set_plans_a_put_and_finish_records_it() {
    let mut db = DB::new("logs");
    let p = db.set(b"name", b"example", 7).unwrap();
    assert!(!p.rotates());
    let rec = p.record().to_vec();
    assert_eq!(rec.len(), 36);
    assert_eq!(u32::from_le_bytes([rec[0], rec[1], rec[2], rec[3]]), 32);
    let log = BinaryLog::deserialize(&rec[4..]).unwrap();
    assert_eq!(log.get_op_type(), OperationType::Put);
    assert_eq!(log.to_string(), "example");
    db.finish_append(p);
    assert_eq!(db.list(), vec![b"name".to_vec()]);
    let loc = db.locate(b"name").unwrap();
    assert_eq!(loc.path, "logs/0001.log");
    assert_eq!(loc.position, 4);
    assert_eq!(loc.len, 32);
}

#[test]
fn set_refuses_existing_key() {
    let mut db = DB::new("logs");
    let p = db.set(b"a", b"1", 7).unwrap();
    db.finish_append(p);
    assert!(matches!(db.set(b"a", b"2", 7), Err(DBError::KeyAlreadyExists)));
}

#[test]
fn remove_refuses_missing_key() {
    let db = DB::new("logs");
    assert!(matches!(db.remove(b"a", 7), Err(DBError::KeyNotFound)));
    assert!(matches!(db.locate(b"a"), Err(DBError::KeyNotFound)));
}

#[test]
fn remove_plans_and_finish_drops_key() {
    let mut db = DB::new("logs");
    let p = db.set(b"a", b"1", 7).unwrap();
    db.finish_append(p);
    let p = db.remove(b"a", 7).unwrap();
    let log = BinaryLog::deserialize(&p.record()[4..]).unwrap();
    assert_eq!(log.get_op_type(), OperationType::Remove);
    assert_eq!(log.get_key(), b"a".to_vec());
    db.finish_append(p);
    assert!(db.list().is_empty());
}

#[test]
fn each_key_points_at_its_frame() {
    // three frames of 27 bytes each, one after another
    let mut db = DB::new("logs");
    let mut file = Vec::new();
    for (k, v) in [(b"a", b"x"), (b"b", b"y"), (b"c", b"z")] {
        let p = db.set(k, v, 7).unwrap();
        file.extend_from_slice(p.record());
        db.finish_append(p);
        assert_eq!(db.byte_counter() as usize, file.len());
    }
    for (k, v, at) in [(b"a", "x", 0u64), (b"b", "y", 27), (b"c", "z", 54)] {
        let loc = db.locate(k).unwrap();
        assert_eq!(loc.position, at + 4);
        let start = loc.position as usize;
        let log = BinaryLog::deserialize(&file[start..start + loc.len]).unwrap();
        assert_eq!(log.to_string(), v);
        assert_eq!(log.get_key(), k.to_vec());
    }
}

#[test]
fn reloading_the_written_file_gives_the_same_index() {
    let mut db = DB::new("logs");
    let mut file = Vec::new();
    let p = db.set(b"a", b"1", 7).unwrap();
    file.extend_from_slice(p.record());
    db.finish_append(p);
    let p = db.set(b"b", b"22", 7).unwrap();
    file.extend_from_slice(p.record());
    db.finish_append(p);
    let p = db.remove(b"a", 7).unwrap();
    file.extend_from_slice(p.record());
    db.finish_append(p);
    let mut db2 = DB::new("logs");
    db2.load_log_file("logs/0001.log", 1, &file).unwrap();
    assert_eq!(db2.list(), db.list());
    let (l1, l2) = (db.locate(b"b").unwrap(), db2.locate(b"b").unwrap());
    assert_eq!((l1.path, l1.position, l1.len), (l2.path, l2.position, l2.len));
    assert_eq!(db2.byte_counter(), db.byte_counter());
}

#[test]
fn first_file_refuses_oversized_append() {
    let db = DB::new("logs").set_max_bytes(20);
    assert!(matches!(db.set(b"name", b"example", 7), Err(DBError::ValueTooLarge)));
}

#[test]
fn first_file_rotates_when_full() {
    let mut db = DB::new("logs").set_max_bytes(40);
    let p = db.set(b"a", b"1", 7).unwrap();
    assert!(!p.rotates());
    db.finish_append(p);
    let p = db.set(b"b", b"2", 7).unwrap();
    assert!(p.rotates());
    db.set_new_active_file();
    assert_eq!(db.active_file(), "logs/0002.log");
    assert_eq!(db.active_file_id(), 2);
    db.finish_append(p);
    let loc = db.locate(b"b").unwrap();
    assert_eq!(loc.path, "logs/0002.log");
    assert_eq!(loc.position, 4);
    let p = db.set(b"c", b"3", 7).unwrap();
    assert!(p.rotates());
    db.set_new_active_file();
    assert_eq!(db.active_file(), "logs/0003.log");
    db.finish_append(p);
    assert_eq!(db.locate(b"c").unwrap().path, "logs/0003.log");
}

#[test]
fn a_first_value_larger_than_a_file_is_refused() {
    // 21 header bytes, key and value of 3 bytes, and the length field: 31
    let db = DB::new("logs").set_max_bytes(30);
    assert!(matches!(db.set(b"abc", b"def", 7), Err(DBError::ValueTooLarge)));
    assert!(db.set(b"ab", b"de", 7).is_ok());
}

#[test]
fn a_later_file_rotates_for_an_oversized_frame() {
    let mut db = DB::new("logs").set_max_bytes(30);
    let p = db.set(b"a", b"1", 7).unwrap();
    db.finish_append(p);
    db.set_new_active_file();
    let p = db.set(b"abc", b"def", 7).unwrap();
    assert!(p.rotates());
    db.set_new_active_file();
    db.finish_append(p);
    assert_eq!(db.locate(b"abc").unwrap().path, "logs/0003.log");
}

#[test]
fn max_logs_below_three_is_ignored() {
    let db = DB::new("logs").set_max_logs(2);
    assert!(db.check_compaction(6));
    assert!(!db.check_compaction(5));
    let db = db.set_max_logs(3);
    assert!(db.check_compaction(4));
    assert!(!db.check_compaction(3));
}

#[test]
fn compaction_copies_entries_outside_active_file_into_first() {
    let mut db = DB::new("d");
    let p = db.set(b"a", b"1", 7).unwrap();
    db.finish_append(p);
    db.set_new_active_file();
    let p = db.set(b"b", b"2", 7).unwrap();
    db.finish_append(p);
    db.set_new_active_file();
    let p = db.set(b"c", b"3", 7).unwrap();
    db.finish_append(p);
    db.set_new_active_file();
    let p = db.set(b"d", b"4", 7).unwrap();
    db.finish_append(p);
    let plan = db.compact_log().unwrap();
    assert_eq!(plan.target_file_id(), 1);
    let mut ids: Vec<u32> = plan.sources().iter().map(|v| v.file_id).collect();
    ids.sort();
    assert_eq!(ids, vec![1, 2, 3]);
    assert!(plan.sources().contains(&MapValue { offset: 0, record_size: 23, file_id: 1 }));
    let order: Vec<u32> = plan.sources().iter().map(|v| v.file_id).collect();
    db.finish_compaction(plan);
    // the copies lie one after another in file 1, in the order of the plan
    for (i, id) in order.iter().enumerate() {
        let key: &[u8] = match id {
            1 => b"a",
            2 => b"b",
            _ => b"c",
        };
        let loc = db.locate(key).unwrap();
        assert_eq!(loc.path, "d/0001.log");
        assert_eq!(loc.position, 27 * i as u64 + 4);
    }
    assert_eq!(db.locate(b"d").unwrap().path, "d/0004.log");
}

#[test]
fn compaction_needs_more_than_one_log() {
    let db = DB::new("d");
    assert!(matches!(db.compact_log(), Err(DBError::LogCountNotEnough)));
}

#[test]
fn load_replays_frames_in_order() {
    let mut contents = Vec::new();
    contents.extend(frame(OperationType::Put, b"a", b"1"));
    contents.extend(frame(OperationType::Put, b"b", b"22"));
    contents.extend(frame(OperationType::Remove, b"a", b""));
    contents.extend(frame(OperationType::Put, b"c", b"3"));
    let mut db = DB::new("logs");
    db.load_log_file("logs/0003.log", 3, &contents).unwrap();
    assert_eq!(sorted(db.list()), vec![b"b".to_vec(), b"c".to_vec()]);
    assert_eq!(db.active_file(), "logs/0003.log");
    let loc = db.locate(b"b").unwrap();
    assert_eq!(loc.path, "logs/0003.log");
    assert_eq!(loc.position, 27 + 4);
    assert_eq!(loc.len, 24);
    let loc = db.locate(b"c").unwrap();
    assert_eq!(loc.position, 27 + 28 + 26 + 4);
}

#[test]
fn load_appends_after_the_file() {
    let contents = frame(OperationType::Put, b"a", b"1");
    let mut db = DB::new("logs");
    db.load_log_file("logs/0001.log", 1, &contents).unwrap();
    let p = db.set(b"b", b"2", 7).unwrap();
    db.finish_append(p);
    assert_eq!(db.locate(b"b").unwrap().position, 27 + 4);
}

#[test]
fn load_stops_cleanly_at_a_short_tail() {
    let mut contents = frame(OperationType::Put, b"a", b"1");
    contents.extend_from_slice(&[1, 2, 3]);
    let mut db = DB::new("logs");
    assert!(db.load_log_file("logs/0001.log", 1, &contents).is_ok());
    assert_eq!(db.list(), vec![b"a".to_vec()]);
}

#[test]
fn load_fails_on_truncated_frame() {
    let mut contents = frame(OperationType::Put, b"a", b"1");
    let more = frame(OperationType::Put, b"b", b"2");
    contents.extend_from_slice(&more[..10]);
    let mut db = DB::new("logs");
    let r = db.load_log_file("logs/0001.log", 1, &contents);
    match r {
        Err(DBError::IoError(e)) => assert_eq!(e.kind(), std::io::ErrorKind::UnexpectedEof),
        _ => panic!("expected an I/O error"),
    }
}

#[test]
fn load_fails_on_corrupted_record() {
    let mut contents = frame(OperationType::Put, b"a", b"1");
    let mut bad = frame(OperationType::Put, b"b", b"2");
    let last = bad.len() - 1;
    bad[last] ^= 0x40;
    contents.extend(bad);
    let mut db = DB::new("logs");
    assert!(matches!(
        db.load_log_file("logs/0001.log", 1, &contents),
        Err(DBError::CorruptedValue)
    ));
}

#[test]
fn try_load_refuses_unreadable_record() {
    // a frame holding a record shorter than its CRC
    let contents = vec![2, 0, 0, 0, 1, 2];
    let mut db = DB::new("logs");
    assert!(db.try_load_log_file("logs/0001.log", 1, &contents).is_none());
    assert_eq!(db.active_file(), "logs/0001.log");
    let contents = frame(OperationType::Put, b"a", b"1");
    assert!(matches!(db.try_load_log_file("logs/0002.log", 2, &contents), Some(Ok(()))));
    assert_eq!(db.list(), vec![b"a".to_vec()]);
}

#[test]
fn db_error_messages() {
    assert_eq!(DBError::KeyNotFound.to_string(), "Key not found");
    assert_eq!(DBError::KeyAlreadyExists.to_string(), "Key already exists");
    assert_eq!(DBError::CorruptedValue.to_string(), "Corrupted value");
    assert_eq!(DBError::ValueTooLarge.to_string(), "First value exceeds the byte limit");
    assert_eq!(DBError::FailedParseFileId.to_string(), "Failed parsing file into id");
    assert_eq!(
        DBError::FailedByteKeyConvert.to_string(),
        "Failed converting key bytes into String"
    );
    assert_eq!(
        DBError::LogCountNotEnough.to_string(),
        "Log file count not enough for compaction"
    );
    let io = std::io::Error::new(std::io::ErrorKind::Other, "boom");
    assert_eq!(DBError::from(io).to_string(), "IO Error: boom");
    assert!(matches!(DBError::from("x".parse::<u32>().unwrap_err()), DBError::FailedParseFileId));
    let bad = [0xffu8];
    assert!(matches!(
        DBError::from(std::str::from_utf8(&bad).unwrap_err()),
        DBError::FailedByteKeyConvert
    ));
    assert!(matches!(
        DBError::from(chloedb::binarylog::BinaryLogError::InvalidCRC),
        DBError::CorruptedValue
    ));
}

#[test]
fn reopening_after_compaction_gives_the_same_index() {
    let mut db = DB::new("d").set_max_bytes(60);
    let mut files: Vec<Vec<u8>> = vec![Vec::new()];
    for (k, v) in [(b"a", b"1"), (b"b", b"2"), (b"c", b"3"), (b"d", b"4"), (b"e", b"5")] {
        let p = db.set(k, v, 7).unwrap();
        if p.rotates() {
            db.set_new_active_file();
            files.push(Vec::new());
        }
        files.last_mut().unwrap().extend_from_slice(p.record());
        db.finish_append(p);
    }
    let p = db.remove(b"a", 7).unwrap();
    if p.rotates() {
        db.set_new_active_file();
        files.push(Vec::new());
    }
    files.last_mut().unwrap().extend_from_slice(p.record());
    db.finish_append(p);
    assert!(db.active_file_id() >= 3);

    let plan = db.compact_log().unwrap();
    let mut compacted = Vec::new();
    for v in plan.sources() {
        let f = &files[(v.file_id - 1) as usize];
        let start = v.offset as usize;
        compacted.extend_from_slice(&f[start..start + v.record_size as usize + 4]);
    }
    db.finish_compaction(plan);

    let active = files.last().unwrap().clone();
    let active_id = db.active_file_id();
    let mut db2 = DB::new("d");
    db2.load_log_file("d/0001.log", 1, &compacted).unwrap();
    db2.load_log_file(&format!("d/{:04}.log", active_id), active_id, &active).unwrap();
    let mut k1 = db.list();
    let mut k2 = db2.list();
    k1.sort();
    k2.sort();
    assert_eq!(k1, k2);
    assert!(!k1.contains(&b"a".to_vec()));
    for k in k1 {
        let (l1, l2) = (db.locate(&k).unwrap(), db2.locate(&k).unwrap());
        assert_eq!((l1.path, l1.position, l1.len), (l2.path, l2.position, l2.len));
    }
}
