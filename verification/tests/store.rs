use waldb::command::Command;
use waldb::database::Database;
use waldb::wal::{encode_record, WalEntry};

/// Opens a store over the given log bytes, as the adapter does on
/// startup: recover, then cut the log at the returned boundary.
fn reopen(log: &mut Vec<u8>) -> Database {
    let mut db = Database::new();
    let commit_end = db.recover(log);
    log.truncate(commit_end);
    db
}

#[test]
fn single_commit() {
    let mut log: Vec<u8> = Vec::new();
    let mut db = reopen(&mut log);
    let mut t = db.begin();
    t.write("k", "v").unwrap();
    let records = t.commit_records();
    log.extend_from_slice(&records);
    t.commit_apply(&mut db);

    let mut db = reopen(&mut log);
    let t = db.begin();
    assert_eq!(t.read(&db, "k"), Some("v".to_string()));

    let write_len = encode_record(&WalEntry {
        transaction_id: 0,
        command: Command::Write { key: "k".to_string(), value: "v".to_string() },
    })
    .len();
    let commit_len =
        encode_record(&WalEntry { transaction_id: 0, command: Command::Commit }).len();
    assert_eq!(log.len(), write_len + commit_len);
}

#[test]
fn rollback_leaves_no_trace() {
    let mut log: Vec<u8> = Vec::new();
    let mut db = reopen(&mut log);
    let mut t = db.begin();
    t.write("a", "1").unwrap();
    t.rollback();

    let mut db = reopen(&mut log);
    let t = db.begin();
    assert_eq!(t.read(&db, "a"), None);
    assert_eq!(log.len(), 0);
}

#[test]
fn crash_before_commit() {
    let mut log: Vec<u8> = Vec::new();
    for (k, v) in [("a", "1"), ("b", "2")] {
        let rec = encode_record(&WalEntry {
            transaction_id: 0,
            command: Command::Write { key: k.to_string(), value: v.to_string() },
        });
        log.extend_from_slice(&rec);
    }

    let mut db = reopen(&mut log);
    let t = db.begin();
    assert_eq!(t.read(&db, "a"), None);
    assert_eq!(t.read(&db, "b"), None);
    assert_eq!(log.len(), 0);
}

#[test]
fn torn_tail() {
    let mut log: Vec<u8> = Vec::new();
    let mut db = reopen(&mut log);
    let mut t = db.begin();
    t.write("x", "1").unwrap();
    let records = t.commit_records();
    log.extend_from_slice(&records);
    t.commit_apply(&mut db);
    let committed_len = log.len();

    let rec = encode_record(&WalEntry {
        transaction_id: 0,
        command: Command::Write { key: "y".to_string(), value: "2".to_string() },
    });
    log.extend_from_slice(&rec);
    log.extend_from_slice(&[0xde, 0xad, 0xbe]);

    let mut db = reopen(&mut log);
    let t = db.begin();
    assert_eq!(t.read(&db, "x"), Some("1".to_string()));
    assert_eq!(t.read(&db, "y"), None);
    assert_eq!(log.len(), committed_len);
}

#[test]
fn multi_write_atomicity() {
    let mut log: Vec<u8> = Vec::new();
    let mut db = reopen(&mut log);
    let mut t = db.begin();
    t.write("a", "1").unwrap();
    t.write("b", "2").unwrap();
    t.write("a", "3").unwrap();
    let records = t.commit_records();
    log.extend_from_slice(&records);
    t.commit_apply(&mut db);

    let mut db = reopen(&mut log);
    let t = db.begin();
    assert_eq!(t.read(&db, "a"), Some("3".to_string()));
    assert_eq!(t.read(&db, "b"), Some("2".to_string()));

    // Exactly three write records and one commit record on disk.
    let mut writes = 0;
    let mut commits = 0;
    let mut pos = 0;
    while let Ok((entry, end)) = waldb::wal::read_record(&log, pos) {
        match entry.command {
            Command::Write { .. } => writes += 1,
            Command::Commit => commits += 1,
            _ => panic!("no other command can be on disk"),
        }
        pos = end;
    }
    assert_eq!(pos, log.len());
    assert_eq!(writes, 3);
    assert_eq!(commits, 1);
}

#[test]
fn read_your_writes_inside_transaction() {
    let mut log: Vec<u8> = Vec::new();
    let mut db = reopen(&mut log);
    let mut t = db.begin();
    t.write("k", "v1").unwrap();
    assert_eq!(t.read(&db, "k"), Some("v1".to_string()));
    t.rollback();

    let mut db = reopen(&mut log);
    let t = db.begin();
    assert_eq!(t.read(&db, "k"), None);
}

#[test]
fn overlay_shadows_committed_value() {
    let mut log: Vec<u8> = Vec::new();
    let mut db = reopen(&mut log);
    let mut t = db.begin();
    t.write("k", "old").unwrap();
    let records = t.commit_records();
    log.extend_from_slice(&records);
    t.commit_apply(&mut db);

    let mut t = db.begin();
    assert_eq!(t.read(&db, "k"), Some("old".to_string()));
    t.write("k", "new").unwrap();
    assert_eq!(t.read(&db, "k"), Some("new".to_string()));
    t.rollback();
    let t = db.begin();
    assert_eq!(t.read(&db, "k"), Some("old".to_string()));
}

#[test]
fn recovery_is_idempotent() {
    let mut log: Vec<u8> = Vec::new();
    let mut db = reopen(&mut log);
    let mut t = db.begin();
    t.write("a", "1").unwrap();
    t.write("b", "2").unwrap();
    let records = t.commit_records();
    log.extend_from_slice(&records);
    t.commit_apply(&mut db);
    log.extend_from_slice(&[7, 7, 7, 7, 7]);

    let mut db1 = reopen(&mut log);
    let len_after_first = log.len();
    let mut db2 = reopen(&mut log);
    assert_eq!(log.len(), len_after_first);

    let t = db1.begin();
    assert_eq!(t.read(&db1, "a"), Some("1".to_string()));
    let t = db2.begin();
    assert_eq!(t.read(&db2, "a"), Some("1".to_string()));
    assert_eq!(t.read(&db2, "b"), Some("2".to_string()));
}

#[test]
fn arbitrary_tail_bytes_are_discarded() {
    let mut log: Vec<u8> = Vec::new();
    let mut db = reopen(&mut log);
    let mut t = db.begin();
    t.write("k", "v").unwrap();
    let records = t.commit_records();
    log.extend_from_slice(&records);
    t.commit_apply(&mut db);
    let committed = log.clone();

    for tail_len in 1..100usize {
        let mut damaged = committed.clone();
        damaged.extend(std::iter::repeat(0xab).take(tail_len));
        let mut db = reopen(&mut damaged);
        assert_eq!(damaged, committed);
        let t = db.begin();
        assert_eq!(t.read(&db, "k"), Some("v".to_string()));
    }
}

#[test]
fn later_transaction_overwrites_earlier() {
    let mut log: Vec<u8> = Vec::new();
    let mut db = reopen(&mut log);
    for value in ["1", "2", "3"] {
        let mut t = db.begin();
        t.write("k", value).unwrap();
        let records = t.commit_records();
        log.extend_from_slice(&records);
        t.commit_apply(&mut db);
    }
    let mut db = reopen(&mut log);
    let t = db.begin();
    assert_eq!(t.read(&db, "k"), Some("3".to_string()));
}
