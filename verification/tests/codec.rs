use waldb::command::Command;
use waldb::wal::{encode_record, read_record, write_fits, WalEntry, WalReadError};

fn write_entry(key: &str, value: &str) -> WalEntry {
    WalEntry {
        transaction_id: 0,
        command: Command::Write { key: key.to_string(), value: value.to_string() },
    }
}

fn commit_entry() -> WalEntry {
    WalEntry { transaction_id: 0, command: Command::Commit }
}

#[test]
fn roundtrip_write_record() {
    let rec = encode_record(&write_entry("hoge", "fuga"));
    let (entry, end) = read_record(&rec, 0).unwrap();
    assert_eq!(end, rec.len());
    match entry.command {
        Command::Write { key, value } => {
            assert_eq!(key, "hoge");
            assert_eq!(value, "fuga");
        }
        _ => panic!("decoded the wrong command"),
    }
}

#[test]
fn roundtrip_commit_record() {
    let rec = encode_record(&commit_entry());
    let (entry, end) = read_record(&rec, 0).unwrap();
    assert_eq!(end, rec.len());
    assert_eq!(entry.command, Command::Commit);
}

#[test]
fn roundtrip_empty_key_and_value() {
    let rec = encode_record(&write_entry("", ""));
    let (entry, _) = read_record(&rec, 0).unwrap();
    match entry.command {
        Command::Write { key, value } => {
            assert_eq!(key, "");
            assert_eq!(value, "");
        }
        _ => panic!("decoded the wrong command"),
    }
}

#[test]
fn roundtrip_unicode() {
    let rec = encode_record(&write_entry("clé", "значение"));
    let (entry, _) = read_record(&rec, 0).unwrap();
    match entry.command {
        Command::Write { key, value } => {
            assert_eq!(key, "clé");
            assert_eq!(value, "значение");
        }
        _ => panic!("decoded the wrong command"),
    }
}

#[test]
fn commit_record_layout() {
    // len = 2, big-endian; payload is the bare commit marker; the
    // trailer is the CRC-64/ECMA digest of len-and-payload. The digest
    // is pinned: existing log files depend on it bit for bit.
    let rec = encode_record(&commit_entry());
    assert_eq!(&rec[0..6], &[0, 0, 0, 2, 0x12, 0x00]);
    let sum = crc::crc64::checksum_ecma(&rec[0..6]);
    assert_eq!(sum, 0xa6b563be00aab97c);
    assert_eq!(&rec[6..14], &sum.to_be_bytes());
    assert_eq!(rec.len(), 14);
}

#[test]
fn empty_log_is_eof() {
    let log: Vec<u8> = Vec::new();
    assert_eq!(read_record(&log, 0), Err(WalReadError::Eof));
}

#[test]
fn position_after_record_is_eof() {
    let rec = encode_record(&commit_entry());
    let (_, end) = read_record(&rec, 0).unwrap();
    assert_eq!(read_record(&rec, end), Err(WalReadError::Eof));
}

#[test]
fn truncated_record_is_incomplete() {
    let rec = encode_record(&write_entry("a", "1"));
    for cut in 1..rec.len() {
        let shortened = &rec[0..cut];
        match read_record(shortened, 0) {
            Err(WalReadError::Eof) | Err(WalReadError::IncompleteRecord) => {}
            other => panic!("a cut record must read as eof or incomplete, got {:?}", other),
        }
    }
}

#[test]
fn every_single_bit_flip_is_caught() {
    // Flipping any one bit of `len, payload, crc` must not decode as a
    // command: the framing or the checksum catches it.
    let rec = encode_record(&commit_entry());
    for byte in 0..rec.len() {
        for bit in 0..8 {
            let mut damaged = rec.clone();
            damaged[byte] ^= 1u8 << bit;
            match read_record(&damaged, 0) {
                Err(WalReadError::IncompleteRecord) | Err(WalReadError::BrokenRecord) => {}
                other => panic!(
                    "bit {} of byte {} flipped, yet decode gave {:?}",
                    bit, byte, other
                ),
            }
        }
    }
}

#[test]
fn valid_crc_with_bad_payload_is_broken() {
    // A record whose checksum holds but whose payload does not match
    // the grammar reads as broken.
    let payload = [0xffu8];
    let mut rec: Vec<u8> = Vec::new();
    rec.extend_from_slice(&(payload.len() as u32).to_be_bytes());
    rec.extend_from_slice(&payload);
    let sum = crc::crc64::checksum_ecma(&rec);
    rec.extend_from_slice(&sum.to_be_bytes());
    assert_eq!(read_record(&rec, 0), Err(WalReadError::BrokenRecord));
}

#[test]
fn invalid_utf8_key_is_broken() {
    // A write whose key bytes are not UTF-8: tag, length, submessage
    // with one key field holding the lone byte 0xff, one empty value.
    let inner = [0x0au8, 1, 0xff, 0x12, 0];
    let mut payload: Vec<u8> = vec![0x0a, inner.len() as u8];
    payload.extend_from_slice(&inner);
    let mut rec: Vec<u8> = Vec::new();
    rec.extend_from_slice(&(payload.len() as u32).to_be_bytes());
    rec.extend_from_slice(&payload);
    let sum = crc::crc64::checksum_ecma(&rec);
    rec.extend_from_slice(&sum.to_be_bytes());
    assert_eq!(read_record(&rec, 0), Err(WalReadError::BrokenRecord));
}

#[test]
fn write_fits_ordinary_sizes() {
    assert!(write_fits("", ""));
    assert!(write_fits("key", "value"));
    let big = "x".repeat(1 << 20);
    assert!(write_fits(&big, &big));
}
