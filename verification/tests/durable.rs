//! The commit-record format.

use std::sync::Arc;

use txn_db::durable::{decode_commit, encode_for_log};
use txn_db::{Timestamp, TxnError, WriteEntry};

fn entry(key: &[u8], value: Option<&[u8]>) -> WriteEntry {
    (Arc::from(key), value.map(Arc::from))
}

/// The text of the error that bytes decode to.
fn fault(bytes: &[u8]) -> String {
    match decode_commit(bytes) {
        Ok(_) => panic!("bytes decoded"),
        Err(TxnError::Durability { detail }) => detail,
        Err(other) => panic!("unexpected error: {other:?}"),
    }
}

#[test]
fn test_encode_decode_roundtrip() {
    let writes = vec![
        entry(b"alice", Some(b"100")),
        entry(b"bob", None),
        entry(b"", Some(b"")),
    ];
    let bytes = encode_for_log(Timestamp::from_raw(42), &writes);
    let decoded = decode_commit(&bytes).unwrap_or_else(|e| panic!("{e:?}"));
    assert_eq!(decoded.commit_ts, Timestamp::from_raw(42));
    assert_eq!(decoded.writes, writes);
}

#[test]
fn test_decode_empty_write_set() {
    let bytes = encode_for_log(Timestamp::from_raw(7), &[]);
    let decoded = decode_commit(&bytes).unwrap_or_else(|e| panic!("{e:?}"));
    assert_eq!(decoded.commit_ts, Timestamp::from_raw(7));
    assert!(decoded.writes.is_empty());
}

#[test]
fn test_decode_truncated_record_is_rejected() {
    let bytes = encode_for_log(Timestamp::from_raw(1), &[entry(b"k", Some(b"v"))]);
    for cut in 0..bytes.len() {
        // Any prefix shorter than the whole record must error, never panic.
        assert!(decode_commit(&bytes[..cut]).is_err());
    }
}

#[test]
fn test_decode_rejects_implausible_count() {
    // commit_ts = 0, count = u32::MAX, no body.
    let mut bytes = Vec::new();
    bytes.extend_from_slice(&0u64.to_le_bytes());
    bytes.extend_from_slice(&u32::MAX.to_le_bytes());
    assert!(decode_commit(&bytes).is_err());
    // The same behind a format version.
    bytes.insert(0, 1);
    assert_eq!(
        fault(&bytes),
        "malformed commit record: write count exceeds record size"
    );
}

#[test]
fn test_decode_rejects_trailing_bytes() {
    let mut bytes = encode_for_log(Timestamp::from_raw(1), &[]);
    bytes.push(0xff);
    assert!(decode_commit(&bytes).is_err());
    assert_eq!(
        fault(&bytes),
        "malformed commit record: trailing bytes after commit record"
    );
}

#[test]
fn test_decode_rejects_bad_value_tag() {
    let mut bytes = Vec::new();
    bytes.extend_from_slice(&1u64.to_le_bytes());
    bytes.extend_from_slice(&1u32.to_le_bytes()); // one write
    bytes.extend_from_slice(&1u32.to_le_bytes()); // key_len = 1
    bytes.push(b'k');
    bytes.push(9); // invalid tag
    assert!(decode_commit(&bytes).is_err());
    // The same behind a format version.
    bytes.insert(0, 1);
    assert_eq!(fault(&bytes), "malformed commit record: invalid value tag 9");
}

#[test]
fn the_bytes_of_a_record() {
    let writes = [entry(b"key", Some(b"v")), entry(b"", None)];
    let bytes = encode_for_log(Timestamp::from_raw(0x0102_0304_0506_0708), &writes);
    let expected = [
        1, // version
        8, 7, 6, 5, 4, 3, 2, 1, // commit_ts
        2, 0, 0, 0, // count
        3, 0, 0, 0, b'k', b'e', b'y', 1, 1, 0, 0, 0, b'v', // a put
        0, 0, 0, 0, 0, // an empty-key tombstone
    ];
    assert_eq!(bytes, expected);
}

#[test]
fn the_smallest_record_is_thirteen_bytes() {
    assert_eq!(encode_for_log(Timestamp::zero(), &[]).len(), 13);
    // And the smallest write adds five.
    assert_eq!(encode_for_log(Timestamp::zero(), &[entry(b"", None)]).len(), 18);
}

#[test]
fn other_format_versions_are_rejected() {
    let mut bytes = encode_for_log(Timestamp::from_raw(3), &[entry(b"k", None)]);
    for version in [0u8, 2, 255] {
        bytes[0] = version;
        assert_eq!(
            fault(&bytes),
            format!("malformed commit record: unsupported format version {version}")
        );
    }
}

#[test]
fn a_length_past_the_end_is_rejected() {
    let bytes = encode_for_log(Timestamp::from_raw(3), &[entry(b"key", Some(b"value"))]);
    // The key length, then the value length, claim more than there is.
    for at in [13, 21] {
        let mut longer = bytes.clone();
        longer[at] += 1;
        assert!(decode_commit(&longer).is_err());
        longer[at + 3] = 0xff;
        assert_eq!(fault(&longer), "malformed commit record: record ends mid-field");
    }
    assert_eq!(fault(&[]), "malformed commit record: record ends mid-field");
    assert_eq!(fault(&[1, 2, 3]), "malformed commit record: record ends mid-field");
}

#[test]
fn an_empty_value_is_not_a_tombstone() {
    let writes = [entry(b"a", Some(b"")), entry(b"a", None)];
    let bytes = encode_for_log(Timestamp::from_raw(9), &writes);
    let decoded = decode_commit(&bytes).unwrap_or_else(|e| panic!("{e:?}"));
    assert_eq!(decoded.writes, writes);
    assert_ne!(decoded.writes[0].1, decoded.writes[1].1);
}

#[test]
fn arbitrary_bytes_decode_or_fail() {
    // Whatever decodes encodes back to the same bytes.
    let mut state = 0x2545_f491_4f6c_dd1du64;
    for round in 0..2000u32 {
        let mut bytes = Vec::new();
        for _ in 0..round % 40 {
            state = state.wrapping_mul(6364136223846793005).wrapping_add(1442695040888963407);
            bytes.push(((state >> 33) % 3) as u8);
        }
        if let Ok(commit) = decode_commit(&bytes) {
            assert_eq!(encode_for_log(commit.commit_ts, &commit.writes), bytes);
        }
    }
}
