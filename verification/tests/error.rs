//! The error type: its classification and its texts.

use txn_db::TxnError;

#[test]
fn test_conflict_is_retryable() {
    assert!(TxnError::conflict(8).is_retryable());
}

#[test]
fn test_store_error_is_not_retryable() {
    assert!(!TxnError::store("read", "disk gone").is_retryable());
}

#[test]
fn test_conflict_display_reports_key_len_not_bytes() {
    let msg = TxnError::conflict(16).to_string();
    assert!(msg.contains("16-byte"));
    assert!(msg.contains("retry"));
}

#[test]
fn test_kind_matches_variant() {
    assert_eq!(TxnError::conflict(1).kind(), "Conflict");
    assert_eq!(TxnError::store("x", "y").kind(), "Store");
}

#[test]
fn test_no_variant_is_fatal() {
    assert!(!TxnError::conflict(1).is_fatal());
    assert!(!TxnError::store("x", "y").is_fatal());
}

#[test]
fn test_error_is_clonable_and_comparable() {
    let a = TxnError::conflict(4);
    assert_eq!(a.clone(), a);
}

#[test]
fn durability_errors_are_fatal_and_not_retryable() {
    let err = TxnError::durability("disk gone");
    assert!(err.is_fatal());
    assert!(!err.is_retryable());
    assert_eq!(err.kind(), "Durability");
}

#[test]
fn texts_are_exact() {
    assert_eq!(
        TxnError::conflict(0).to_string(),
        "write-write conflict on a 0-byte key; retry the transaction"
    );
    assert_eq!(
        TxnError::conflict(1024).to_string(),
        "write-write conflict on a 1024-byte key; retry the transaction"
    );
    assert_eq!(
        TxnError::store("read visible version", "disk gone").to_string(),
        "version store error while read visible version: disk gone"
    );
    assert_eq!(
        TxnError::durability("no space").to_string(),
        "durable commit log error: no space"
    );
}

#[test]
fn every_error_has_the_same_caption() {
    assert_eq!(TxnError::conflict(1).caption(), "transaction error");
    assert_eq!(TxnError::store("a", "b").caption(), "transaction error");
    assert_eq!(TxnError::durability("c").caption(), "transaction error");
}

#[test]
fn constructors_carry_their_arguments() {
    assert!(matches!(TxnError::conflict(7), TxnError::Conflict { key_len: 7 }));
    match TxnError::store("op", "why") {
        TxnError::Store { context, detail } => {
            assert_eq!(context, "op");
            assert_eq!(detail, "why");
        }
        other => panic!("unexpected error: {other:?}"),
    }
}
