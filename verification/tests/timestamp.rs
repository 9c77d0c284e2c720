//! Timestamps: their order, their raw values and their text.

use txn_db::Timestamp;

#[test]
fn test_zero_is_least() {
    assert!(Timestamp::zero() <= Timestamp::from_raw(0));
    assert!(Timestamp::zero() < Timestamp::from_raw(1));
}

#[test]
fn test_roundtrips_through_raw() {
    for v in [0u64, 1, 2, u64::MAX] {
        assert_eq!(Timestamp::from_raw(v).get(), v);
    }
}

#[test]
fn test_ordering_matches_integer_ordering() {
    assert!(Timestamp::from_raw(5) < Timestamp::from_raw(9));
    assert!(Timestamp::from_raw(9) > Timestamp::from_raw(5));
}

#[test]
fn test_display_prefixes_at_sign() {
    assert_eq!(Timestamp::from_raw(12).to_string(), "@12");
}

#[test]
fn text_of_extreme_timestamps() {
    assert_eq!(Timestamp::zero().to_string(), "@0");
    assert_eq!(
        Timestamp::from_raw(u64::MAX).to_string(),
        "@18446744073709551615"
    );
}

#[test]
fn derived_and_written_orders_agree() {
    let mut list = vec![
        Timestamp::from_raw(3),
        Timestamp::zero(),
        Timestamp::from_raw(u64::MAX),
        Timestamp::from_raw(1),
    ];
    list.sort();
    for pair in list.windows(2) {
        assert!(pair[0] < pair[1]);
    }
    assert_eq!(Timestamp::from_raw(4), Timestamp::from_raw(4));
    assert_ne!(Timestamp::from_raw(4), Timestamp::from_raw(5));
}
