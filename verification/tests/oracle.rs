//! The timestamp oracle: allocation, the watermark, and the reader registry.

use txn_db::oracle::Oracle;
use txn_db::Timestamp;

fn ts(raw: u64) -> Timestamp {
    Timestamp::from_raw(raw)
}

#[test]
fn test_new_oracle_reads_at_zero() {
    let o = Oracle::new();
    assert_eq!(o.read_ts(), Timestamp::zero());
}

#[test]
fn test_commit_ts_is_strictly_increasing() {
    let mut o = Oracle::new();
    let a = o.alloc_commit_ts();
    let b = o.alloc_commit_ts();
    assert!(b > a);
    assert_eq!(a, Timestamp::from_raw(1));
    assert_eq!(b, Timestamp::from_raw(2));
}

#[test]
fn test_watermark_advances_on_in_order_completion() {
    let mut o = Oracle::new();
    let t1 = o.alloc_commit_ts();
    o.commit_done(t1);
    assert_eq!(o.read_ts(), Timestamp::from_raw(1));
}

#[test]
fn test_watermark_waits_for_earlier_timestamp() {
    let mut o = Oracle::new();
    let t1 = o.alloc_commit_ts();
    let t2 = o.alloc_commit_ts();

    // The later timestamp finishes first: the watermark must not jump ahead
    // of the still-pending earlier one.
    o.commit_done(t2);
    assert_eq!(o.read_ts(), Timestamp::zero());

    // Once the earlier one completes, the watermark advances across both.
    o.commit_done(t1);
    assert_eq!(o.read_ts(), Timestamp::from_raw(2));
}

#[test]
fn watermark_stops_at_the_first_gap() {
    let mut o = Oracle::new();
    let list: Vec<Timestamp> = (0..6).map(|_| o.alloc_commit_ts()).collect();
    for i in [5, 1, 2, 3] {
        o.commit_done(list[i]);
    }
    assert_eq!(o.read_ts(), ts(0));
    o.commit_done(list[0]);
    assert_eq!(o.read_ts(), ts(4));
    o.commit_done(list[4]);
    assert_eq!(o.read_ts(), ts(6));
}

#[test]
fn recovered_oracle_continues_after_the_highest() {
    let mut o = Oracle::recovered(ts(41));
    assert_eq!(o.read_ts(), ts(41));
    let next = o.alloc_commit_ts();
    assert_eq!(next, ts(42));
    o.commit_done(next);
    assert_eq!(o.read_ts(), ts(42));
}

#[test]
fn timestamps_run_out_at_the_top_of_the_range() {
    let mut o = Oracle::recovered(ts(u64::MAX - 2));
    assert!(o.has_next());
    assert_eq!(o.alloc_commit_ts(), ts(u64::MAX - 1));
    assert!(!o.has_next());
}

#[test]
fn low_watermark_is_the_oldest_live_reader() {
    let mut o = Oracle::new();
    // No reader: the watermark itself.
    assert_eq!(o.low_watermark(), ts(0));

    let first = o.begin_reader();
    let again = o.begin_reader();
    let t1 = o.alloc_commit_ts();
    o.commit_done(t1);
    let second = o.begin_reader();
    assert_eq!((first, again, second), (ts(0), ts(0), ts(1)));

    // Two readers at zero pin it until both are gone.
    assert_eq!(o.low_watermark(), ts(0));
    o.end_reader(first);
    assert_eq!(o.low_watermark(), ts(0));
    o.end_reader(again);
    assert_eq!(o.low_watermark(), ts(1));

    let t2 = o.alloc_commit_ts();
    o.commit_done(t2);
    assert_eq!(o.low_watermark(), ts(1));
    o.end_reader(second);
    assert_eq!(o.low_watermark(), ts(2));
    // A reader that is not there leaves nothing behind.
    o.end_reader(second);
    assert_eq!(o.low_watermark(), ts(2));
}
