//! Best-quote buckets.

use market_sim::L1Bucket;

#[test]
fn bucket_volumes_count_every_snapshot_and_prices_the_quoted_ones() {
    let mut bucket = L1Bucket::new(0, 0);
    bucket.absorb(0, 0, 0, 0); // empty book: no quote, no volume
    bucket.absorb(100, 0, 5, 0); // one-sided book: volume and notional, no quote
    bucket.absorb(101, 103, 4, 6); // first quote
    bucket.absorb(99, 105, 1, 2); // widens the extremes
    bucket.absorb(100, 104, 3, 3); // last quote

    assert_eq!(bucket.first_bid, 101);
    assert_eq!(bucket.first_ask, 103);
    assert_eq!(bucket.min_bid, 99);
    assert_eq!(bucket.max_ask, 105);
    assert_eq!(bucket.last_bid, 100);
    assert_eq!(bucket.last_ask, 104);
    assert_eq!(bucket.volume, 5 + 4 + 6 + 1 + 2 + 3 + 3);
    let notional = 100 * 5 + (101 * 4 + 103 * 6) + (99 + 105 * 2) + (100 * 3 + 104 * 3);
    assert_eq!(bucket.quote_volume, notional);
}

#[test]
fn a_bucket_with_no_quote_keeps_zero_prices() {
    let mut bucket = L1Bucket::new(0, 3);
    bucket.absorb(0, 0, 0, 0);
    bucket.absorb(50, 0, 2, 0);

    assert_eq!(bucket.first_bid, 0);
    assert_eq!(bucket.last_ask, 0);
    assert_eq!(bucket.volume, 2);
    assert_eq!(bucket.quote_volume, 100);
}
