//! Records of a run as columns of a table.

use crate::order::Side;
use crate::records::{L1Bucket, L1Snapshot, TradeRecord};
use vstd::prelude::*;

verus! {

/// The name of a side in a table.
pub open spec fn spec_side_name(side: Side) -> Seq<char> {
    match side {
        Side::Bid => seq!['b', 'i', 'd'],
        Side::Ask => seq!['a', 's', 'k'],
    }
}

/// The name of a side in a table.
#[must_use]
pub fn side_name(side: Side) -> (name: &'static str)
    ensures
        name@ == spec_side_name(side),
{
    match side {
        Side::Bid => {
            proof {
                reveal_strlit("bid");
            }
            assert("bid"@ =~= seq!['b', 'i', 'd']);
            "bid"
        },
        Side::Ask => {
            proof {
                reveal_strlit("ask");
            }
            assert("ask"@ =~= seq!['a', 's', 'k']);
            "ask"
        },
    }
}

/// Trades as columns.
#[derive(Debug)]
pub struct TradeColumns {
    pub timestamp: Vec<u64>,
    pub symbol: Vec<u64>,
    pub price: Vec<i64>,
    pub qty: Vec<u64>,
    pub aggressor_side: Vec<Side>,
    pub maker_order_id: Vec<u64>,
    pub taker_order_id: Vec<u64>,
}

impl TradeColumns {
    /// Each column holds one value of each record, in their order.
    pub open spec fn holds(&self, trades: Seq<TradeRecord>) -> bool {
        &&& self.timestamp@ =~= trades.map_values(|trade: TradeRecord| trade.timestamp)
        &&& self.symbol@ =~= trades.map_values(|trade: TradeRecord| trade.symbol as u64)
        &&& self.price@ =~= trades.map_values(|trade: TradeRecord| trade.price)
        &&& self.qty@ =~= trades.map_values(|trade: TradeRecord| trade.qty)
        &&& self.aggressor_side@ =~= trades.map_values(|trade: TradeRecord| trade.aggressor_side)
        &&& self.maker_order_id@ =~= trades.map_values(|trade: TradeRecord| trade.maker_order_id)
        &&& self.taker_order_id@ =~= trades.map_values(|trade: TradeRecord| trade.taker_order_id)
    }

    /// Turns records into columns.
    #[must_use]
    pub fn of(trades: &[TradeRecord]) -> (columns: Self)
        ensures
            columns.holds(trades@),
    {
        let mut columns = TradeColumns {
            timestamp: Vec::new(),
            symbol: Vec::new(),
            price: Vec::new(),
            qty: Vec::new(),
            aggressor_side: Vec::new(),
            maker_order_id: Vec::new(),
            taker_order_id: Vec::new(),
        };
        assert(columns.holds(trades@.take(0)));
        for i in 0..trades.len()
            invariant
                columns.holds(trades@.take(i as int)),
        {
            let trade = trades[i];
            columns.timestamp.push(trade.timestamp);
            columns.symbol.push(trade.symbol as u64);
            columns.price.push(trade.price);
            columns.qty.push(trade.qty);
            columns.aggressor_side.push(trade.aggressor_side);
            columns.maker_order_id.push(trade.maker_order_id);
            columns.taker_order_id.push(trade.taker_order_id);
            let ghost done = trades@.take(i as int);
            assert(trades@.take(i + 1) =~= done.push(trade));
            assert(columns.holds(done.push(trade)));
        }
        assert(trades@.take(trades@.len() as int) =~= trades@);
        columns
    }
}

/// L1 snapshots as columns.
#[derive(Debug)]
pub struct SnapshotColumns {
    pub timestamp: Vec<u64>,
    pub symbol: Vec<u64>,
    pub bid_price: Vec<i64>,
    pub ask_price: Vec<i64>,
    pub bid_volume: Vec<u64>,
    pub ask_volume: Vec<u64>,
    pub last_trade_price: Vec<i64>,
}

impl SnapshotColumns {
    /// Each column holds one value of each record, in their order.
    pub open spec fn holds(&self, snapshots: Seq<L1Snapshot>) -> bool {
        &&& self.timestamp@ =~= snapshots.map_values(|snap: L1Snapshot| snap.timestamp)
        &&& self.symbol@ =~= snapshots.map_values(|snap: L1Snapshot| snap.symbol as u64)
        &&& self.bid_price@ =~= snapshots.map_values(|snap: L1Snapshot| snap.bid_price)
        &&& self.ask_price@ =~= snapshots.map_values(|snap: L1Snapshot| snap.ask_price)
        &&& self.bid_volume@ =~= snapshots.map_values(|snap: L1Snapshot| snap.bid_volume)
        &&& self.ask_volume@ =~= snapshots.map_values(|snap: L1Snapshot| snap.ask_volume)
        &&& self.last_trade_price@ =~= snapshots.map_values(|snap: L1Snapshot| snap.last_trade_price)
    }

    /// Turns records into columns.
    #[must_use]
    pub fn of(snapshots: &[L1Snapshot]) -> (columns: Self)
        ensures
            columns.holds(snapshots@),
    {
        let mut columns = SnapshotColumns {
            timestamp: Vec::new(),
            symbol: Vec::new(),
            bid_price: Vec::new(),
            ask_price: Vec::new(),
            bid_volume: Vec::new(),
            ask_volume: Vec::new(),
            last_trade_price: Vec::new(),
        };
        assert(columns.holds(snapshots@.take(0)));
        for i in 0..snapshots.len()
            invariant
                columns.holds(snapshots@.take(i as int)),
        {
            let snap = snapshots[i];
            columns.timestamp.push(snap.timestamp);
            columns.symbol.push(snap.symbol as u64);
            columns.bid_price.push(snap.bid_price);
            columns.ask_price.push(snap.ask_price);
            columns.bid_volume.push(snap.bid_volume);
            columns.ask_volume.push(snap.ask_volume);
            columns.last_trade_price.push(snap.last_trade_price);
            let ghost done = snapshots@.take(i as int);
            assert(snapshots@.take(i + 1) =~= done.push(snap));
            assert(columns.holds(done.push(snap)));
        }
        assert(snapshots@.take(snapshots@.len() as int) =~= snapshots@);
        columns
    }
}

/// L1 bucket aggregates as columns.
#[derive(Debug)]
pub struct BucketColumns {
    pub bucket_start: Vec<u64>,
    pub symbol: Vec<u64>,
    pub first_bid: Vec<i64>,
    pub min_bid: Vec<i64>,
    pub last_bid: Vec<i64>,
    pub first_ask: Vec<i64>,
    pub max_ask: Vec<i64>,
    pub last_ask: Vec<i64>,
    pub volume: Vec<u64>,
    pub quote_volume: Vec<u128>,
}

impl BucketColumns {
    /// Each column holds one value of each record, in their order.
    pub open spec fn holds(&self, buckets: Seq<L1Bucket>) -> bool {
        &&& self.bucket_start@ =~= buckets.map_values(|bucket: L1Bucket| bucket.bucket_start)
        &&& self.symbol@ =~= buckets.map_values(|bucket: L1Bucket| bucket.symbol as u64)
        &&& self.first_bid@ =~= buckets.map_values(|bucket: L1Bucket| bucket.first_bid)
        &&& self.min_bid@ =~= buckets.map_values(|bucket: L1Bucket| bucket.min_bid)
        &&& self.last_bid@ =~= buckets.map_values(|bucket: L1Bucket| bucket.last_bid)
        &&& self.first_ask@ =~= buckets.map_values(|bucket: L1Bucket| bucket.first_ask)
        &&& self.max_ask@ =~= buckets.map_values(|bucket: L1Bucket| bucket.max_ask)
        &&& self.last_ask@ =~= buckets.map_values(|bucket: L1Bucket| bucket.last_ask)
        &&& self.volume@ =~= buckets.map_values(|bucket: L1Bucket| bucket.volume)
        &&& self.quote_volume@ =~= buckets.map_values(|bucket: L1Bucket| bucket.quote_volume)
    }

    /// Turns records into columns.
    #[must_use]
    pub fn of(buckets: &[L1Bucket]) -> (columns: Self)
        ensures
            columns.holds(buckets@),
    {
        let mut columns = BucketColumns {
            bucket_start: Vec::new(),
            symbol: Vec::new(),
            first_bid: Vec::new(),
            min_bid: Vec::new(),
            last_bid: Vec::new(),
            first_ask: Vec::new(),
            max_ask: Vec::new(),
            last_ask: Vec::new(),
            volume: Vec::new(),
            quote_volume: Vec::new(),
        };
        assert(columns.holds(buckets@.take(0)));
        for i in 0..buckets.len()
            invariant
                columns.holds(buckets@.take(i as int)),
        {
            let bucket = buckets[i];
            columns.bucket_start.push(bucket.bucket_start);
            columns.symbol.push(bucket.symbol as u64);
            columns.first_bid.push(bucket.first_bid);
            columns.min_bid.push(bucket.min_bid);
            columns.last_bid.push(bucket.last_bid);
            columns.first_ask.push(bucket.first_ask);
            columns.max_ask.push(bucket.max_ask);
            columns.last_ask.push(bucket.last_ask);
            columns.volume.push(bucket.volume);
            columns.quote_volume.push(bucket.quote_volume);
            let ghost done = buckets@.take(i as int);
            assert(buckets@.take(i + 1) =~= done.push(bucket));
            assert(columns.holds(done.push(bucket)));
        }
        assert(buckets@.take(buckets@.len() as int) =~= buckets@);
        columns
    }
}

/// Whole milliseconds of a time in nanoseconds, cut towards the epoch.
#[must_use]
pub fn millis_of(nanos: i64) -> (millis: i64)
    ensures
        millis as int == if nanos >= 0 {
            nanos as int / 1_000_000
        } else {
            -(-nanos / 1_000_000)
        },
{
    if nanos >= 0 {
        nanos / 1_000_000
    } else {
        let opposite: i128 = -(nanos as i128);
        (-(opposite / 1_000_000)) as i64
    }
}

} // verus!
