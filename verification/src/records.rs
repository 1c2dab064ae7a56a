//! What a run records: trades, best-quote snapshots, and their aggregates.

use crate::order::Side;
use crate::types::{Nanos, Symbol};
use vstd::prelude::*;

verus! {

/// Record of a single trade.
#[derive(Debug, Clone, Copy, PartialEq, Eq, Structural)]
pub struct TradeRecord {
    pub timestamp: Nanos,
    pub symbol: Symbol,
    pub price: i64,
    pub qty: u64,
    pub aggressor_side: Side,
    pub maker_order_id: u64,
    pub taker_order_id: u64,
}

/// L1 best-bid/ask snapshot, recorded on changes of the best quotes.
#[derive(Debug, Clone, Copy, PartialEq, Eq, Structural)]
pub struct L1Snapshot {
    pub timestamp: Nanos,
    pub symbol: Symbol,
    pub bid_price: i64,
    pub ask_price: i64,
    pub bid_volume: u64,
    pub ask_volume: u64,
    pub last_trade_price: i64,
}

/// One fixed-width aggregate of the L1 log.
///
/// The price fields read the quoted snapshots only, the snapshots with both
/// sides present; `0` means the bucket saw no quote yet. `volume` and
/// `quote_volume` sum over every snapshot of the bucket.
#[derive(Debug, Clone, Copy, PartialEq, Eq, Structural)]
pub struct L1Bucket {
    pub bucket_start: Nanos,
    pub symbol: Symbol,
    pub first_bid: i64,
    pub min_bid: i64,
    pub last_bid: i64,
    pub first_ask: i64,
    pub max_ask: i64,
    pub last_ask: i64,
    pub volume: u64,
    pub quote_volume: u128,
}

/// Price times volume; a negative price counts as nothing.
pub open spec fn quoted_value(price: i64, volume: u64) -> nat {
    if price > 0 {
        (price * volume) as nat
    } else {
        0
    }
}

impl L1Bucket {
    /// An empty bucket.
    pub open spec fn empty(bucket_start: Nanos, symbol: Symbol) -> L1Bucket {
        L1Bucket {
            bucket_start,
            symbol,
            first_bid: 0,
            min_bid: 0,
            last_bid: 0,
            first_ask: 0,
            max_ask: 0,
            last_ask: 0,
            volume: 0,
            quote_volume: 0,
        }
    }

    /// The volume and value of one more L1 state still fit.
    pub open spec fn room(
        self,
        bid_price: i64,
        ask_price: i64,
        bid_volume: u64,
        ask_volume: u64,
    ) -> bool {
        &&& self.volume + bid_volume + ask_volume <= u64::MAX
        &&& self.quote_volume + quoted_value(bid_price, bid_volume) + quoted_value(
            ask_price,
            ask_volume,
        ) <= u128::MAX
    }

    /// The bucket with one L1 state folded in: every state adds volume and
    /// value, and only a quoted one moves the prices.
    pub open spec fn absorbed(
        self,
        bid_price: i64,
        ask_price: i64,
        bid_volume: u64,
        ask_volume: u64,
    ) -> L1Bucket {
        let counted = L1Bucket {
            volume: (self.volume + bid_volume + ask_volume) as u64,
            quote_volume: (self.quote_volume + quoted_value(bid_price, bid_volume) + quoted_value(
                ask_price,
                ask_volume,
            )) as u128,
            ..self
        };
        if bid_price <= 0 || ask_price <= 0 {
            counted
        } else if self.last_bid == 0 {
            L1Bucket {
                first_bid: bid_price,
                min_bid: bid_price,
                last_bid: bid_price,
                first_ask: ask_price,
                max_ask: ask_price,
                last_ask: ask_price,
                ..counted
            }
        } else {
            L1Bucket {
                min_bid: if bid_price < self.min_bid {
                    bid_price
                } else {
                    self.min_bid
                },
                last_bid: bid_price,
                max_ask: if ask_price > self.max_ask {
                    ask_price
                } else {
                    self.max_ask
                },
                last_ask: ask_price,
                ..counted
            }
        }
    }

    /// An empty bucket.
    #[must_use]
    pub fn new(bucket_start: Nanos, symbol: Symbol) -> (bucket: Self)
        ensures
            bucket == L1Bucket::empty(bucket_start, symbol),
    {
        L1Bucket {
            bucket_start,
            symbol,
            first_bid: 0,
            min_bid: 0,
            last_bid: 0,
            first_ask: 0,
            max_ask: 0,
            last_ask: 0,
            volume: 0,
            quote_volume: 0,
        }
    }

    /// Fold one L1 state into the bucket if its volume and value still fit.
    /// Says whether they did; if not, the bucket stays as it was.
    pub fn try_absorb(
        &mut self,
        bid_price: i64,
        ask_price: i64,
        bid_volume: u64,
        ask_volume: u64,
    ) -> (ok: bool)
        ensures
            ok == old(self).room(bid_price, ask_price, bid_volume, ask_volume),
            ok ==> *final(self) == old(self).absorbed(
                bid_price,
                ask_price,
                bid_volume,
                ask_volume,
            ),
            !ok ==> *final(self) == *old(self),
    {
        let bid_value: u128 = value_of(bid_price, bid_volume);
        let ask_value: u128 = value_of(ask_price, ask_volume);
        let volume = match bid_volume.checked_add(ask_volume) {
            Some(both) => self.volume.checked_add(both),
            None => None,
        };
        let value = self.quote_volume.checked_add(bid_value + ask_value);
        match (volume, value) {
            (Some(volume), Some(quote_volume)) => {
                if bid_price > 0 && ask_price > 0 {
                    if self.last_bid == 0 {
                        self.first_bid = bid_price;
                        self.min_bid = bid_price;
                        self.first_ask = ask_price;
                        self.max_ask = ask_price;
                    }
                    if bid_price < self.min_bid {
                        self.min_bid = bid_price;
                    }
                    if ask_price > self.max_ask {
                        self.max_ask = ask_price;
                    }
                    self.last_bid = bid_price;
                    self.last_ask = ask_price;
                }
                self.volume = volume;
                self.quote_volume = quote_volume;
                true
            },
            _ => false,
        }
    }

    /// Fold one L1 state into the bucket.
    pub fn absorb(&mut self, bid_price: i64, ask_price: i64, bid_volume: u64, ask_volume: u64)
        requires
            old(self).room(bid_price, ask_price, bid_volume, ask_volume),
        ensures
            *final(self) == old(self).absorbed(bid_price, ask_price, bid_volume, ask_volume),
    {
        self.try_absorb(bid_price, ask_price, bid_volume, ask_volume);
    }
}

/// Price times volume; a negative price counts as nothing.
fn value_of(price: i64, volume: u64) -> (value: u128)
    ensures
        value == quoted_value(price, volume),
        value <= i64::MAX * u64::MAX,
{
    if price > 0 {
        proof {
            assert(price * volume <= i64::MAX * u64::MAX) by (nonlinear_arith)
                requires
                    0 < price <= i64::MAX,
                    0 <= volume <= u64::MAX,
            ;
        }
        price as u128 * volume as u128
    } else {
        0
    }
}

} // verus!
