//! Pluggable sampling strategies for agent order placement and wakeup timing.
//!
//! Each sampler gets the agent's generator, which keeps a single random stream
//! per agent. A sampler says which values it may draw; what an agent does is
//! stated for all of them.

use crate::order::Side;
use rand::rngs::SmallRng;
use vstd::prelude::*;

verus! {

/// Samples an order price given the current mid-price.
pub trait PriceSampler {
    /// The price may be drawn at the mid-price.
    open spec fn prices(&self) -> spec_fn(i64, i64) -> bool {
        |mid: i64, price: i64| true
    }

    fn sample_price(&mut self, mid: i64, rng: &mut SmallRng) -> (price: i64)
        ensures
            (old(self).prices())(mid, price),
            final(self).prices() == old(self).prices(),
    ;
}

/// Samples an order quantity.
pub trait OrderSizeSampler {
    /// The quantity may be drawn.
    open spec fn sizes(&self) -> spec_fn(u64) -> bool {
        |qty: u64| true
    }

    fn sample_order_size(&mut self, rng: &mut SmallRng) -> (qty: u64)
        ensures
            (old(self).sizes())(qty),
            final(self).sizes() == old(self).sizes(),
    ;
}

/// Samples a wakeup delay in nanoseconds. Used by all agent types.
pub trait WakeupSampler {
    /// The delay may be drawn.
    open spec fn delays(&self) -> spec_fn(u64) -> bool {
        |delay_ns: u64| true
    }

    fn sample_wakeup_delay(&mut self, rng: &mut SmallRng) -> (delay_ns: u64)
        ensures
            (old(self).delays())(delay_ns),
            final(self).delays() == old(self).delays(),
    ;
}

/// A moving average, as the sum of the last prices over their number.
#[derive(Debug, Clone, Copy, PartialEq, Eq, Structural)]
pub struct MovingAverage {
    pub sum: i128,
    pub window: usize,
}

/// Side-aware price sampler for trend agents.
/// Given a mid-price and trade side, returns the limit order price.
pub trait TrendPriceSampler {
    /// The price may be drawn at the mid-price and side.
    open spec fn prices(&self) -> spec_fn(i64, Side, i64) -> bool {
        |mid: i64, side: Side, price: i64| true
    }

    fn sample_price(&mut self, mid: i64, side: Side, rng: &mut SmallRng) -> (price: i64)
        ensures
            (old(self).prices())(mid, side, price),
            final(self).prices() == old(self).prices(),
    ;
}

/// Signal-proportional order size sampler for trend agents. The signal is the
/// logarithm of the ratio of the two averages.
pub trait TrendSizeSampler {
    /// The quantity may be drawn on the short and the long average.
    open spec fn sizes(&self) -> spec_fn(MovingAverage, MovingAverage, u64) -> bool {
        |short: MovingAverage, long: MovingAverage, qty: u64| true
    }

    fn sample_order_size(
        &mut self,
        short: MovingAverage,
        long: MovingAverage,
        rng: &mut SmallRng,
    ) -> (qty: u64)
        ensures
            (old(self).sizes())(short, long, qty),
            final(self).sizes() == old(self).sizes(),
    ;
}

/// A price level that a market maker wants to quote.
#[derive(Debug, Clone, Copy, PartialEq, Eq, Structural)]
pub struct Quote {
    pub price: i64,
    pub qty: u64,
}

/// The levels that a market maker wants to quote on each side, nearest first.
pub struct Ladder {
    pub bids: Vec<Quote>,
    pub asks: Vec<Quote>,
}

/// Spreads the liquidity of a market maker over price levels around the
/// mid-price, given its inventory.
pub trait LiquidityModel {
    /// The bids and asks may be drawn at the mid-price and inventory.
    open spec fn ladders(&self) -> spec_fn(i64, i128, Seq<Quote>, Seq<Quote>) -> bool {
        |mid: i64, inventory: i128, bids: Seq<Quote>, asks: Seq<Quote>| true
    }

    fn quotes(&mut self, mid: i64, inventory: i128, rng: &mut SmallRng) -> (ladder: Ladder)
        ensures
            (old(self).ladders())(mid, inventory, ladder.bids@, ladder.asks@),
            final(self).ladders() == old(self).ladders(),
    ;
}

/// Fixed-interval wakeup sampler (deterministic, ignores its generator).
pub struct FixedIntervalWakeup {
    interval_ns: u64,
}

impl FixedIntervalWakeup {
    /// The delay between wakeups.
    pub closed spec fn interval(&self) -> u64 {
        self.interval_ns
    }

    /// A sampler of one delay.
    #[must_use]
    pub fn new(interval_ns: u64) -> (sampler: Self)
        ensures
            sampler.interval() == interval_ns,
    {
        FixedIntervalWakeup { interval_ns }
    }
}

/// Always the same delay.
pub open spec fn one_delay(interval_ns: u64) -> spec_fn(u64) -> bool {
    |delay_ns: u64| delay_ns == interval_ns
}

impl WakeupSampler for FixedIntervalWakeup {
    open spec fn delays(&self) -> spec_fn(u64) -> bool {
        one_delay(self.interval())
    }

    fn sample_wakeup_delay(&mut self, _rng: &mut SmallRng) -> (delay_ns: u64)
        ensures
            delay_ns == old(self).interval(),
            final(self).interval() == old(self).interval(),
    {
        self.interval_ns
    }
}

} // verus!
