//! The mathematical flow recorder: what each event does to the interval
//! diagnostics of one watched agent.

use crate::order::Side;
use crate::types::{AgentId, Nanos, Symbol};
use vstd::prelude::*;

verus! {

/// A boundary between depth-ratio bins, as an exact fraction.
#[derive(Debug, Clone, Copy, PartialEq, Eq, Structural)]
pub struct RatioEdge {
    pub num: u64,
    pub den: u64,
}

/// One weighted price move, `s * notional * (to2 / from2 - 1)` with `s = +1`
/// for buys and `-1` for sells. Prices are in half ticks, so that mids are
/// whole numbers.
#[derive(Debug, Clone, Copy, PartialEq, Eq, Structural)]
pub struct MoveTerm {
    /// Side of the watched agent.
    pub side: Side,
    /// Weight, in tick-lots.
    pub notional: u128,
    /// Pre-trade mid, in half ticks.
    pub from2: u64,
    /// Price or later mid it is compared with, in half ticks.
    pub to2: u64,
}

/// A fill that waits for the mid at one of the horizons.
#[derive(Debug, Clone, Copy, PartialEq, Eq, Structural)]
pub struct PendingResponse {
    pub due: Nanos,
    /// Interval of the fill.
    pub bucket: usize,
    pub side: Side,
    pub notional: u128,
    /// Pre-trade mid, in half ticks.
    pub mid2: u64,
}

/// Distinct watched-order totals for one symbol over the whole rollout.
///
/// `filled_orders / accepted_orders` is the rollout fill rate when the
/// denominator is positive. Interval cohort counts can repeat orders, so their
/// sums cannot replace these totals.
#[derive(Debug, Clone, Copy, PartialEq, Eq, Structural)]
pub struct FlowTotals {
    /// Exchange symbol.
    pub symbol: Symbol,
    /// Distinct watched orders accepted during the run.
    pub accepted_orders: u64,
    /// Watched new orders rejected during the run.
    pub rejected_orders: u64,
    /// Distinct watched orders with at least one external fill.
    pub filled_orders: u64,
    /// External matches that fill a watched order.
    pub fill_events: u64,
}

/// One match, as the recorder sees it.
#[derive(Debug, Clone, Copy, PartialEq, Eq, Structural)]
pub struct FlowFill {
    pub time: Nanos,
    pub taker_agent: AgentId,
    pub taker_order_id: u64,
    pub maker_agent: Option<AgentId>,
    pub maker_order_id: u64,
    pub taker_side: Side,
    pub price: i64,
    pub qty: u64,
    /// Pre-trade mid in half ticks, if both sides were quoted.
    pub mid2: Option<u64>,
}

/// Flow on one symbol in one interval.
#[verifier::ext_equal]
pub struct FlowBucketView {
    pub start: Nanos,
    pub symbol: Symbol,
    pub market_trades: u64,
    pub market_qty: u64,
    pub market_self_trades: u64,
    pub market_self_qty: u64,
    pub self_trades: u64,
    pub self_qty: u64,
    pub taker_qty: u64,
    pub maker_qty: u64,
    pub orders: u64,
    pub rejected_orders: u64,
    pub eligible_orders: u64,
    pub filled_orders: u64,
    pub fill_events: u64,
    pub submitted_qty: u64,
    pub zero_depth_count: u64,
    pub zero_depth_qty: u64,
    pub unvalued_count: u64,
    pub unvalued_qty: u64,
    pub shortfall_excluded_count: u64,
    pub market_notional: u128,
    pub market_self_notional: u128,
    pub self_notional: u128,
    pub taker_notional: u128,
    pub maker_notional: u128,
    pub zero_depth_half_notional: u128,
    pub shortfall_taker_base: u128,
    pub shortfall_maker_base: u128,
    pub shortfall_excluded_notional: u128,
    pub ratio_half_notional: Seq<u128>,
    pub ratio_count: Seq<u64>,
    pub shortfall_taker: Seq<MoveTerm>,
    pub shortfall_maker: Seq<MoveTerm>,
    pub response_num: Seq<Seq<MoveTerm>>,
    pub response_den: Seq<u128>,
    pub response_count: Seq<u64>,
    pub response_excluded_notional: Seq<u128>,
    pub response_excluded_count: Seq<u64>,
}

impl FlowBucketView {
    /// An interval in which nothing happened.
    pub open spec fn empty(start: Nanos, symbol: Symbol, bins: nat, horizons: nat) -> FlowBucketView {
        FlowBucketView {
            start,
            symbol,
            market_trades: 0,
            market_qty: 0,
            market_self_trades: 0,
            market_self_qty: 0,
            self_trades: 0,
            self_qty: 0,
            taker_qty: 0,
            maker_qty: 0,
            orders: 0,
            rejected_orders: 0,
            eligible_orders: 0,
            filled_orders: 0,
            fill_events: 0,
            submitted_qty: 0,
            zero_depth_count: 0,
            zero_depth_qty: 0,
            unvalued_count: 0,
            unvalued_qty: 0,
            shortfall_excluded_count: 0,
            market_notional: 0,
            market_self_notional: 0,
            self_notional: 0,
            taker_notional: 0,
            maker_notional: 0,
            zero_depth_half_notional: 0,
            shortfall_taker_base: 0,
            shortfall_maker_base: 0,
            shortfall_excluded_notional: 0,
            ratio_half_notional: Seq::new(bins, |i: int| 0),
            ratio_count: Seq::new(bins, |i: int| 0),
            shortfall_taker: Seq::empty(),
            shortfall_maker: Seq::empty(),
            response_num: Seq::new(horizons, |i: int| Seq::empty()),
            response_den: Seq::new(horizons, |i: int| 0),
            response_count: Seq::new(horizons, |i: int| 0),
            response_excluded_notional: Seq::new(horizons, |i: int| 0),
            response_excluded_count: Seq::new(horizons, |i: int| 0),
        }
    }

    /// The totals of this interval and a later one, for all but the cohort
    /// counts, fit.
    pub open spec fn merge_fits(self, later: FlowBucketView) -> bool {
        &&& self.market_trades + later.market_trades <= u64::MAX
        &&& self.market_qty + later.market_qty <= u64::MAX
        &&& self.market_self_trades + later.market_self_trades <= u64::MAX
        &&& self.market_self_qty + later.market_self_qty <= u64::MAX
        &&& self.self_trades + later.self_trades <= u64::MAX
        &&& self.self_qty + later.self_qty <= u64::MAX
        &&& self.taker_qty + later.taker_qty <= u64::MAX
        &&& self.maker_qty + later.maker_qty <= u64::MAX
        &&& self.orders + later.orders <= u64::MAX
        &&& self.rejected_orders + later.rejected_orders <= u64::MAX
        &&& self.fill_events + later.fill_events <= u64::MAX
        &&& self.submitted_qty + later.submitted_qty <= u64::MAX
        &&& self.zero_depth_count + later.zero_depth_count <= u64::MAX
        &&& self.zero_depth_qty + later.zero_depth_qty <= u64::MAX
        &&& self.unvalued_count + later.unvalued_count <= u64::MAX
        &&& self.unvalued_qty + later.unvalued_qty <= u64::MAX
        &&& self.shortfall_excluded_count + later.shortfall_excluded_count <= u64::MAX
        &&& self.market_notional + later.market_notional <= u128::MAX
        &&& self.market_self_notional + later.market_self_notional <= u128::MAX
        &&& self.self_notional + later.self_notional <= u128::MAX
        &&& self.taker_notional + later.taker_notional <= u128::MAX
        &&& self.maker_notional + later.maker_notional <= u128::MAX
        &&& self.zero_depth_half_notional + later.zero_depth_half_notional <= u128::MAX
        &&& self.shortfall_taker_base + later.shortfall_taker_base <= u128::MAX
        &&& self.shortfall_maker_base + later.shortfall_maker_base <= u128::MAX
        &&& self.shortfall_excluded_notional + later.shortfall_excluded_notional <= u128::MAX
        &&& sums_fit_u128(self.ratio_half_notional, later.ratio_half_notional)
        &&& sums_fit_u64(self.ratio_count, later.ratio_count)
        &&& sums_fit_u128(self.response_den, later.response_den)
        &&& sums_fit_u64(self.response_count, later.response_count)
        &&& sums_fit_u128(self.response_excluded_notional, later.response_excluded_notional)
        &&& sums_fit_u64(self.response_excluded_count, later.response_excluded_count)
    }

    /// This interval with a later one added to it, but for the cohort counts.
    pub open spec fn merged(self, later: FlowBucketView) -> FlowBucketView {
        FlowBucketView {
            market_trades: (self.market_trades + later.market_trades) as u64,
            market_qty: (self.market_qty + later.market_qty) as u64,
            market_self_trades: (self.market_self_trades + later.market_self_trades) as u64,
            market_self_qty: (self.market_self_qty + later.market_self_qty) as u64,
            self_trades: (self.self_trades + later.self_trades) as u64,
            self_qty: (self.self_qty + later.self_qty) as u64,
            taker_qty: (self.taker_qty + later.taker_qty) as u64,
            maker_qty: (self.maker_qty + later.maker_qty) as u64,
            orders: (self.orders + later.orders) as u64,
            rejected_orders: (self.rejected_orders + later.rejected_orders) as u64,
            fill_events: (self.fill_events + later.fill_events) as u64,
            submitted_qty: (self.submitted_qty + later.submitted_qty) as u64,
            zero_depth_count: (self.zero_depth_count + later.zero_depth_count) as u64,
            zero_depth_qty: (self.zero_depth_qty + later.zero_depth_qty) as u64,
            unvalued_count: (self.unvalued_count + later.unvalued_count) as u64,
            unvalued_qty: (self.unvalued_qty + later.unvalued_qty) as u64,
            shortfall_excluded_count: (self.shortfall_excluded_count
                + later.shortfall_excluded_count) as u64,
            market_notional: (self.market_notional + later.market_notional) as u128,
            market_self_notional: (self.market_self_notional + later.market_self_notional) as u128,
            self_notional: (self.self_notional + later.self_notional) as u128,
            taker_notional: (self.taker_notional + later.taker_notional) as u128,
            maker_notional: (self.maker_notional + later.maker_notional) as u128,
            zero_depth_half_notional: (self.zero_depth_half_notional
                + later.zero_depth_half_notional) as u128,
            shortfall_taker_base: (self.shortfall_taker_base + later.shortfall_taker_base) as u128,
            shortfall_maker_base: (self.shortfall_maker_base + later.shortfall_maker_base) as u128,
            shortfall_excluded_notional: (self.shortfall_excluded_notional
                + later.shortfall_excluded_notional) as u128,
            ratio_half_notional: sums_u128(self.ratio_half_notional, later.ratio_half_notional),
            ratio_count: sums_u64(self.ratio_count, later.ratio_count),
            shortfall_taker: self.shortfall_taker + later.shortfall_taker,
            shortfall_maker: self.shortfall_maker + later.shortfall_maker,
            response_num: Seq::new(
                self.response_num.len(),
                |i: int| self.response_num[i] + later.response_num[i],
            ),
            response_den: sums_u128(self.response_den, later.response_den),
            response_count: sums_u64(self.response_count, later.response_count),
            response_excluded_notional:
                sums_u128(self.response_excluded_notional, later.response_excluded_notional),
            response_excluded_count:
                sums_u64(self.response_excluded_count, later.response_excluded_count),
            ..self
        }
    }
}

/// Element-wise sums fit.
pub open spec fn sums_fit_u64(a: Seq<u64>, b: Seq<u64>) -> bool {
    forall|i: int| 0 <= i < a.len() ==> #[trigger] a[i] + b[i] <= u64::MAX
}

/// Element-wise sums.
pub open spec fn sums_u64(a: Seq<u64>, b: Seq<u64>) -> Seq<u64> {
    Seq::new(a.len(), |i: int| (a[i] + b[i]) as u64)
}

/// Element-wise sums fit.
pub open spec fn sums_fit_u128(a: Seq<u128>, b: Seq<u128>) -> bool {
    forall|i: int| 0 <= i < a.len() ==> #[trigger] a[i] + b[i] <= u128::MAX
}

/// Element-wise sums.
pub open spec fn sums_u128(a: Seq<u128>, b: Seq<u128>) -> Seq<u128> {
    Seq::new(a.len(), |i: int| (a[i] + b[i]) as u128)
}

/// The edge lies at or below the ratio of an order's notional, given in half
/// tick-lots, to a depth in tick-lots.
pub open spec fn edge_reached(edge: RatioEdge, half_notional: u128, depth: u128) -> bool {
    edge.num * (2 * depth) <= half_notional * edge.den
}

/// The bin of a ratio: the number of edges it reaches, in order.
pub open spec fn ratio_bin(edges: Seq<RatioEdge>, half_notional: u128, depth: u128) -> nat
    decreases edges.len(),
{
    if edges.len() == 0 || !edge_reached(edges[0], half_notional, depth) {
        0
    } else {
        1 + ratio_bin(edges.drop_first(), half_notional, depth)
    }
}

/// Price times quantity.
pub open spec fn notional_of(price: i64, qty: u64) -> u128 {
    (if price >= 0 {
        price * qty
    } else {
        -price * qty
    }) as u128
}

/// Number of waiting fills of one interval.
pub open spec fn owed_count(queue: Seq<PendingResponse>, bucket: int) -> nat
    decreases queue.len(),
{
    if queue.len() == 0 {
        0
    } else {
        owed_count(queue.drop_last(), bucket) + if queue.last().bucket == bucket {
            1nat
        } else {
            0
        }
    }
}

/// Notional of the waiting fills of one interval.
pub open spec fn owed_notional(queue: Seq<PendingResponse>, bucket: int) -> nat
    decreases queue.len(),
{
    if queue.len() == 0 {
        0
    } else {
        owed_notional(queue.drop_last(), bucket) + if queue.last().bucket == bucket {
            queue.last().notional as nat
        } else {
            0
        }
    }
}

/// Every horizon from `time` on lies within the range of times.
pub open spec fn all_reachable(horizons: Seq<Nanos>, time: Nanos) -> bool {
    forall|h: int| 0 <= h < horizons.len() ==> time + #[trigger] horizons[h] <= u64::MAX
}

/// Everything a flow recorder knows.
#[verifier::ext_equal]
pub struct FlowView {
    pub agent_id: AgentId,
    pub interval_ns: Nanos,
    pub horizons_ns: Seq<Nanos>,
    pub ratio_edges: Seq<RatioEdge>,
    pub symbol: Symbol,
    pub buckets: Seq<FlowBucketView>,
    /// Fills that wait for a mid, oldest first, by horizon.
    pub pending: Seq<Seq<PendingResponse>>,
    /// Watched orders that rest.
    pub live: Set<u64>,
    pub filled_in_interval: Set<u64>,
    pub filled_in_previous_interval: Set<u64>,
    pub ever_filled: Set<u64>,
    pub totals: FlowTotals,
    pub current_interval: nat,
    /// Current mid in half ticks, if both sides are quoted.
    pub prevailing_mid2: Option<u64>,
}

impl FlowView {
    /// A recorder that has seen nothing.
    pub open spec fn fresh(
        agent_id: AgentId,
        interval_ns: Nanos,
        horizons_ns: Seq<Nanos>,
        ratio_edges: Seq<RatioEdge>,
        symbol: Symbol,
    ) -> FlowView {
        FlowView {
            agent_id,
            interval_ns,
            horizons_ns,
            ratio_edges,
            symbol,
            buckets: Seq::empty(),
            pending: Seq::new(horizons_ns.len(), |i: int| Seq::empty()),
            live: Set::empty(),
            filled_in_interval: Set::empty(),
            filled_in_previous_interval: Set::empty(),
            ever_filled: Set::empty(),
            totals: FlowTotals {
                symbol,
                accepted_orders: 0,
                rejected_orders: 0,
                filled_orders: 0,
                fill_events: 0,
            },
            current_interval: 0,
            prevailing_mid2: None,
        }
    }

    /// The interval that a time falls into.
    pub open spec fn index(self, time: Nanos) -> nat {
        (time / self.interval_ns) as nat
    }

    /// Intervals up to that of `time` can be counted.
    pub open spec fn reaches(self, time: Nanos) -> bool {
        self.index(time) < usize::MAX
    }

    /// The interval `i` before anything happens in it.
    pub open spec fn fresh_bucket(self, i: int) -> FlowBucketView {
        FlowBucketView::empty(
            (i * self.interval_ns) as u64,
            self.symbol,
            self.ratio_edges.len() + 1,
            self.horizons_ns.len(),
        )
    }

    /// Rows up to and including `index` exist.
    pub open spec fn grown(self, index: nat) -> FlowView {
        if index < self.buckets.len() {
            self
        } else {
            FlowView {
                buckets: Seq::new(
                    index + 1,
                    |i: int|
                        if i < self.buckets.len() {
                            self.buckets[i]
                        } else {
                            self.fresh_bucket(i)
                        },
                ),
                ..self
            }
        }
    }

    /// Interval `index` is the current one. Each interval entered on the way
    /// starts with the live orders as its cohort, and the filled orders of an
    /// interval are remembered through the next one.
    pub open spec fn rolled(self, index: nat) -> FlowView {
        if index <= self.current_interval {
            self
        } else {
            let rows = self.grown(index).buckets;
            FlowView {
                current_interval: index,
                buckets: Seq::new(
                    rows.len(),
                    |i: int|
                        if self.current_interval < i <= index {
                            FlowBucketView { eligible_orders: self.live.len() as u64, ..rows[i] }
                        } else {
                            rows[i]
                        },
                ),
                filled_in_previous_interval: if index == self.current_interval + 1 {
                    self.filled_in_interval
                } else {
                    Set::empty()
                },
                filled_in_interval: Set::empty(),
                ..self
            }
        }
    }

    /// The recorder as it stands when something happens at `time`.
    pub open spec fn at(self, time: Nanos) -> FlowView {
        self.rolled(self.index(time)).grown(self.index(time))
    }

    /// The row of `time`, once it exists.
    pub open spec fn row(self, time: Nanos) -> FlowBucketView {
        self.buckets[self.index(time) as int]
    }

    pub open spec fn with_row(self, time: Nanos, row: FlowBucketView) -> FlowView {
        FlowView { buckets: self.buckets.update(self.index(time) as int, row), ..self }
    }

    /// An order is accepted at `time`.
    pub open spec fn accepted(
        self,
        time: Nanos,
        agent_id: AgentId,
        order_id: u64,
        qty: u64,
    ) -> FlowView {
        if agent_id != self.agent_id {
            self
        } else {
            let now = self.at(time);
            let row = now.row(time);
            FlowView {
                live: now.live.insert(order_id),
                totals: FlowTotals {
                    accepted_orders: (now.totals.accepted_orders + 1) as u64,
                    ..now.totals
                },
                ..now.with_row(
                    time,
                    FlowBucketView {
                        orders: (row.orders + 1) as u64,
                        eligible_orders: (row.eligible_orders + 1) as u64,
                        submitted_qty: (row.submitted_qty + qty) as u64,
                        ..row
                    },
                )
            }
        }
    }

    pub open spec fn accept_room(self, time: Nanos, agent_id: AgentId, qty: u64) -> bool {
        agent_id == self.agent_id ==> {
            let row = self.at(time).row(time);
            &&& self.reaches(time)
            &&& row.orders < u64::MAX
            &&& row.eligible_orders < u64::MAX
            &&& row.submitted_qty + qty <= u64::MAX
            &&& self.totals.accepted_orders < u64::MAX
        }
    }

    /// A new order is rejected at `time`.
    pub open spec fn rejected(self, time: Nanos, agent_id: AgentId) -> FlowView {
        if agent_id != self.agent_id {
            self
        } else {
            let now = self.at(time);
            let row = now.row(time);
            FlowView {
                totals: FlowTotals {
                    rejected_orders: (now.totals.rejected_orders + 1) as u64,
                    ..now.totals
                },
                ..now.with_row(
                    time,
                    FlowBucketView { rejected_orders: (row.rejected_orders + 1) as u64, ..row },
                )
            }
        }
    }

    pub open spec fn reject_room(self, time: Nanos, agent_id: AgentId) -> bool {
        agent_id == self.agent_id ==> {
            &&& self.reaches(time)
            &&& self.at(time).row(time).rejected_orders < u64::MAX
            &&& self.totals.rejected_orders < u64::MAX
        }
    }

    /// An order of known or unknown value meets a depth.
    pub open spec fn sized(
        self,
        time: Nanos,
        qty: u64,
        half_notional: Option<u128>,
        depth: u128,
    ) -> FlowView {
        let now = self.at(time);
        let row = now.row(time);
        now.with_row(
            time,
            match half_notional {
                None => FlowBucketView {
                    unvalued_count: (row.unvalued_count + 1) as u64,
                    unvalued_qty: (row.unvalued_qty + qty) as u64,
                    ..row
                },
                Some(value) => if depth == 0 {
                    FlowBucketView {
                        zero_depth_count: (row.zero_depth_count + 1) as u64,
                        zero_depth_qty: (row.zero_depth_qty + qty) as u64,
                        zero_depth_half_notional: (row.zero_depth_half_notional + value) as u128,
                        ..row
                    }
                } else {
                    let bin = ratio_bin(self.ratio_edges, value, depth) as int;
                    FlowBucketView {
                        ratio_half_notional: row.ratio_half_notional.update(
                            bin,
                            (row.ratio_half_notional[bin] + value) as u128,
                        ),
                        ratio_count: row.ratio_count.update(bin, (row.ratio_count[bin] + 1) as u64),
                        ..row
                    }
                },
            },
        )
    }

    pub open spec fn size_room(
        self,
        time: Nanos,
        qty: u64,
        half_notional: Option<u128>,
        depth: u128,
    ) -> bool {
        let row = self.at(time).row(time);
        &&& self.reaches(time)
        &&& match half_notional {
            None => row.unvalued_count < u64::MAX && row.unvalued_qty + qty <= u64::MAX,
            Some(value) => if depth == 0 {
                &&& row.zero_depth_count < u64::MAX
                &&& row.zero_depth_qty + qty <= u64::MAX
                &&& row.zero_depth_half_notional + value <= u128::MAX
            } else {
                let bin = ratio_bin(self.ratio_edges, value, depth) as int;
                &&& row.ratio_half_notional[bin] + value <= u128::MAX
                &&& row.ratio_count[bin] < u64::MAX
            },
        }
    }

    /// An order left the book at `time`.
    pub open spec fn gone(self, time: Nanos, order_id: u64) -> FlowView {
        let now = self.rolled(self.index(time));
        FlowView {
            live: now.live.remove(order_id),
            ever_filled: now.ever_filled.remove(order_id),
            ..now
        }
    }

    /// The oldest waiting fill of a horizon is compared with `mid2`, or
    /// excluded if there is none.
    pub open spec fn settled(self, horizon: int, mid2: Option<u64>) -> FlowView {
        let entry = self.pending[horizon][0];
        let row = self.buckets[entry.bucket as int];
        FlowView {
            pending: self.pending.update(horizon, self.pending[horizon].drop_first()),
            buckets: self.buckets.update(
                entry.bucket as int,
                match mid2 {
                    Some(mid2) => FlowBucketView {
                        response_num: row.response_num.update(
                            horizon,
                            row.response_num[horizon].push(
                                MoveTerm {
                                    side: entry.side,
                                    notional: entry.notional,
                                    from2: entry.mid2,
                                    to2: mid2,
                                },
                            ),
                        ),
                        response_den: row.response_den.update(
                            horizon,
                            (row.response_den[horizon] + entry.notional) as u128,
                        ),
                        response_count: row.response_count.update(
                            horizon,
                            (row.response_count[horizon] + 1) as u64,
                        ),
                        ..row
                    },
                    None => FlowBucketView {
                        response_excluded_notional: row.response_excluded_notional.update(
                            horizon,
                            (row.response_excluded_notional[horizon] + entry.notional) as u128,
                        ),
                        response_excluded_count: row.response_excluded_count.update(
                            horizon,
                            (row.response_excluded_count[horizon] + 1) as u64,
                        ),
                        ..row
                    },
                },
            ),
            ..self
        }
    }

    /// The fills of one horizon that are due before a time are settled with
    /// the mid that prevails.
    pub open spec fn resolved_at(self, horizon: int, before: Nanos) -> FlowView
        decreases self.pending[horizon].len(),
        when 0 <= horizon < self.pending.len()
    {
        if self.pending[horizon].len() == 0 || self.pending[horizon][0].due >= before {
            self
        } else {
            self.settled(horizon, self.prevailing_mid2).resolved_at(horizon, before)
        }
    }

    /// So are those of the first `count` horizons.
    pub open spec fn resolved_upto(self, count: nat, before: Nanos) -> FlowView
        decreases count,
    {
        if count == 0 {
            self
        } else {
            self.resolved_upto((count - 1) as nat, before).resolved_at(count - 1, before)
        }
    }

    /// All fills that are due before a time are settled with the mid that
    /// prevails.
    pub open spec fn resolved(self, before: Nanos) -> FlowView {
        self.resolved_upto(self.horizons_ns.len(), before)
    }

    /// The best quotes change at `time`.
    pub open spec fn quoted(self, time: Nanos, bid_price: i64, ask_price: i64) -> FlowView {
        FlowView {
            prevailing_mid2: if bid_price > 0 && ask_price > 0 {
                Some((bid_price + ask_price) as u64)
            } else {
                None
            },
            ..self.resolved(time)
        }
    }

    /// The fill is external and involves the watched agent.
    pub open spec fn watches(self, fill: FlowFill) -> bool {
        fill.maker_agent != Some(fill.taker_agent) && (fill.taker_agent == self.agent_id
            || fill.maker_agent == Some(self.agent_id))
    }

    /// The watched agent's side of a fill it takes part in.
    pub open spec fn watched_side(self, fill: FlowFill) -> Side {
        if fill.taker_agent == self.agent_id {
            fill.taker_side
        } else {
            fill.taker_side.spec_opposite()
        }
    }

    /// The watched agent's order in a fill it takes part in.
    pub open spec fn watched_order(self, fill: FlowFill) -> u64 {
        if fill.maker_agent == Some(self.agent_id) {
            fill.maker_order_id
        } else {
            fill.taker_order_id
        }
    }

    /// A row after a match between orders of one owner.
    pub open spec fn self_matched(self, row: FlowBucketView, fill: FlowFill) -> FlowBucketView {
        let notional = notional_of(fill.price, fill.qty);
        let counted = FlowBucketView {
            market_self_trades: (row.market_self_trades + 1) as u64,
            market_self_qty: (row.market_self_qty + fill.qty) as u64,
            market_self_notional: (row.market_self_notional + notional) as u128,
            ..row
        };
        if fill.taker_agent == self.agent_id {
            FlowBucketView {
                self_trades: (row.self_trades + 1) as u64,
                self_qty: (row.self_qty + fill.qty) as u64,
                self_notional: (row.self_notional + notional) as u128,
                ..counted
            }
        } else {
            counted
        }
    }

    /// A row after a match between different owners.
    pub open spec fn market_matched(self, row: FlowBucketView, fill: FlowFill) -> FlowBucketView {
        FlowBucketView {
            market_trades: (row.market_trades + 1) as u64,
            market_qty: (row.market_qty + fill.qty) as u64,
            market_notional: (row.market_notional + notional_of(fill.price, fill.qty)) as u128,
            ..row
        }
    }

    /// A row after the watched agent's part in an external match.
    pub open spec fn watched_matched(
        self,
        row: FlowBucketView,
        fill: FlowFill,
        first_here: bool,
    ) -> FlowBucketView {
        let notional = notional_of(fill.price, fill.qty);
        let takes = fill.taker_agent == self.agent_id;
        let counted = FlowBucketView {
            fill_events: (row.fill_events + 1) as u64,
            filled_orders: if first_here {
                (row.filled_orders + 1) as u64
            } else {
                row.filled_orders
            },
            ..row
        };
        let traded = if takes {
            FlowBucketView {
                taker_qty: (row.taker_qty + fill.qty) as u64,
                taker_notional: (row.taker_notional + notional) as u128,
                ..counted
            }
        } else {
            FlowBucketView {
                maker_qty: (row.maker_qty + fill.qty) as u64,
                maker_notional: (row.maker_notional + notional) as u128,
                ..counted
            }
        };
        match fill.mid2 {
            Some(mid2) => {
                let term = MoveTerm {
                    side: self.watched_side(fill),
                    notional,
                    from2: mid2,
                    to2: (2 * fill.price) as u64,
                };
                if takes {
                    FlowBucketView {
                        shortfall_taker: row.shortfall_taker.push(term),
                        shortfall_taker_base: (row.shortfall_taker_base + notional) as u128,
                        ..traded
                    }
                } else {
                    FlowBucketView {
                        shortfall_maker: row.shortfall_maker.push(term),
                        shortfall_maker_base: (row.shortfall_maker_base + notional) as u128,
                        ..traded
                    }
                }
            },
            None => FlowBucketView {
                shortfall_excluded_count: (row.shortfall_excluded_count + 1) as u64,
                shortfall_excluded_notional: (row.shortfall_excluded_notional + notional) as u128,
                response_excluded_notional: Seq::new(
                    row.response_excluded_notional.len(),
                    |h: int| (row.response_excluded_notional[h] + notional) as u128,
                ),
                response_excluded_count: Seq::new(
                    row.response_excluded_count.len(),
                    |h: int| (row.response_excluded_count[h] + 1) as u64,
                ),
                ..traded
            },
        }
    }

    /// The waiting fills after a watched one with a mid.
    pub open spec fn pending_with(self, fill: FlowFill) -> Seq<Seq<PendingResponse>> {
        match fill.mid2 {
            Some(mid2) => Seq::new(
                self.pending.len(),
                |h: int|
                    self.pending[h].push(
                        PendingResponse {
                            due: (fill.time + self.horizons_ns[h]) as u64,
                            bucket: self.index(fill.time) as usize,
                            side: self.watched_side(fill),
                            notional: notional_of(fill.price, fill.qty),
                            mid2,
                        },
                    ),
            ),
            None => self.pending,
        }
    }

    /// A match happens. Every match counts once for the market, apart by
    /// whether one owner is on both sides; the watched agent's part in an
    /// external match counts for its orders, costs and responses.
    pub open spec fn filled(self, fill: FlowFill) -> FlowView {
        let now = self.resolved(fill.time).at(fill.time);
        let row = now.row(fill.time);
        if fill.maker_agent == Some(fill.taker_agent) {
            now.with_row(fill.time, self.self_matched(row, fill))
        } else if !self.watches(fill) {
            now.with_row(fill.time, self.market_matched(row, fill))
        } else {
            let order_id = self.watched_order(fill);
            FlowView {
                pending: now.pending_with(fill),
                filled_in_interval: now.filled_in_interval.insert(order_id),
                ever_filled: now.ever_filled.insert(order_id),
                totals: FlowTotals {
                    fill_events: (now.totals.fill_events + 1) as u64,
                    filled_orders: if now.ever_filled.contains(order_id) {
                        now.totals.filled_orders
                    } else {
                        (now.totals.filled_orders + 1) as u64
                    },
                    ..now.totals
                },
                ..now.with_row(
                    fill.time,
                    self.watched_matched(
                        self.market_matched(row, fill),
                        fill,
                        !now.filled_in_interval.contains(order_id),
                    ),
                )
            }
        }
    }

    pub open spec fn fill_room(self, fill: FlowFill) -> bool {
        let now = self.resolved(fill.time).at(fill.time);
        let row = now.row(fill.time);
        let notional = notional_of(fill.price, fill.qty);
        &&& self.reaches(fill.time)
        &&& if fill.maker_agent == Some(fill.taker_agent) {
            &&& row.market_self_trades < u64::MAX
            &&& row.market_self_qty + fill.qty <= u64::MAX
            &&& row.market_self_notional + notional <= u128::MAX
        } else {
            &&& row.market_trades < u64::MAX
            &&& row.market_qty + fill.qty <= u64::MAX
            &&& row.market_notional + notional <= u128::MAX
            &&& self.watches(fill) ==> {
                &&& self.totals.fill_events < u64::MAX
                &&& fill.mid2 is Some ==> all_reachable(self.horizons_ns, fill.time)
            }
        }
    }

    /// Every waiting fill of a horizon is excluded.
    pub open spec fn dropped_at(self, horizon: int) -> FlowView
        decreases self.pending[horizon].len(),
        when 0 <= horizon < self.pending.len()
    {
        if self.pending[horizon].len() == 0 {
            self
        } else {
            self.settled(horizon, None).dropped_at(horizon)
        }
    }

    /// Every waiting fill of the first `count` horizons is excluded.
    pub open spec fn dropped_upto(self, count: nat) -> FlowView
        decreases count,
    {
        if count == 0 {
            self
        } else {
            self.dropped_upto((count - 1) as nat).dropped_at(count - 1)
        }
    }

    /// Orders filled in the current interval that were filled in the one
    /// before as well.
    pub open spec fn repeat_filled(self) -> nat {
        self.filled_in_interval.intersect(self.filled_in_previous_interval).len()
    }

    /// The last row, past the run's last interval, is added to that interval.
    pub open spec fn folded_once(self, last: int) -> FlowView {
        let later = self.buckets.last();
        let row = self.buckets[last];
        FlowView {
            buckets: self.buckets.drop_last().update(
                last,
                FlowBucketView {
                    eligible_orders: (row.eligible_orders + later.orders) as u64,
                    filled_orders: (row.filled_orders + later.filled_orders
                        - self.repeat_filled()) as u64,
                    ..row.merged(later)
                },
            ),
            filled_in_interval: Set::empty(),
            ..self
        }
    }

    pub open spec fn fold_once_room(self, last: int) -> bool {
        let later = self.buckets.last();
        let row = self.buckets[last];
        &&& self.repeat_filled() <= later.filled_orders
        &&& row.eligible_orders + later.orders <= u64::MAX
        &&& row.filled_orders + later.filled_orders - self.repeat_filled() <= u64::MAX
        &&& row.merge_fits(later)
    }

    /// All rows past the run's last interval are added to it.
    pub open spec fn folded(self, last: nat) -> FlowView
        decreases self.buckets.len(),
    {
        if self.buckets.len() <= last + 1 {
            self
        } else {
            self.folded_once(last as int).folded(last)
        }
    }

    pub open spec fn fold_room(self, last: nat) -> bool
        decreases self.buckets.len(),
    {
        self.buckets.len() > last + 1 ==> {
            &&& self.fold_once_room(last as int)
            &&& self.folded_once(last as int).fold_room(last)
        }
    }

    /// The last interval of a run that ends at `end_time`.
    pub open spec fn last_index(self, end_time: Nanos) -> nat {
        self.index(
            if end_time > 0 {
                (end_time - 1) as u64
            } else {
                0
            },
        )
    }

    /// The run is over: responses through `end_time` are settled and later
    /// ones excluded.
    pub open spec fn closed_off(self, end_time: Nanos) -> FlowView {
        let before = if end_time < u64::MAX {
            (end_time + 1) as u64
        } else {
            end_time
        };
        self.resolved(before).dropped_upto(self.horizons_ns.len())
    }

    /// The rows of a run that ended at `end_time`, one for each interval.
    pub open spec fn finished(self, end_time: Nanos) -> FlowView {
        let last = self.last_index(end_time);
        self.closed_off(end_time).grown(last).rolled(last).folded(last)
    }

    pub open spec fn finish_room(self, end_time: Nanos) -> bool {
        let last = self.last_index(end_time);
        &&& last < usize::MAX
        &&& self.closed_off(end_time).grown(last).rolled(last).fold_room(last)
    }

    /// Everything but the rows and the waiting fills is the same.
    pub open spec fn same_setup(self, other: FlowView) -> bool {
        &&& self.pending.len() == other.pending.len()
        &&& self.buckets.len() == other.buckets.len()
        &&& self == FlowView { buckets: self.buckets, pending: self.pending, ..other }
    }

    /// Row shapes, counts that include one another, and waiting fills that
    /// account for what is not yet settled.
    pub open spec fn wf(self) -> bool {
        &&& self.interval_ns > 0
        &&& self.pending.len() == self.horizons_ns.len()
        &&& self.live.finite()
        &&& self.filled_in_interval.finite()
        &&& self.filled_in_previous_interval.finite()
        &&& self.ever_filled.finite()
        &&& self.totals.filled_orders <= self.totals.fill_events
        &&& forall|i: int|
            0 <= i < self.buckets.len() ==> self.row_wf(#[trigger] self.buckets[i])
        &&& forall|h: int, k: int|
            0 <= h < self.pending.len() && 0 <= k < self.pending[h].len() ==> (
            #[trigger] self.pending[h][k]).bucket < self.buckets.len()
        &&& forall|h: int, i: int|
            #![trigger self.pending[h], self.buckets[i]]
            0 <= h < self.pending.len() && 0 <= i < self.buckets.len() ==> self.balanced(h, i)
    }

    pub open spec fn row_wf(self, row: FlowBucketView) -> bool {
        &&& row.ratio_half_notional.len() == self.ratio_edges.len() + 1
        &&& row.ratio_count.len() == self.ratio_edges.len() + 1
        &&& row.response_num.len() == self.horizons_ns.len()
        &&& row.response_den.len() == self.horizons_ns.len()
        &&& row.response_count.len() == self.horizons_ns.len()
        &&& row.response_excluded_notional.len() == self.horizons_ns.len()
        &&& row.response_excluded_count.len() == self.horizons_ns.len()
        &&& row.self_trades <= row.market_self_trades
        &&& row.self_qty <= row.market_self_qty
        &&& row.self_notional <= row.market_self_notional
        &&& row.filled_orders <= row.fill_events
        &&& row.fill_events <= row.market_trades
        &&& row.taker_qty + row.maker_qty <= row.market_qty
        &&& row.taker_notional + row.maker_notional <= row.market_notional
        &&& row.shortfall_taker_base <= row.taker_notional
        &&& row.shortfall_maker_base <= row.maker_notional
        &&& row.shortfall_excluded_count <= row.fill_events
        &&& row.shortfall_excluded_notional + row.shortfall_taker_base + row.shortfall_maker_base
            == row.taker_notional + row.maker_notional
    }

    /// Every watched external fill of row `i` is, for horizon `h`, either
    /// settled, excluded, or still waiting.
    pub open spec fn balanced(self, h: int, i: int) -> bool {
        let row = self.buckets[i];
        &&& row.response_count[h] + row.response_excluded_count[h] + owed_count(self.pending[h], i)
            == row.fill_events
        &&& row.response_den[h] + row.response_excluded_notional[h] + owed_notional(
            self.pending[h],
            i,
        ) == row.taker_notional + row.maker_notional
    }
}

} // verus!
