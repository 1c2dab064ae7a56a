//! Interval diagnostics of one watched agent, aggregated match by match.

use crate::flow_lemmas::{
    entered, lemma_at_wf, lemma_counts_wf, lemma_dropped_upto, lemma_filled_wf,
    lemma_folded_once_shaped, lemma_grown_wf, lemma_notional_fits, lemma_resolved_upto_setup,
    lemma_roll_step, lemma_rolled_wf, lemma_settled_wf, lemma_wf_shaped, row_shaped, same_flows,
    shaped,
};
use crate::flow_model::{
    all_reachable, edge_reached, notional_of, ratio_bin, sums_fit_u128, sums_fit_u64, sums_u128,
    sums_u64, FlowBucketView, FlowFill, FlowTotals, FlowView, MoveTerm, PendingResponse, RatioEdge,
};
use crate::types::{AgentId, Nanos, Symbol};
use crate::wide::{mul_wide, wide_le};
use std::collections::{HashSet, VecDeque};
use vstd::prelude::*;
use vstd::std_specs::iter::IteratorSpec;

verus! {

broadcast use vstd::std_specs::hash::group_hash_axioms;

/// Interval diagnostics for one agent on each exchange.
///
/// Quantities use lots. Notionals use tick-lots. Times use simulation
/// nanoseconds. Configure this before the first order. The interval must be
/// positive.
#[derive(Debug, Clone)]
pub struct FlowOptions {
    /// Agent whose external fills and submitted orders the recorder tracks.
    pub agent_id: AgentId,
    /// Width of intervals aligned to simulation time zero, in nanoseconds.
    pub interval_ns: Nanos,
    /// Price-response delays, in nanoseconds. Their order defines all response
    /// vectors.
    pub horizons_ns: Vec<Nanos>,
    /// Increasing boundaries for dimensionless submitted-notional/depth
    /// ratios. Bins are `[0, e0)`, `[e0, e1)`, ..., `[e_last, infinity)`.
    pub ratio_edges: Vec<RatioEdge>,
}

impl FlowOptions {
    /// A second set of the same options.
    #[must_use]
    pub fn copied(&self) -> (options: Self)
        ensures
            options.agent_id == self.agent_id,
            options.interval_ns == self.interval_ns,
            options.horizons_ns@ == self.horizons_ns@,
            options.ratio_edges@ == self.ratio_edges@,
    {
        let mut horizons_ns: Vec<Nanos> = Vec::new();
        let mut ratio_edges: Vec<RatioEdge> = Vec::new();
        for i in 0..self.horizons_ns.len()
            invariant
                horizons_ns@ == self.horizons_ns@.take(i as int),
        {
            horizons_ns.push(self.horizons_ns[i]);
            assert(horizons_ns@ =~= self.horizons_ns@.take(i + 1));
        }
        for i in 0..self.ratio_edges.len()
            invariant
                ratio_edges@ == self.ratio_edges@.take(i as int),
        {
            ratio_edges.push(self.ratio_edges[i]);
            assert(ratio_edges@ =~= self.ratio_edges@.take(i + 1));
        }
        assert(horizons_ns@ =~= self.horizons_ns@);
        assert(ratio_edges@ =~= self.ratio_edges@);
        FlowOptions {
            agent_id: self.agent_id,
            interval_ns: self.interval_ns,
            horizons_ns,
            ratio_edges,
        }
    }
}

/// Flow on one symbol in one interval, with separate external and self
/// matches.
///
/// Each external market match counts once. Maker and taker subsets contain
/// only the watched agent's external fills. Self matches never enter cost or
/// response support. Quantities use lots. Notionals and weights use tick-lots.
///
/// Shortfall is `s * (price / pre_trade_mid - 1)`, with `s = +1` for buys and
/// `-1` for sells. Response is `s * (mid_at_horizon / pre_trade_mid - 1)`.
/// Both are kept as exact weighted terms; divide their sum by the matching
/// eligible base. An empty base gives no estimate. A valid mid is positive and
/// two-sided. Response vectors follow [`FlowOptions::horizons_ns`]. Responses
/// use the book after all quote changes at the horizon, in event order.
/// Missing mids and horizons past the run end enter excluded support.
///
/// An order can be eligible or filled in several intervals. Use
/// [`FlowTotals`] for distinct run totals.
#[derive(Debug, Clone, PartialEq, Eq)]
pub struct FlowBucket {
    /// Inclusive interval start in simulation nanoseconds.
    pub start: Nanos,
    /// Exchange symbol.
    pub symbol: Symbol,
    /// External matches across all agents, once per match.
    pub market_trades: u64,
    /// External matched quantity across all agents, in lots.
    pub market_qty: u64,
    /// Same-owner matches across all agents, once per match.
    pub market_self_trades: u64,
    /// Same-owner matched quantity across all agents, in lots.
    pub market_self_qty: u64,
    /// Same-owner matches of the watched agent, once per match.
    pub self_trades: u64,
    /// Same-owner matched quantity of the watched agent, in lots.
    pub self_qty: u64,
    /// Watched taker quantity against other owners, in lots.
    pub taker_qty: u64,
    /// Watched maker quantity against other owners, in lots.
    pub maker_qty: u64,
    /// Watched orders accepted at exchange arrival during this interval.
    pub orders: u64,
    /// Watched new orders rejected at exchange arrival during this interval.
    pub rejected_orders: u64,
    /// Distinct accepted orders carried into or accepted during this interval. A
    /// carried order canceled in the interval remains in this cohort.
    pub eligible_orders: u64,
    /// Distinct eligible orders with an external fill during this interval.
    pub filled_orders: u64,
    /// External matches that fill a watched order, including repeated partial
    /// fills.
    pub fill_events: u64,
    /// Accepted watched order quantity during this interval, in lots.
    pub submitted_qty: u64,
    /// Valued orders with zero external executable depth.
    pub zero_depth_count: u64,
    /// Quantity of those zero-depth orders, in lots.
    pub zero_depth_qty: u64,
    /// Market orders without a valid pre-submit valuation mid, separate from zero
    /// depth.
    pub unvalued_count: u64,
    /// Quantity of those unvalued orders, in lots.
    pub unvalued_qty: u64,
    /// External watched fills without a valid pre-trade mid.
    pub shortfall_excluded_count: u64,
    /// External matched notional across all agents, in tick-lots.
    pub market_notional: u128,
    /// Same-owner matched notional across all agents, once per match.
    pub market_self_notional: u128,
    /// Same-owner matched notional of the watched agent, once per match.
    pub self_notional: u128,
    /// Watched taker notional against other owners, in tick-lots.
    pub taker_notional: u128,
    /// Watched maker notional against other owners, in tick-lots.
    pub maker_notional: u128,
    /// Submitted notional of the zero-depth orders, in half tick-lots.
    pub zero_depth_half_notional: u128,
    /// External taker notional with a valid pre-trade mid.
    pub shortfall_taker_base: u128,
    /// External maker notional with a valid pre-trade mid.
    pub shortfall_maker_base: u128,
    /// External watched notional without a valid pre-trade mid.
    pub shortfall_excluded_notional: u128,
    /// Submitted notional per finite depth-ratio bin, in half tick-lots. Limits
    /// use limit price times quantity. Market orders use the pre-submit mid.
    /// Depth includes external live opposing displayed orders through the limit.
    pub ratio_half_notional: Vec<u128>,
    /// Accepted order count per finite depth-ratio bin.
    pub ratio_count: Vec<u64>,
    /// Terms of external taker notional times signed shortfall.
    pub shortfall_taker: Vec<MoveTerm>,
    /// Terms of external maker notional times signed shortfall.
    pub shortfall_maker: Vec<MoveTerm>,
    /// Terms of eligible fill notional times signed response, by horizon and
    /// original fill interval.
    pub response_num: Vec<Vec<MoveTerm>>,
    /// Eligible external fill notional at each horizon.
    pub response_den: Vec<u128>,
    /// Eligible external fill count at each horizon.
    pub response_count: Vec<u64>,
    /// External fill notional without both valid mids or a completed horizon.
    pub response_excluded_notional: Vec<u128>,
    /// External fill count without both valid mids or a completed horizon.
    pub response_excluded_count: Vec<u64>,
}

impl View for FlowBucket {
    type V = FlowBucketView;

    open spec fn view(&self) -> FlowBucketView {
        FlowBucketView {
            start: self.start,
            symbol: self.symbol,
            market_trades: self.market_trades,
            market_qty: self.market_qty,
            market_self_trades: self.market_self_trades,
            market_self_qty: self.market_self_qty,
            self_trades: self.self_trades,
            self_qty: self.self_qty,
            taker_qty: self.taker_qty,
            maker_qty: self.maker_qty,
            orders: self.orders,
            rejected_orders: self.rejected_orders,
            eligible_orders: self.eligible_orders,
            filled_orders: self.filled_orders,
            fill_events: self.fill_events,
            submitted_qty: self.submitted_qty,
            zero_depth_count: self.zero_depth_count,
            zero_depth_qty: self.zero_depth_qty,
            unvalued_count: self.unvalued_count,
            unvalued_qty: self.unvalued_qty,
            shortfall_excluded_count: self.shortfall_excluded_count,
            market_notional: self.market_notional,
            market_self_notional: self.market_self_notional,
            self_notional: self.self_notional,
            taker_notional: self.taker_notional,
            maker_notional: self.maker_notional,
            zero_depth_half_notional: self.zero_depth_half_notional,
            shortfall_taker_base: self.shortfall_taker_base,
            shortfall_maker_base: self.shortfall_maker_base,
            shortfall_excluded_notional: self.shortfall_excluded_notional,
            ratio_half_notional: self.ratio_half_notional@,
            ratio_count: self.ratio_count@,
            shortfall_taker: self.shortfall_taker@,
            shortfall_maker: self.shortfall_maker@,
            response_num: self.response_num@.map_values(|terms: Vec<MoveTerm>| terms@),
            response_den: self.response_den@,
            response_count: self.response_count@,
            response_excluded_notional: self.response_excluded_notional@,
            response_excluded_count: self.response_excluded_count@,
        }
    }
}

/// `count` zeros.
fn zeros_u64(count: usize) -> (zeros: Vec<u64>)
    ensures
        zeros@ == Seq::new(count as nat, |i: int| 0u64),
{
    let mut zeros: Vec<u64> = Vec::new();
    for i in 0..count
        invariant
            zeros@ == Seq::new(i as nat, |j: int| 0u64),
    {
        zeros.push(0);
        assert(zeros@ =~= Seq::new((i + 1) as nat, |j: int| 0u64));
    }
    zeros
}

/// `count` zeros.
fn zeros_u128(count: usize) -> (zeros: Vec<u128>)
    ensures
        zeros@ == Seq::new(count as nat, |i: int| 0u128),
{
    let mut zeros: Vec<u128> = Vec::new();
    for i in 0..count
        invariant
            zeros@ == Seq::new(i as nat, |j: int| 0u128),
    {
        zeros.push(0);
        assert(zeros@ =~= Seq::new((i + 1) as nat, |j: int| 0u128));
    }
    zeros
}

/// `count` empty lists of terms.
fn no_terms(count: usize) -> (lists: Vec<Vec<MoveTerm>>)
    ensures
        lists@.map_values(|terms: Vec<MoveTerm>| terms@) == Seq::new(
            count as nat,
            |i: int| Seq::<MoveTerm>::empty(),
        ),
{
    let mut lists: Vec<Vec<MoveTerm>> = Vec::new();
    for i in 0..count
        invariant
            lists@.len() == i,
            forall|j: int| 0 <= j < i ==> (#[trigger] lists@[j])@ == Seq::<MoveTerm>::empty(),
    {
        lists.push(Vec::new());
    }
    assert(lists@.map_values(|terms: Vec<MoveTerm>| terms@) =~= Seq::new(
        count as nat,
        |i: int| Seq::<MoveTerm>::empty(),
    ));
    lists
}

impl FlowBucket {
    fn new(start: Nanos, symbol: Symbol, edges: usize, horizons: usize) -> (bucket: Self)
        ensures
            bucket@ == FlowBucketView::empty(
                start,
                symbol,
                (edges + 1) as nat,
                horizons as nat,
            ),
    {
        let mut ratio_half_notional = zeros_u128(edges);
        let mut ratio_count = zeros_u64(edges);
        ratio_half_notional.push(0);
        ratio_count.push(0);
        assert(ratio_half_notional@ =~= Seq::new((edges + 1) as nat, |i: int| 0u128));
        assert(ratio_count@ =~= Seq::new((edges + 1) as nat, |i: int| 0u64));
        FlowBucket {
            start,
            symbol,
            market_trades: 0,
            market_qty: 0,
            market_self_trades: 0,
            market_self_qty: 0,
            self_trades: 0,
            self_qty: 0,
            taker_qty: 0,
            maker_qty: 0,
            orders: 0,
            rejected_orders: 0,
            eligible_orders: 0,
            filled_orders: 0,
            fill_events: 0,
            submitted_qty: 0,
            zero_depth_count: 0,
            zero_depth_qty: 0,
            unvalued_count: 0,
            unvalued_qty: 0,
            shortfall_excluded_count: 0,
            market_notional: 0,
            market_self_notional: 0,
            self_notional: 0,
            taker_notional: 0,
            maker_notional: 0,
            zero_depth_half_notional: 0,
            shortfall_taker_base: 0,
            shortfall_maker_base: 0,
            shortfall_excluded_notional: 0,
            ratio_half_notional,
            ratio_count,
            shortfall_taker: Vec::new(),
            shortfall_maker: Vec::new(),
            response_num: no_terms(horizons),
            response_den: zeros_u128(horizons),
            response_count: zeros_u64(horizons),
            response_excluded_notional: zeros_u128(horizons),
            response_excluded_count: zeros_u64(horizons),
        }
    }
}

/// Aggregates matches online and retains pending responses until each horizon
/// resolves. Keeps live and filled order identities to form interval cohorts
/// and distinct run totals.
pub struct FlowRecorder {
    options: FlowOptions,
    symbol: Symbol,
    buckets: Vec<FlowBucket>,
    pending: Vec<VecDeque<PendingResponse>>,
    live: HashSet<u64>,
    filled_in_interval: HashSet<u64>,
    filled_in_previous_interval: HashSet<u64>,
    ever_filled: HashSet<u64>,
    totals: FlowTotals,
    current_interval: usize,
    prevailing_mid2: Option<u64>,
}

impl View for FlowRecorder {
    type V = FlowView;

    closed spec fn view(&self) -> FlowView {
        FlowView {
            agent_id: self.options.agent_id,
            interval_ns: self.options.interval_ns,
            horizons_ns: self.options.horizons_ns@,
            ratio_edges: self.options.ratio_edges@,
            symbol: self.symbol,
            buckets: rows(self.buckets@),
            pending: queues(self.pending@),
            live: self.live@,
            filled_in_interval: self.filled_in_interval@,
            filled_in_previous_interval: self.filled_in_previous_interval@,
            ever_filled: self.ever_filled@,
            totals: self.totals,
            current_interval: self.current_interval as nat,
            prevailing_mid2: self.prevailing_mid2,
        }
    }
}

/// Rows as they are shown.
spec fn rows(buckets: Seq<FlowBucket>) -> Seq<FlowBucketView> {
    buckets.map_values(|bucket: FlowBucket| bucket@)
}

/// Waiting fills as they are shown.
spec fn queues(pending: Seq<VecDeque<PendingResponse>>) -> Seq<Seq<PendingResponse>> {
    pending.map_values(|queue: VecDeque<PendingResponse>| queue@)
}

impl FlowRecorder {
    /// The recorder is valid.
    pub open spec fn wf(&self) -> bool {
        self@.wf()
    }

    /// A recorder that has seen nothing.
    #[must_use]
    pub fn new(options: FlowOptions, symbol: Symbol) -> (recorder: Self)
        requires
            options.interval_ns > 0,
        ensures
            recorder.wf(),
            recorder@ == FlowView::fresh(
                options.agent_id,
                options.interval_ns,
                options.horizons_ns@,
                options.ratio_edges@,
                symbol,
            ),
    {
        let horizons: usize = options.horizons_ns.len();
        let mut pending: Vec<VecDeque<PendingResponse>> = Vec::new();
        for h in 0..horizons
            invariant
                pending@.len() == h,
                forall|j: int| 0 <= j < h ==> (#[trigger] pending@[j])@ == Seq::<PendingResponse>::empty(),
        {
            pending.push(VecDeque::new());
        }
        let recorder = FlowRecorder {
            options,
            symbol,
            buckets: Vec::new(),
            pending,
            live: HashSet::new(),
            filled_in_interval: HashSet::new(),
            filled_in_previous_interval: HashSet::new(),
            ever_filled: HashSet::new(),
            totals: FlowTotals {
                symbol,
                accepted_orders: 0,
                rejected_orders: 0,
                filled_orders: 0,
                fill_events: 0,
            },
            current_interval: 0,
            prevailing_mid2: None,
        };
        assert(recorder@ =~= FlowView::fresh(
            options.agent_id,
            options.interval_ns,
            options.horizons_ns@,
            options.ratio_edges@,
            symbol,
        )) by {
            assert(recorder@.pending =~= Seq::new(
                options.horizons_ns@.len(),
                |i: int| Seq::<PendingResponse>::empty(),
            ));
            assert(recorder@.buckets =~= Seq::<FlowBucketView>::empty());
        }
        recorder
    }

    /// The agent whose fills and orders are tracked.
    #[must_use]
    pub fn watched_agent(&self) -> (agent_id: AgentId)
        ensures
            agent_id == self@.agent_id,
    {
        self.options.agent_id
    }

    /// Whether a watched order rests.
    #[must_use]
    pub fn is_live(&self, order_id: u64) -> (live: bool)
        ensures
            live == self@.live.contains(order_id),
    {
        self.live.contains(&order_id)
    }

    /// Number of fills that wait for the mid at a horizon.
    #[must_use]
    pub fn pending_count(&self, horizon: usize) -> (count: usize)
        requires
            horizon < self@.pending.len(),
        ensures
            count == self@.pending[horizon as int].len(),
    {
        self.pending[horizon].len()
    }

    /// The interval that `time` falls into, if it can be counted.
    fn bucket_index(&self, time: Nanos) -> (index: Option<usize>)
        requires
            self.wf(),
        ensures
            match index {
                Some(index) => self@.reaches(time) && index == self@.index(time),
                None => !self@.reaches(time),
            },
    {
        let index: u64 = time / self.options.interval_ns;
        if index < usize::MAX as u64 {
            Some(index as usize)
        } else {
            None
        }
    }

    /// Make rows up to and including `index`.
    fn bucket_at(&mut self, index: usize)
        requires
            old(self).wf(),
            index < usize::MAX,
            index * old(self)@.interval_ns <= u64::MAX,
        ensures
            final(self)@ == old(self)@.grown(index as nat),
            final(self).wf(),
            index < final(self)@.buckets.len(),
    {
        let ghost before = *self;
        proof {
            lemma_grown_wf(self@, index as nat);
        }
        while self.buckets.len() <= index
            invariant
                index < usize::MAX,
                index * before@.interval_ns <= u64::MAX,
                before@.interval_ns == self.options.interval_ns,
                before@.ratio_edges == self.options.ratio_edges@,
                before@.horizons_ns == self.options.horizons_ns@,
                before@.symbol == self.symbol,
                self@ == (FlowView { buckets: self@.buckets, ..before@ }),
                before@.buckets.len() <= self@.buckets.len(),
                self@.buckets.len() <= index + 1 || self@.buckets.len() == before@.buckets.len(),
                forall|i: int|
                    0 <= i < self@.buckets.len() ==> #[trigger] self@.buckets[i] == (if i
                        < before@.buckets.len() {
                        before@.buckets[i]
                    } else {
                        before@.fresh_bucket(i)
                    }),
            decreases index + 1 - self.buckets.len(),
        {
            let count: u64 = self.buckets.len() as u64;
            proof {
                assert(count * before@.interval_ns <= index * before@.interval_ns)
                    by (nonlinear_arith)
                    requires
                        count <= index,
                        before@.interval_ns >= 0,
                ;
            }
            let start: u64 = count * self.options.interval_ns;
            let ghost shown = self@.buckets;
            let bucket = FlowBucket::new(
                start,
                self.symbol,
                self.options.ratio_edges.len(),
                self.options.horizons_ns.len(),
            );
            self.buckets.push(bucket);
            assert(self@.buckets =~= shown.push(bucket@));
        }
        assert(self@.buckets =~= before@.grown(index as nat).buckets);
    }

    /// Enter every interval up to `index`.
    fn roll_to(&mut self, index: usize)
        requires
            old(self).wf(),
            index < usize::MAX,
            index * old(self)@.interval_ns <= u64::MAX,
        ensures
            final(self)@ == old(self)@.rolled(index as nat),
            final(self).wf(),
    {
        let ghost before = self@;
        proof {
            assert(before.rolled(before.current_interval) == before);
        }
        while self.current_interval < index
            invariant
                before.wf(),
                index < usize::MAX,
                index * before.interval_ns <= u64::MAX,
                before.current_interval <= self.current_interval,
                self.current_interval <= index || self.current_interval == before.current_interval,
                self@ == before.rolled(self.current_interval as nat),
            decreases index - self.current_interval,
        {
            let next: usize = self.current_interval + 1;
            proof {
                lemma_rolled_wf(before, self.current_interval as nat);
                lemma_roll_step(before, self.current_interval as nat);
                assert(next * before.interval_ns <= index * before.interval_ns)
                    by (nonlinear_arith)
                    requires
                        next <= index,
                        before.interval_ns >= 0,
                ;
            }
            self.bucket_at(next);
            let ghost u = self@;
            let carried: u64 = self.live.len() as u64;
            self.current_interval = next;
            self.buckets[next].eligible_orders = carried;
            self.filled_in_previous_interval = HashSet::new();
            std::mem::swap(&mut self.filled_in_previous_interval, &mut self.filled_in_interval);
            proof {
                assert(self@.buckets =~= entered(u, next as nat).buckets);
                assert(self@ =~= entered(u, next as nat));
            }
        }
        proof {
            lemma_rolled_wf(before, index as nat);
        }
    }

    /// Get ready for something that happens at `time`: its interval is the
    /// current one at least, and has a row.
    fn enter(&mut self, time: Nanos) -> (index: Option<usize>)
        requires
            old(self).wf(),
        ensures
            final(self).wf(),
            match index {
                Some(index) => {
                    &&& old(self)@.reaches(time)
                    &&& index == old(self)@.index(time)
                    &&& index < final(self)@.buckets.len()
                    &&& final(self)@ == old(self)@.at(time)
                },
                None => !old(self)@.reaches(time),
            },
    {
        let index = match self.bucket_index(time) {
            Some(index) => index,
            None => {
                return None;
            },
        };
        proof {
            lemma_index_start(time, self@.interval_ns);
        }
        self.roll_to(index);
        self.bucket_at(index);
        Some(index)
    }

    /// An order is accepted. Counts it if it is the watched agent's and the
    /// counters have room; says whether they had.
    pub fn on_accept(&mut self, time: Nanos, agent_id: AgentId, order_id: u64, qty: u64) -> (ok: bool)
        requires
            old(self).wf(),
        ensures
            ok == old(self)@.accept_room(time, agent_id, qty),
            ok ==> final(self)@ == old(self)@.accepted(time, agent_id, order_id, qty),
            ok ==> final(self).wf(),
    {
        if agent_id != self.options.agent_id {
            return true;
        }
        let index = match self.enter(time) {
            Some(index) => index,
            None => {
                return false;
            },
        };
        let ghost now = self@;
        let row = &self.buckets[index];
        let submitted = row.submitted_qty.checked_add(qty);
        if row.orders == u64::MAX || row.eligible_orders == u64::MAX || submitted.is_none()
            || self.totals.accepted_orders == u64::MAX {
            return false;
        }
        let orders: u64 = row.orders + 1;
        let eligible_orders: u64 = row.eligible_orders + 1;
        if let Some(submitted_qty) = submitted {
            self.buckets[index].orders = orders;
            self.buckets[index].eligible_orders = eligible_orders;
            self.buckets[index].submitted_qty = submitted_qty;
        }
        self.live.insert(order_id);
        self.totals.accepted_orders = self.totals.accepted_orders + 1;
        proof {
            assert(self@.buckets =~= old(self)@.accepted(time, agent_id, order_id, qty).buckets);
            assert forall|i: int| 0 <= i < now.buckets.len() implies same_flows(
                #[trigger] now.buckets[i],
                self@.buckets[i],
            ) && self@.row_wf(self@.buckets[i]) by {
                assert(now.row_wf(now.buckets[i]));
            }
            lemma_counts_wf(now, self@);
        }
        true
    }

    /// A new order is rejected. Counts it if it is the watched agent's and the
    /// counters have room; says whether they had.
    pub fn on_reject(&mut self, time: Nanos, agent_id: AgentId) -> (ok: bool)
        requires
            old(self).wf(),
        ensures
            ok == old(self)@.reject_room(time, agent_id),
            ok ==> final(self)@ == old(self)@.rejected(time, agent_id),
            ok ==> final(self).wf(),
    {
        if agent_id != self.options.agent_id {
            return true;
        }
        let index = match self.enter(time) {
            Some(index) => index,
            None => {
                return false;
            },
        };
        let ghost now = self@;
        if self.buckets[index].rejected_orders == u64::MAX || self.totals.rejected_orders
            == u64::MAX {
            return false;
        }
        let rejected_orders: u64 = self.buckets[index].rejected_orders + 1;
        self.buckets[index].rejected_orders = rejected_orders;
        self.totals.rejected_orders = self.totals.rejected_orders + 1;
        proof {
            assert(self@.buckets =~= old(self)@.rejected(time, agent_id).buckets);
            assert forall|i: int| 0 <= i < now.buckets.len() implies same_flows(
                #[trigger] now.buckets[i],
                self@.buckets[i],
            ) && self@.row_wf(self@.buckets[i]) by {
                assert(now.row_wf(now.buckets[i]));
            }
            lemma_counts_wf(now, self@);
        }
        true
    }

    /// An order left the book. Says whether its interval can be counted.
    pub fn on_order_gone(&mut self, time: Nanos, order_id: u64) -> (ok: bool)
        requires
            old(self).wf(),
        ensures
            ok == old(self)@.reaches(time),
            ok ==> final(self)@ == old(self)@.gone(time, order_id),
            ok ==> final(self).wf(),
    {
        let index = match self.bucket_index(time) {
            Some(index) => index,
            None => {
                return false;
            },
        };
        proof {
            lemma_index_start(time, self@.interval_ns);
        }
        self.roll_to(index);
        let ghost now = self@;
        self.live.remove(&order_id);
        self.ever_filled.remove(&order_id);
        proof {
            assert(self@ =~= old(self)@.gone(time, order_id));
            assert forall|i: int| 0 <= i < now.buckets.len() implies same_flows(
                #[trigger] now.buckets[i],
                self@.buckets[i],
            ) && self@.row_wf(self@.buckets[i]) by {
                assert(now.row_wf(now.buckets[i]));
            }
            lemma_counts_wf(now, self@);
        }
        true
    }

    /// The bin of an order's notional relative to a depth.
    fn bin_of(&self, half_notional: u128, depth: u128) -> (bin: usize)
        ensures
            bin == ratio_bin(self@.ratio_edges, half_notional, depth),
            bin <= self@.ratio_edges.len(),
    {
        let edges = &self.options.ratio_edges;
        let mut bin: usize = 0;
        assert(edges@.skip(0) =~= edges@);
        while bin < edges.len()
            invariant
                bin <= edges@.len(),
                ratio_bin(edges@, half_notional, depth) == bin + ratio_bin(
                    edges@.skip(bin as int),
                    half_notional,
                    depth,
                ),
            ensures
                bin <= edges@.len(),
                ratio_bin(edges@, half_notional, depth) == bin,
            decreases edges.len() - bin,
        {
            let ghost rest = edges@.skip(bin as int);
            if !reaches_edge(edges[bin], half_notional, depth) {
                break;
            }
            assert(rest.drop_first() =~= edges@.skip(bin + 1));
            bin = bin + 1;
        }
        bin
    }

    /// An order meets the depth on the other side. Counts it by the ratio of
    /// its value to that depth if the counters have room; says whether they
    /// had.
    #[verifier::rlimit(60)]
    pub fn on_depth(
        &mut self,
        time: Nanos,
        qty: u64,
        half_notional: Option<u128>,
        depth_notional: u128,
    ) -> (ok: bool)
        requires
            old(self).wf(),
        ensures
            ok == old(self)@.size_room(time, qty, half_notional, depth_notional),
            ok ==> final(self)@ == old(self)@.sized(time, qty, half_notional, depth_notional),
            ok ==> final(self).wf(),
    {
        let index = match self.enter(time) {
            Some(index) => index,
            None => {
                return false;
            },
        };
        let ghost now = self@;
        match half_notional {
            None => {
                let qty_sum = self.buckets[index].unvalued_qty.checked_add(qty);
                let count: u64 = self.buckets[index].unvalued_count;
                match qty_sum {
                    Some(unvalued_qty) if count < u64::MAX => {
                        self.buckets[index].unvalued_count = count + 1;
                        self.buckets[index].unvalued_qty = unvalued_qty;
                    },
                    _ => {
                        return false;
                    },
                }
            },
            Some(value) => {
                if depth_notional == 0 {
                    let qty_sum = self.buckets[index].zero_depth_qty.checked_add(qty);
                    let sum = self.buckets[index].zero_depth_half_notional.checked_add(value);
                    let count: u64 = self.buckets[index].zero_depth_count;
                    match (qty_sum, sum) {
                        (Some(zero_depth_qty), Some(zero_depth_half_notional)) if count
                            < u64::MAX => {
                            self.buckets[index].zero_depth_count = count + 1;
                            self.buckets[index].zero_depth_qty = zero_depth_qty;
                            self.buckets[index].zero_depth_half_notional =
                            zero_depth_half_notional;
                        },
                        _ => {
                            return false;
                        },
                    }
                } else {
                    let bin = self.bin_of(value, depth_notional);
                    proof {
                        assert(now.row_wf(now.buckets[index as int]));
                    }
                    let sum = self.buckets[index].ratio_half_notional[bin].checked_add(value);
                    let count: u64 = self.buckets[index].ratio_count[bin];
                    match sum {
                        Some(ratio_half_notional) if count < u64::MAX => {
                            self.buckets[index].ratio_count[bin] = count + 1;
                            self.buckets[index].ratio_half_notional[bin] = ratio_half_notional;
                        },
                        _ => {
                            return false;
                        },
                    }
                }
            },
        }
        proof {
            assert(self@.buckets =~= old(self)@.sized(
                time,
                qty,
                half_notional,
                depth_notional,
            ).buckets);
            assert forall|i: int| 0 <= i < now.buckets.len() implies same_flows(
                #[trigger] now.buckets[i],
                self@.buckets[i],
            ) && self@.row_wf(self@.buckets[i]) by {
                assert(now.row_wf(now.buckets[i]));
            }
            lemma_counts_wf(now, self@);
        }
        true
    }
}

impl FlowRecorder {
    /// Settle the oldest waiting fill of a horizon against `mid2`.
    fn settle(&mut self, horizon: usize, mid2: Option<u64>)
        requires
            old(self).wf(),
            horizon < old(self)@.pending.len(),
            old(self)@.pending[horizon as int].len() > 0,
        ensures
            final(self)@ == old(self)@.settled(horizon as int, mid2),
            final(self).wf(),
    {
        let ghost before = self@;
        let ghost h = horizon as int;
        let entry: PendingResponse = self.pending[horizon][0];
        proof {
            assert(entry == before.pending[h][0]);
            lemma_settled_wf(before, h, mid2);
        }
        self.pending[horizon].pop_front();
        let j: usize = entry.bucket;
        match mid2 {
            Some(mid2) => {
                let den: u128 = self.buckets[j].response_den[horizon] + entry.notional;
                let count: u64 = self.buckets[j].response_count[horizon] + 1;
                let term = MoveTerm {
                    side: entry.side,
                    notional: entry.notional,
                    from2: entry.mid2,
                    to2: mid2,
                };
                self.buckets[j].response_num[horizon].push(term);
                self.buckets[j].response_den[horizon] = den;
                self.buckets[j].response_count[horizon] = count;
            },
            None => {
                let notional: u128 = self.buckets[j].response_excluded_notional[horizon]
                    + entry.notional;
                let count: u64 = self.buckets[j].response_excluded_count[horizon] + 1;
                self.buckets[j].response_excluded_notional[horizon] = notional;
                self.buckets[j].response_excluded_count[horizon] = count;
            },
        }
        proof {
            let after = before.settled(h, mid2);
            assert(self@.pending =~= after.pending);
            assert(self@.buckets[j as int].response_num =~= after.buckets[j as int].response_num);
            assert(self@.buckets[j as int] =~= after.buckets[j as int]);
            assert(self@.buckets =~= after.buckets);
        }
    }

    /// Settle every fill that is due before a time with the prevailing mid.
    fn resolve_due(&mut self, before: Nanos)
        requires
            old(self).wf(),
        ensures
            final(self)@ == old(self)@.resolved(before),
            final(self).wf(),
            final(self)@.same_setup(old(self)@),
    {
        let ghost start = self@;
        let mid2 = self.prevailing_mid2;
        let mut horizon: usize = 0;
        while horizon < self.pending.len()
            invariant
                self.wf(),
                self@.same_setup(start),
                mid2 == start.prevailing_mid2,
                horizon <= self@.pending.len(),
                self@ == start.resolved_upto(horizon as nat, before),
            decreases self@.pending.len() - horizon,
        {
            let ghost goal = self@.resolved_at(horizon as int, before);
            while self.pending[horizon].len() > 0
                invariant
                    self.wf(),
                    self@.same_setup(start),
                    mid2 == start.prevailing_mid2,
                    horizon < self@.pending.len(),
                    self@.resolved_at(horizon as int, before) == goal,
                ensures
                    self@ == goal,
                decreases self@.pending[horizon as int].len(),
            {
                let due: u64 = self.pending[horizon][0].due;
                if due >= before {
                    break;
                }
                self.settle(horizon, mid2);
            }
            horizon = horizon + 1;
        }
    }

    /// The best quotes changed: settle what is due, and take the new mid.
    pub fn on_quote(&mut self, time: Nanos, bid_price: i64, ask_price: i64)
        requires
            old(self).wf(),
        ensures
            final(self)@ == old(self)@.quoted(time, bid_price, ask_price),
            final(self).wf(),
    {
        self.resolve_due(time);
        let ghost now = self@;
        self.prevailing_mid2 =
        if bid_price > 0 && ask_price > 0 {
            Some(bid_price as u64 + ask_price as u64)
        } else {
            None
        };
        proof {
            assert forall|i: int| 0 <= i < now.buckets.len() implies same_flows(
                #[trigger] now.buckets[i],
                self@.buckets[i],
            ) && self@.row_wf(self@.buckets[i]) by {
                assert(now.row_wf(now.buckets[i]));
            }
            lemma_counts_wf(now, self@);
        }
    }
}

impl FlowRecorder {
    /// Count a match between orders of one owner. Says whether the counters
    /// had room.
    fn count_self_match(&mut self, index: usize, fill: FlowFill, notional: u128) -> (ok: bool)
        requires
            old(self).wf(),
            index < old(self)@.buckets.len(),
            fill.price >= 0,
            notional == notional_of(fill.price, fill.qty),
        ensures
            ({
                let row = old(self)@.buckets[index as int];
                &&& ok == (row.market_self_trades < u64::MAX && row.market_self_qty + fill.qty
                    <= u64::MAX && row.market_self_notional + notional <= u128::MAX)
                &&& ok ==> final(self)@ == FlowView {
                    buckets: old(self)@.buckets.update(
                        index as int,
                        old(self)@.self_matched(row, fill),
                    ),
                    ..old(self)@
                }
            }),
    {
        let ghost before = self@;
        proof {
            assert(before.row_wf(before.buckets[index as int]));
        }
        let row = &self.buckets[index];
        let trades: u64 = row.market_self_trades;
        let qty_sum = row.market_self_qty.checked_add(fill.qty);
        let notional_sum = row.market_self_notional.checked_add(notional);
        match (qty_sum, notional_sum) {
            (Some(qty_sum), Some(notional_sum)) => {
                if trades == u64::MAX {
                    return false;
                }
                if fill.taker_agent == self.options.agent_id {
                    let self_trades: u64 = self.buckets[index].self_trades + 1;
                    let self_qty: u64 = self.buckets[index].self_qty + fill.qty;
                    let self_notional: u128 = self.buckets[index].self_notional + notional;
                    self.buckets[index].self_trades = self_trades;
                    self.buckets[index].self_qty = self_qty;
                    self.buckets[index].self_notional = self_notional;
                }
                self.buckets[index].market_self_trades = trades + 1;
                self.buckets[index].market_self_qty = qty_sum;
                self.buckets[index].market_self_notional = notional_sum;
                assert(self@.buckets =~= before.buckets.update(
                    index as int,
                    before.self_matched(before.buckets[index as int], fill),
                ));
                true
            },
            _ => false,
        }
    }

    /// Count a match between different owners. Says whether the counters had
    /// room.
    fn count_market_match(&mut self, index: usize, fill: FlowFill, notional: u128) -> (ok: bool)
        requires
            old(self).wf(),
            index < old(self)@.buckets.len(),
            notional == notional_of(fill.price, fill.qty),
        ensures
            ({
                let row = old(self)@.buckets[index as int];
                &&& ok == (row.market_trades < u64::MAX && row.market_qty + fill.qty <= u64::MAX
                    && row.market_notional + notional <= u128::MAX)
                &&& ok ==> final(self)@ == FlowView {
                    buckets: old(self)@.buckets.update(
                        index as int,
                        old(self)@.market_matched(row, fill),
                    ),
                    ..old(self)@
                }
            }),
    {
        let ghost before = self@;
        let row = &self.buckets[index];
        let trades: u64 = row.market_trades;
        let qty_sum = row.market_qty.checked_add(fill.qty);
        let notional_sum = row.market_notional.checked_add(notional);
        match (qty_sum, notional_sum) {
            (Some(qty_sum), Some(notional_sum)) => {
                if trades == u64::MAX {
                    return false;
                }
                self.buckets[index].market_trades = trades + 1;
                self.buckets[index].market_qty = qty_sum;
                self.buckets[index].market_notional = notional_sum;
                assert(self@.buckets =~= before.buckets.update(
                    index as int,
                    before.market_matched(before.buckets[index as int], fill),
                ));
                true
            },
            _ => false,
        }
    }

    /// Count one more excluded response for every horizon of a row.
    fn exclude_responses(&mut self, index: usize, notional: u128)
        requires
            index < old(self)@.buckets.len(),
            ({
                let row = old(self)@.buckets[index as int];
                &&& row.response_excluded_notional.len() == old(self)@.horizons_ns.len()
                &&& row.response_excluded_count.len() == old(self)@.horizons_ns.len()
                &&& forall|h: int|
                    0 <= h < row.response_excluded_notional.len() ==> (
                    #[trigger] row.response_excluded_notional[h]) + notional <= u128::MAX
                &&& forall|h: int|
                    0 <= h < row.response_excluded_count.len() ==> (
                    #[trigger] row.response_excluded_count[h]) < u64::MAX
            }),
        ensures
            ({
                let row = old(self)@.buckets[index as int];
                final(self)@ == FlowView {
                    buckets: old(self)@.buckets.update(
                        index as int,
                        FlowBucketView {
                            response_excluded_notional: Seq::new(
                                row.response_excluded_notional.len(),
                                |h: int| (row.response_excluded_notional[h] + notional) as u128,
                            ),
                            response_excluded_count: Seq::new(
                                row.response_excluded_count.len(),
                                |h: int| (row.response_excluded_count[h] + 1) as u64,
                            ),
                            ..row
                        },
                    ),
                    ..old(self)@
                }
            }),
    {
        let ghost before = self@;
        let ghost row = before.buckets[index as int];
        let horizons: usize = self.options.horizons_ns.len();
        proof {
            assert(partly_excluded(row, 0, notional) =~= row);
            assert(before.buckets.update(index as int, row) =~= before.buckets);
        }
        for h in 0..horizons
            invariant
                horizons == before.horizons_ns.len(),
                index < before.buckets.len(),
                row == before.buckets[index as int],
                row.response_excluded_notional.len() == horizons,
                row.response_excluded_count.len() == horizons,
                forall|k: int|
                    0 <= k < horizons ==> (#[trigger] row.response_excluded_notional[k]) + notional
                        <= u128::MAX,
                forall|k: int|
                    0 <= k < horizons ==> (#[trigger] row.response_excluded_count[k]) < u64::MAX,
                self@ == (FlowView {
                    buckets: before.buckets.update(
                        index as int,
                        partly_excluded(row, h as int, notional),
                    ),
                    ..before
                }),
        {
            let ghost all = self@.buckets;
            let ghost shown = self@.buckets[index as int];
            assert(self@.buckets == before.buckets.update(
                index as int,
                partly_excluded(row, h as int, notional),
            ));
            assert(self.buckets@.len() == before.buckets.len());
            assert(self.buckets@[index as int]@ == shown);
            assert(shown == partly_excluded(row, h as int, notional));
            assert(shown.response_excluded_notional[h as int]
                == row.response_excluded_notional[h as int]);
            assert(shown.response_excluded_count[h as int]
                == row.response_excluded_count[h as int]);
            let sum: u128 = self.buckets[index].response_excluded_notional[h] + notional;
            let count: u64 = self.buckets[index].response_excluded_count[h] + 1;
            self.buckets[index].response_excluded_notional[h] = sum;
            self.buckets[index].response_excluded_count[h] = count;
            proof {
                let next = partly_excluded(row, h + 1, notional);
                assert(self@.buckets[index as int] =~= next);
                assert(self@.buckets =~= all.update(index as int, next));
                assert(self@.buckets =~= before.buckets.update(index as int, next));
            }
        }
        proof {
            let whole = partly_excluded(row, horizons as int, notional);
            assert(whole.response_excluded_notional =~= Seq::new(
                row.response_excluded_notional.len(),
                |k: int| (row.response_excluded_notional[k] + notional) as u128,
            ));
            assert(whole.response_excluded_count =~= Seq::new(
                row.response_excluded_count.len(),
                |k: int| (row.response_excluded_count[k] + 1) as u64,
            ));
        }
    }
}

impl FlowRecorder {
    /// Count the watched agent's part in an external match.
    fn count_watched_match(
        &mut self,
        index: usize,
        fill: FlowFill,
        notional: u128,
        first_here: bool,
    )
        requires
            index < old(self)@.buckets.len(),
            fill.price >= 0,
            notional == notional_of(fill.price, fill.qty),
            ({
                let row = old(self)@.buckets[index as int];
                &&& row.response_excluded_notional.len() == old(self)@.horizons_ns.len()
                &&& row.response_excluded_count.len() == old(self)@.horizons_ns.len()
                &&& row.fill_events < u64::MAX
                &&& row.filled_orders < u64::MAX
                &&& row.taker_qty + fill.qty <= u64::MAX
                &&& row.maker_qty + fill.qty <= u64::MAX
                &&& row.taker_notional + notional <= u128::MAX
                &&& row.maker_notional + notional <= u128::MAX
                &&& row.shortfall_taker_base + notional <= u128::MAX
                &&& row.shortfall_maker_base + notional <= u128::MAX
                &&& row.shortfall_excluded_count < u64::MAX
                &&& row.shortfall_excluded_notional + notional <= u128::MAX
                &&& forall|h: int|
                    0 <= h < row.response_excluded_notional.len() ==> (
                    #[trigger] row.response_excluded_notional[h]) + notional <= u128::MAX
                &&& forall|h: int|
                    0 <= h < row.response_excluded_count.len() ==> (
                    #[trigger] row.response_excluded_count[h]) < u64::MAX
            }),
        ensures
            final(self)@ == (FlowView {
                buckets: old(self)@.buckets.update(
                    index as int,
                    old(self)@.watched_matched(
                        old(self)@.buckets[index as int],
                        fill,
                        first_here,
                    ),
                ),
                ..old(self)@
            }),
    {
        let ghost before = self@;
        let takes = fill.taker_agent == self.options.agent_id;
        let fill_events: u64 = self.buckets[index].fill_events + 1;
        self.buckets[index].fill_events = fill_events;
        if first_here {
            let filled_orders: u64 = self.buckets[index].filled_orders + 1;
            self.buckets[index].filled_orders = filled_orders;
        }
        if takes {
            let qty: u64 = self.buckets[index].taker_qty + fill.qty;
            let sum: u128 = self.buckets[index].taker_notional + notional;
            self.buckets[index].taker_qty = qty;
            self.buckets[index].taker_notional = sum;
        } else {
            let qty: u64 = self.buckets[index].maker_qty + fill.qty;
            let sum: u128 = self.buckets[index].maker_notional + notional;
            self.buckets[index].maker_qty = qty;
            self.buckets[index].maker_notional = sum;
        }
        match fill.mid2 {
            Some(mid2) => {
                let side = if takes {
                    fill.taker_side
                } else {
                    fill.taker_side.opposite()
                };
                let term = MoveTerm { side, notional, from2: mid2, to2: fill.price as u64 * 2 };
                if takes {
                    let base: u128 = self.buckets[index].shortfall_taker_base + notional;
                    self.buckets[index].shortfall_taker.push(term);
                    self.buckets[index].shortfall_taker_base = base;
                } else {
                    let base: u128 = self.buckets[index].shortfall_maker_base + notional;
                    self.buckets[index].shortfall_maker.push(term);
                    self.buckets[index].shortfall_maker_base = base;
                }
                assert(self@.buckets =~= before.buckets.update(
                    index as int,
                    before.watched_matched(before.buckets[index as int], fill, first_here),
                ));
            },
            None => {
                let count: u64 = self.buckets[index].shortfall_excluded_count + 1;
                let sum: u128 = self.buckets[index].shortfall_excluded_notional + notional;
                self.buckets[index].shortfall_excluded_count = count;
                self.buckets[index].shortfall_excluded_notional = sum;
                self.exclude_responses(index, notional);
                assert(self@.buckets =~= before.buckets.update(
                    index as int,
                    before.watched_matched(before.buckets[index as int], fill, first_here),
                ));
            },
        }
    }

    /// Every horizon of a fill at `time` lies within the range of times.
    fn horizons_fit(&self, time: Nanos) -> (fit: bool)
        ensures
            fit == all_reachable(self@.horizons_ns, time),
    {
        let horizons = &self.options.horizons_ns;
        for h in 0..horizons.len()
            invariant
                horizons@ == self@.horizons_ns,
                forall|k: int| 0 <= k < h ==> time + #[trigger] horizons@[k] <= u64::MAX,
        {
            if time.checked_add(horizons[h]).is_none() {
                assert(time + self@.horizons_ns[h as int] > u64::MAX);
                return false;
            }
        }
        true
    }

    /// Let a watched fill wait for the mid at each horizon.
    fn await_responses(&mut self, index: usize, fill: FlowFill, notional: u128, mid2: u64)
        requires
            old(self)@.pending.len() == old(self)@.horizons_ns.len(),
            index == old(self)@.index(fill.time),
            notional == notional_of(fill.price, fill.qty),
            fill.mid2 == Some(mid2),
            all_reachable(old(self)@.horizons_ns, fill.time),
        ensures
            final(self)@ == (FlowView {
                pending: old(self)@.pending_with(fill),
                ..old(self)@
            }),
    {
        let ghost before = self@;
        let ghost goal = before.pending_with(fill);
        let side = if fill.taker_agent == self.options.agent_id {
            fill.taker_side
        } else {
            fill.taker_side.opposite()
        };
        let horizons: usize = self.options.horizons_ns.len();
        for h in 0..horizons
            invariant
                horizons == before.horizons_ns.len(),
                before.pending.len() == horizons,
                goal == before.pending_with(fill),
                side == before.watched_side(fill),
                index == before.index(fill.time),
                notional == notional_of(fill.price, fill.qty),
                fill.mid2 == Some(mid2),
                all_reachable(before.horizons_ns, fill.time),
                self@ == (FlowView { pending: self@.pending, ..before }),
                self@.pending.len() == before.pending.len(),
                forall|k: int|
                    0 <= k < before.pending.len() ==> #[trigger] self@.pending[k] == if k < h {
                        goal[k]
                    } else {
                        before.pending[k]
                    },
        {
            assert(self@.horizons_ns == before.horizons_ns);
            let ghost all = self@.pending;
            let delay: u64 = self.options.horizons_ns[h];
            assert(delay == before.horizons_ns[h as int]);
            let entry = PendingResponse {
                due: fill.time + delay,
                bucket: index,
                side,
                notional,
                mid2,
            };
            assert(self.pending@[h as int]@ == all[h as int]);
            self.pending[h].push_back(entry);
            assert(self@.pending[h as int] =~= goal[h as int]);
            assert(self@.pending =~= all.update(h as int, goal[h as int]));
        }
        assert(self@.pending =~= goal);
    }

    /// A match happened: settle what is due, then count the match if the
    /// counters have room; says whether they had.
    #[verifier::rlimit(60)]
    pub fn on_fill(&mut self, fill: FlowFill) -> (ok: bool)
        requires
            old(self).wf(),
            fill.price >= 0,
        ensures
            ok == old(self)@.fill_room(fill),
            ok ==> final(self)@ == old(self)@.filled(fill),
            ok ==> final(self).wf(),
    {
        let ghost start = self@;
        self.resolve_due(fill.time);
        let ghost settled = self@;
        let index = match self.enter(fill.time) {
            Some(index) => index,
            None => {
                return false;
            },
        };
        let ghost now = self@;
        let ghost row = now.buckets[index as int];
        proof {
            lemma_notional_fits(fill.price, fill.qty);
            lemma_at_wf(settled, fill.time);
            assert(now.row_wf(row));
            if start.fill_room(fill) {
                lemma_filled_wf(start, fill);
            }
        }
        let notional: u128 = fill.price as u128 * fill.qty as u128;
        let same_owner = match fill.maker_agent {
            Some(maker_agent) => maker_agent == fill.taker_agent,
            None => false,
        };
        if same_owner {
            return self.count_self_match(index, fill, notional);
        }
        if !self.count_market_match(index, fill, notional) {
            return false;
        }
        let ghost counted = self@;
        let takes = fill.taker_agent == self.options.agent_id;
        let makes = match fill.maker_agent {
            Some(maker_agent) => maker_agent == self.options.agent_id,
            None => false,
        };
        if !takes && !makes {
            return true;
        }
        if self.totals.fill_events == u64::MAX {
            return false;
        }
        if fill.mid2.is_some() && !self.horizons_fit(fill.time) {
            return false;
        }
        let order_id: u64 = if makes {
            fill.maker_order_id
        } else {
            fill.taker_order_id
        };
        let first_here = self.filled_in_interval.insert(order_id);
        let first_ever = self.ever_filled.insert(order_id);
        self.totals.fill_events = self.totals.fill_events + 1;
        if first_ever {
            self.totals.filled_orders = self.totals.filled_orders + 1;
        }
        proof {
            assert forall|h: int| 0 <= h < now.pending.len() implies row.response_excluded_count[h]
                <= row.fill_events && row.response_excluded_notional[h] <= row.taker_notional
                + row.maker_notional by {
                assert(now.pending[h] == now.pending[h] && now.buckets[index as int]
                    == now.buckets[index as int]);
                assert(now.balanced(h, index as int));
            }
        }
        self.count_watched_match(index, fill, notional, first_here);
        if let Some(mid2) = fill.mid2 {
            self.await_responses(index, fill, notional, mid2);
        }
        proof {
            let goal = start.filled(fill);
            assert(self@.buckets =~= goal.buckets);
            assert(self@.pending =~= goal.pending);
            assert(self@ =~= goal);
        }
        true
    }
}

impl FlowRecorder {
    /// Exclude every fill that still waits.
    fn drop_pending(&mut self)
        requires
            old(self).wf(),
        ensures
            final(self)@ == old(self)@.dropped_upto(old(self)@.horizons_ns.len()),
            final(self).wf(),
    {
        let ghost start = self@;
        let mut horizon: usize = 0;
        while horizon < self.pending.len()
            invariant
                self.wf(),
                start.wf(),
                self@.same_setup(start),
                horizon <= self@.pending.len(),
                self@ == start.dropped_upto(horizon as nat),
            decreases self@.pending.len() - horizon,
        {
            let ghost goal = self@.dropped_at(horizon as int);
            while self.pending[horizon].len() > 0
                invariant
                    self.wf(),
                    self@.same_setup(start),
                    horizon < self@.pending.len(),
                    self@.dropped_at(horizon as int) == goal,
                decreases self@.pending[horizon as int].len(),
            {
                self.settle(horizon, None);
            }
            horizon = horizon + 1;
        }
    }

    /// Orders filled in the current interval and in the one before.
    fn count_repeat_filled(&self) -> (count: u64)
        requires
            self@.filled_in_interval.finite(),
        ensures
            count == self@.repeat_filled(),
    {
        let here = &self.filled_in_interval;
        let before = &self.filled_in_previous_interval;
        let ghost common = here@.intersect(before@);
        let mut count: u64 = 0;
        let ghost mut seen: Set<u64> = Set::empty();
        let total: usize = here.len();
        for id in it: here.iter()
            invariant
                here@.finite(),
                common == here@.intersect(before@),
                it.seq() == here.iter().remaining(),
                it.seq().no_duplicates(),
                it.seq().len() == total,
                seen.finite(),
                count == seen.len(),
                count <= it.index(),
                seen.subset_of(common),
                forall|x: u64|
                    seen.contains(x) <==> common.contains(x) && exists|j: int|
                        0 <= j < it.index() && *(#[trigger] it.seq()[j]) == x,
        {
            assert(it.seq()[it.index() as int] == id);
            proof {
                assert(it.seq().unref()[it.index() as int] == *id);
                assert(it.seq().unref().to_set().contains(*id));
                assert(here@.contains(*id));
            }
            if before.contains(id) {
                proof {
                    assert(common.contains(*id));
                    if seen.contains(*id) {
                        let j = choose|j: int|
                            0 <= j < it.index() && *(#[trigger] it.seq()[j]) == *id;
                        assert(it.seq()[j] == it.seq()[it.index() as int]);
                    }
                    seen = seen.insert(*id);
                }
                count = count + 1;
            }
        }
        proof {
            assert forall|x: u64| common.contains(x) implies seen.contains(x) by {
                assert(here@.contains(x));
                assert(here.iter().remaining().unref().to_set().contains(x));
                let j = choose|j: int|
                    0 <= j < here.iter().remaining().unref().len()
                        && here.iter().remaining().unref()[j] == x;
                assert(*here.iter().remaining()[j] == x);
            }
            assert(seen =~= common);
        }
        count
    }

    /// Add the last row, past the run's last interval, to that interval. Says
    /// whether every sum fits.
    fn fold_last(&mut self, last: usize) -> (ok: bool)
        requires
            shaped(old(self)@),
            old(self)@.filled_in_interval.finite(),
            old(self)@.filled_in_previous_interval.finite(),
            old(self)@.buckets.len() > last + 1,
        ensures
            ok == old(self)@.fold_once_room(last as int),
            ok ==> final(self)@ == old(self)@.folded_once(last as int),
    {
        let ghost before = self@;
        let ghost stored = self.buckets@;
        proof {
            assert(row_shaped(before, before.buckets[last as int]));
            assert(row_shaped(before, before.buckets[before.buckets.len() - 1]));
        }
        let repeat: u64 = self.count_repeat_filled();
        match self.buckets.pop() {
            Some(terminal) => {
                assert(terminal@ == before.buckets.last());
                let eligible = self.buckets[last].eligible_orders.checked_add(terminal.orders);
                if repeat > terminal.filled_orders {
                    return false;
                }
                let filled = self.buckets[last].filled_orders.checked_add(
                    terminal.filled_orders - repeat,
                );
                let mut row = FlowBucket::new(0, 0, 0, 0);
                std::mem::swap(&mut row, &mut self.buckets[last]);
                if !add_terminal_flows(&mut row, terminal) {
                    return false;
                }
                match (eligible, filled) {
                    (Some(eligible_orders), Some(filled_orders)) => {
                        row.eligible_orders = eligible_orders;
                        row.filled_orders = filled_orders;
                    },
                    _ => {
                        return false;
                    },
                }
                self.buckets[last] = row;
                self.filled_in_interval = HashSet::new();
                proof {
                    let goal = before.folded_once(last as int);
                    assert(self@.buckets[last as int] =~= goal.buckets[last as int]);
                    assert(self@.buckets =~= goal.buckets);
                }
                true
            },
            None => false,
        }
    }

    /// Resolve responses through `end_time`, exclude later horizons, and drain
    /// the interval rows. Events at `end_time` enter the final interval without
    /// repeating filled orders. `None` means that a sum did not fit.
    #[verifier::rlimit(60)]
    pub fn flush(&mut self, end_time: Nanos) -> (drained: Option<(Vec<FlowBucket>, FlowTotals)>)
        requires
            old(self).wf(),
        ensures
            drained is Some <==> old(self)@.finish_room(end_time),
            drained matches Some((drained_rows, totals)) ==> {
                &&& drained_rows@.map_values(|bucket: FlowBucket| bucket@) == old(self)@.finished(
                    end_time,
                ).buckets
                &&& totals == old(self)@.totals
                &&& final(self)@ == FlowView {
                    buckets: Seq::empty(),
                    ..old(self)@.finished(end_time)
                }
                &&& final(self).wf()
            },
    {
        let ghost start = self@;
        let before: u64 = if end_time < u64::MAX {
            end_time + 1
        } else {
            end_time
        };
        self.resolve_due(before);
        self.drop_pending();
        let ghost closed = self@;
        proof {
            lemma_resolved_upto_setup(start, start.horizons_ns.len(), before);
            lemma_dropped_upto(start.resolved(before), start.horizons_ns.len());
        }
        let last_time: u64 = if end_time > 0 {
            end_time - 1
        } else {
            0
        };
        let last: usize = match self.bucket_index(last_time) {
            Some(last) => last,
            None => {
                return None;
            },
        };
        proof {
            lemma_index_start(last_time, self@.interval_ns);
        }
        self.bucket_at(last);
        self.roll_to(last);
        let ghost rolled = self@;
        proof {
            lemma_wf_shaped(self@);
        }
        while self.buckets.len() > last + 1
            invariant
                last < usize::MAX,
                start == old(self)@,
                last == start.last_index(end_time),
                rolled == start.closed_off(end_time).grown(last as nat).rolled(last as nat),
                shaped(self@),
                self@.filled_in_interval.finite(),
                self@.filled_in_previous_interval.finite(),
                self@ == (FlowView {
                    buckets: self@.buckets,
                    filled_in_interval: self@.filled_in_interval,
                    ..rolled
                }),
                rolled.folded(last as nat) == self@.folded(last as nat),
                rolled.fold_room(last as nat) == self@.fold_room(last as nat),
            decreases self.buckets.len(),
        {
            let ghost now = self@;
            if !self.fold_last(last) {
                return None;
            }
            proof {
                lemma_folded_once_shaped(now, last as nat);
            }
        }
        let mut drained: Vec<FlowBucket> = Vec::new();
        std::mem::swap(&mut drained, &mut self.buckets);
        proof {
            let done = self@;
            assert(done.buckets =~= Seq::empty());
            assert forall|h: int, k: int|
                0 <= h < done.pending.len() && 0 <= k < done.pending[h].len() implies (
            #[trigger] done.pending[h][k]).bucket < done.buckets.len() by {
                assert(closed.pending[h].len() == 0);
            }
        }
        Some((drained, self.totals))
    }
}

/// A row with one more excluded response at each of the first `upto`
/// horizons.
spec fn partly_excluded(row: FlowBucketView, upto: int, notional: u128) -> FlowBucketView {
    FlowBucketView {
        response_excluded_notional: Seq::new(
            row.response_excluded_notional.len(),
            |k: int|
                if k < upto {
                    (row.response_excluded_notional[k] + notional) as u128
                } else {
                    row.response_excluded_notional[k]
                },
        ),
        response_excluded_count: Seq::new(
            row.response_excluded_count.len(),
            |k: int|
                if k < upto {
                    (row.response_excluded_count[k] + 1) as u64
                } else {
                    row.response_excluded_count[k]
                },
        ),
        ..row
    }
}

/// Add to a count. Says whether the sum fits.
fn plus_u64(total: &mut u64, part: u64) -> (ok: bool)
    ensures
        ok == (*old(total) + part <= u64::MAX),
        ok ==> *final(total) == *old(total) + part,
{
    match total.checked_add(part) {
        Some(sum) => {
            *total = sum;
            true
        },
        None => false,
    }
}

/// Add to a sum. Says whether the result fits.
fn plus_u128(total: &mut u128, part: u128) -> (ok: bool)
    ensures
        ok == (*old(total) + part <= u128::MAX),
        ok ==> *final(total) == *old(total) + part,
{
    match total.checked_add(part) {
        Some(sum) => {
            *total = sum;
            true
        },
        None => false,
    }
}

/// Add element by element. Says whether every sum fits.
fn plus_each_u64(totals: &mut Vec<u64>, parts: &Vec<u64>) -> (ok: bool)
    requires
        old(totals)@.len() == parts@.len(),
    ensures
        ok == sums_fit_u64(old(totals)@, parts@),
        ok ==> final(totals)@ == sums_u64(old(totals)@, parts@),
{
    let ghost before = totals@;
    let count: usize = totals.len();
    for i in 0..count
        invariant
            count == before.len(),
            before == old(totals)@,
            before.len() == parts@.len(),
            totals@.len() == before.len(),
            forall|k: int| 0 <= k < i ==> #[trigger] before[k] + parts@[k] <= u64::MAX,
            forall|k: int|
                0 <= k < before.len() ==> #[trigger] totals@[k] == if k < i {
                    (before[k] + parts@[k]) as u64
                } else {
                    before[k]
                },
    {
        assert(totals@[i as int] == before[i as int]);
        match totals[i].checked_add(parts[i]) {
            Some(sum) => {
                totals[i] = sum;
            },
            None => {
                return false;
            },
        }
    }
    assert(totals@ =~= sums_u64(before, parts@));
    true
}

/// Add element by element. Says whether every sum fits.
fn plus_each_u128(totals: &mut Vec<u128>, parts: &Vec<u128>) -> (ok: bool)
    requires
        old(totals)@.len() == parts@.len(),
    ensures
        ok == sums_fit_u128(old(totals)@, parts@),
        ok ==> final(totals)@ == sums_u128(old(totals)@, parts@),
{
    let ghost before = totals@;
    let count: usize = totals.len();
    for i in 0..count
        invariant
            count == before.len(),
            before == old(totals)@,
            before.len() == parts@.len(),
            totals@.len() == before.len(),
            forall|k: int| 0 <= k < i ==> #[trigger] before[k] + parts@[k] <= u128::MAX,
            forall|k: int|
                0 <= k < before.len() ==> #[trigger] totals@[k] == if k < i {
                    (before[k] + parts@[k]) as u128
                } else {
                    before[k]
                },
    {
        assert(totals@[i as int] == before[i as int]);
        match totals[i].checked_add(parts[i]) {
            Some(sum) => {
                totals[i] = sum;
            },
            None => {
                return false;
            },
        }
    }
    assert(totals@ =~= sums_u128(before, parts@));
    true
}

/// Add the market and own-match counts of a later row.
fn add_market_counts(last: &mut FlowBucket, terminal: &FlowBucket) -> (ok: bool)
    ensures
        ok == (old(last).market_trades + terminal.market_trades <= u64::MAX &&
            old(last).market_qty + terminal.market_qty <= u64::MAX &&
            old(last).market_self_trades + terminal.market_self_trades <= u64::MAX &&
            old(last).market_self_qty + terminal.market_self_qty <= u64::MAX &&
            old(last).self_trades + terminal.self_trades <= u64::MAX &&
            old(last).self_qty + terminal.self_qty <= u64::MAX &&
            old(last).taker_qty + terminal.taker_qty <= u64::MAX &&
            old(last).maker_qty + terminal.maker_qty <= u64::MAX),
        ok ==> *final(last) == (FlowBucket {
            market_trades: (old(last).market_trades + terminal.market_trades) as u64,
            market_qty: (old(last).market_qty + terminal.market_qty) as u64,
            market_self_trades: (old(last).market_self_trades + terminal.market_self_trades) as u64,
            market_self_qty: (old(last).market_self_qty + terminal.market_self_qty) as u64,
            self_trades: (old(last).self_trades + terminal.self_trades) as u64,
            self_qty: (old(last).self_qty + terminal.self_qty) as u64,
            taker_qty: (old(last).taker_qty + terminal.taker_qty) as u64,
            maker_qty: (old(last).maker_qty + terminal.maker_qty) as u64,
            ..*old(last)
        }),
{
    if !plus_u64(&mut last.market_trades, terminal.market_trades) {
        return false;
    }
    if !plus_u64(&mut last.market_qty, terminal.market_qty) {
        return false;
    }
    if !plus_u64(&mut last.market_self_trades, terminal.market_self_trades) {
        return false;
    }
    if !plus_u64(&mut last.market_self_qty, terminal.market_self_qty) {
        return false;
    }
    if !plus_u64(&mut last.self_trades, terminal.self_trades) {
        return false;
    }
    if !plus_u64(&mut last.self_qty, terminal.self_qty) {
        return false;
    }
    if !plus_u64(&mut last.taker_qty, terminal.taker_qty) {
        return false;
    }
    if !plus_u64(&mut last.maker_qty, terminal.maker_qty) {
        return false;
    }
    true
}

/// Add the order counts of a later row.
fn add_order_counts(last: &mut FlowBucket, terminal: &FlowBucket) -> (ok: bool)
    ensures
        ok == (old(last).orders + terminal.orders <= u64::MAX &&
            old(last).rejected_orders + terminal.rejected_orders <= u64::MAX &&
            old(last).fill_events + terminal.fill_events <= u64::MAX &&
            old(last).submitted_qty + terminal.submitted_qty <= u64::MAX &&
            old(last).zero_depth_count + terminal.zero_depth_count <= u64::MAX &&
            old(last).zero_depth_qty + terminal.zero_depth_qty <= u64::MAX &&
            old(last).unvalued_count + terminal.unvalued_count <= u64::MAX &&
            old(last).unvalued_qty + terminal.unvalued_qty <= u64::MAX &&
            old(last).shortfall_excluded_count + terminal.shortfall_excluded_count <= u64::MAX),
        ok ==> *final(last) == (FlowBucket {
            orders: (old(last).orders + terminal.orders) as u64,
            rejected_orders: (old(last).rejected_orders + terminal.rejected_orders) as u64,
            fill_events: (old(last).fill_events + terminal.fill_events) as u64,
            submitted_qty: (old(last).submitted_qty + terminal.submitted_qty) as u64,
            zero_depth_count: (old(last).zero_depth_count + terminal.zero_depth_count) as u64,
            zero_depth_qty: (old(last).zero_depth_qty + terminal.zero_depth_qty) as u64,
            unvalued_count: (old(last).unvalued_count + terminal.unvalued_count) as u64,
            unvalued_qty: (old(last).unvalued_qty + terminal.unvalued_qty) as u64,
            shortfall_excluded_count: (old(last).shortfall_excluded_count
                + terminal.shortfall_excluded_count) as u64,
            ..*old(last)
        }),
{
    if !plus_u64(&mut last.orders, terminal.orders) {
        return false;
    }
    if !plus_u64(&mut last.rejected_orders, terminal.rejected_orders) {
        return false;
    }
    if !plus_u64(&mut last.fill_events, terminal.fill_events) {
        return false;
    }
    if !plus_u64(&mut last.submitted_qty, terminal.submitted_qty) {
        return false;
    }
    if !plus_u64(&mut last.zero_depth_count, terminal.zero_depth_count) {
        return false;
    }
    if !plus_u64(&mut last.zero_depth_qty, terminal.zero_depth_qty) {
        return false;
    }
    if !plus_u64(&mut last.unvalued_count, terminal.unvalued_count) {
        return false;
    }
    if !plus_u64(&mut last.unvalued_qty, terminal.unvalued_qty) {
        return false;
    }
    if !plus_u64(&mut last.shortfall_excluded_count, terminal.shortfall_excluded_count) {
        return false;
    }
    true
}

/// Add the notionals of a later row.
fn add_notionals(last: &mut FlowBucket, terminal: &FlowBucket) -> (ok: bool)
    ensures
        ok == (old(last).market_notional + terminal.market_notional <= u128::MAX &&
            old(last).market_self_notional + terminal.market_self_notional <= u128::MAX &&
            old(last).self_notional + terminal.self_notional <= u128::MAX &&
            old(last).taker_notional + terminal.taker_notional <= u128::MAX &&
            old(last).maker_notional + terminal.maker_notional <= u128::MAX &&
            old(last).zero_depth_half_notional + terminal.zero_depth_half_notional <= u128::MAX &&
            old(last).shortfall_taker_base + terminal.shortfall_taker_base <= u128::MAX &&
            old(last).shortfall_maker_base + terminal.shortfall_maker_base <= u128::MAX &&
            old(last).shortfall_excluded_notional + terminal.shortfall_excluded_notional <= u128::MAX),
        ok ==> *final(last) == (FlowBucket {
            market_notional: (old(last).market_notional + terminal.market_notional) as u128,
            market_self_notional: (old(last).market_self_notional
                + terminal.market_self_notional) as u128,
            self_notional: (old(last).self_notional + terminal.self_notional) as u128,
            taker_notional: (old(last).taker_notional + terminal.taker_notional) as u128,
            maker_notional: (old(last).maker_notional + terminal.maker_notional) as u128,
            zero_depth_half_notional: (old(last).zero_depth_half_notional
                + terminal.zero_depth_half_notional) as u128,
            shortfall_taker_base: (old(last).shortfall_taker_base
                + terminal.shortfall_taker_base) as u128,
            shortfall_maker_base: (old(last).shortfall_maker_base
                + terminal.shortfall_maker_base) as u128,
            shortfall_excluded_notional: (old(last).shortfall_excluded_notional
                + terminal.shortfall_excluded_notional) as u128,
            ..*old(last)
        }),
{
    if !plus_u128(&mut last.market_notional, terminal.market_notional) {
        return false;
    }
    if !plus_u128(&mut last.market_self_notional, terminal.market_self_notional) {
        return false;
    }
    if !plus_u128(&mut last.self_notional, terminal.self_notional) {
        return false;
    }
    if !plus_u128(&mut last.taker_notional, terminal.taker_notional) {
        return false;
    }
    if !plus_u128(&mut last.maker_notional, terminal.maker_notional) {
        return false;
    }
    if !plus_u128(&mut last.zero_depth_half_notional, terminal.zero_depth_half_notional) {
        return false;
    }
    if !plus_u128(&mut last.shortfall_taker_base, terminal.shortfall_taker_base) {
        return false;
    }
    if !plus_u128(&mut last.shortfall_maker_base, terminal.shortfall_maker_base) {
        return false;
    }
    if !plus_u128(&mut last.shortfall_excluded_notional, terminal.shortfall_excluded_notional) {
        return false;
    }
    true
}

/// Append the terms of each horizon.
fn append_terms(lists: &mut Vec<Vec<MoveTerm>>, later: &mut Vec<Vec<MoveTerm>>)
    requires
        old(lists)@.len() == old(later)@.len(),
    ensures
        final(lists)@.map_values(|terms: Vec<MoveTerm>| terms@) == Seq::new(
            old(lists)@.len(),
            |i: int| old(lists)@[i]@ + old(later)@[i]@,
        ),
{
    let ghost before = lists@;
    let ghost added = later@;
    let count: usize = lists.len();
    for i in 0..count
        invariant
            count == before.len(),
            before == old(lists)@,
            added == old(later)@,
            lists@.len() == before.len(),
            later@.len() == before.len(),
            added.len() == before.len(),
            forall|k: int|
                0 <= k < before.len() ==> (#[trigger] lists@[k])@ == if k < i {
                    before[k]@ + added[k]@
                } else {
                    before[k]@
                },
            forall|k: int| i <= k < before.len() ==> (#[trigger] later@[k])@ == added[k]@,
    {
        assert(lists@[i as int]@ == before[i as int]@);
        assert(later@[i as int]@ == added[i as int]@);
        lists[i].append(&mut later[i]);
    }
    assert(lists@.map_values(|terms: Vec<MoveTerm>| terms@) =~= Seq::new(
        before.len(),
        |i: int| before[i]@ + added[i]@,
    ));
}

/// Add a later row to a run's last one, but for the cohort counts. Says
/// whether every sum fits.
fn add_terminal_flows(last: &mut FlowBucket, mut terminal: FlowBucket) -> (ok: bool)
    requires
        old(last).ratio_half_notional@.len() == terminal.ratio_half_notional@.len(),
        old(last).ratio_count@.len() == terminal.ratio_count@.len(),
        old(last).response_num@.len() == terminal.response_num@.len(),
        old(last).response_den@.len() == terminal.response_den@.len(),
        old(last).response_count@.len() == terminal.response_count@.len(),
        old(last).response_excluded_notional@.len() == terminal.response_excluded_notional@.len(),
        old(last).response_excluded_count@.len() == terminal.response_excluded_count@.len(),
    ensures
        ok == old(last)@.merge_fits(terminal@),
        ok ==> final(last)@ == old(last)@.merged(terminal@),
{
    let ghost before = *last;
    let ghost later = terminal;
    if !add_market_counts(last, &terminal) || !add_order_counts(last, &terminal) || !add_notionals(
        last,
        &terminal,
    ) {
        return false;
    }
    if !plus_each_u128(&mut last.ratio_half_notional, &terminal.ratio_half_notional) {
        return false;
    }
    if !plus_each_u64(&mut last.ratio_count, &terminal.ratio_count) {
        return false;
    }
    if !plus_each_u128(&mut last.response_den, &terminal.response_den) {
        return false;
    }
    if !plus_each_u64(&mut last.response_count, &terminal.response_count) {
        return false;
    }
    if !plus_each_u128(&mut last.response_excluded_notional, &terminal.response_excluded_notional) {
        return false;
    }
    if !plus_each_u64(&mut last.response_excluded_count, &terminal.response_excluded_count) {
        return false;
    }
    last.shortfall_taker.append(&mut terminal.shortfall_taker);
    last.shortfall_maker.append(&mut terminal.shortfall_maker);
    append_terms(&mut last.response_num, &mut terminal.response_num);
    proof {
        let goal = before@.merged(later@);
        assert(last@.response_num =~= goal.response_num);
        assert(last@ =~= goal);
    }
    true
}

/// The start of an interval is not after any time in it.
proof fn lemma_index_start(time: u64, interval_ns: u64)
    requires
        interval_ns > 0,
    ensures
        (time / interval_ns) * interval_ns <= time,
{
    assert((time / interval_ns) * interval_ns <= time) by (nonlinear_arith)
        requires
            interval_ns > 0,
    ;
}

/// The edge lies at or below the ratio of a notional, in half tick-lots, to a
/// depth in tick-lots.
fn reaches_edge(edge: RatioEdge, half_notional: u128, depth: u128) -> (reached: bool)
    ensures
        reached == edge_reached(edge, half_notional, depth),
{
    let whole: u128 = half_notional / 2;
    let odd: bool = half_notional % 2 == 1;
    let half_den: u64 = if odd {
        edge.den / 2
    } else {
        0
    };
    proof {
        let n = edge.num as int;
        let d = depth as int;
        let e = edge.den as int;
        let w = whole as int;
        let h = half_den as int;
        assert(n * (2 * d) == 2 * (d * n)) by (nonlinear_arith);
        if odd {
            assert(half_notional == 2 * w + 1);
            assert((2 * w + 1) * e == 2 * (w * e) + e) by (nonlinear_arith);
        } else {
            assert(half_notional == 2 * w);
            assert((2 * w) * e == 2 * (w * e)) by (nonlinear_arith);
        }
    }
    wide_le(mul_wide(depth, edge.num, 0), mul_wide(whole, edge.den, half_den))
}

} // verus!
