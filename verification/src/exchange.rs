//! Per-symbol exchange around an order book: ids, owners, messages, records.

use crate::book_laws::law_an_unknown_cancel_changes_nothing;
use crate::book_lemmas::{lemma_sum_of_empty, lemma_sum_of_insert, lemma_sum_of_subset};
use crate::book_model::{
    after_limit, after_market, limit_status, limit_sweep, market_status, market_sweep, sum_of,
    volume_at, within, BookView,
};
use crate::event::{ExchangeMessage, OrderAction, RoutedMessage};
use crate::exchange_lemmas::{
    lemma_cancelled_wf, lemma_executed_wf, lemma_filled_concat, lemma_fills_notional_bound,
    lemma_in_order, lemma_keys_ascending, lemma_record_room_prefix, lemma_recorded_resting,
    lemma_sweep_conserves, lemma_wf_sides,
};
use crate::exchange_model::{
    ascending, fills_notional, flow_all_gone, flow_reaches, in_order, ExchangeView, NewOrder,
    OrderInfo,
};
use crate::fills::{filled_qty, Fill, OrderStatus};
use crate::flow::{FlowBucket, FlowOptions, FlowRecorder};
use crate::flow_lemmas::{lemma_filled_wf, lemma_notional_fits};
use crate::flow_model::{notional_of, FlowFill, FlowTotals, FlowView};
use crate::order::{LimitOrder, MarketOrder, Side};
use crate::orderbook::OrderBook;
use crate::records::{L1Bucket, L1Snapshot, TradeRecord};
use crate::types::{AgentId, MarketSnapshot, Nanos, Symbol};
use std::collections::BTreeMap;
use vstd::prelude::*;
use vstd::std_specs::iter::IteratorSpec;

verus! {

broadcast use {
    vstd::std_specs::hash::group_hash_axioms,
    vstd::std_specs::btree::group_btree_axioms,
};

/// Per-symbol exchange wrapping an [`OrderBook`].
pub struct Exchange {
    sym: Symbol,
    book: OrderBook,
    is_open: bool,
    next_order_id: u64,
    resting: BTreeMap<u64, OrderInfo>,
    last_trade_price: Option<i64>,
    last_trade_time: Option<Nanos>,
    /// Accumulated trade records (drained at end of simulation).
    pub trades: Vec<TradeRecord>,
    /// Accumulated L1 snapshots (drained at end of simulation).
    pub l1_snapshots: Vec<L1Snapshot>,
    /// Accumulated L1 buckets (drained at end of simulation; bucket mode only).
    pub l1_buckets: Vec<L1Bucket>,
    keep_trades: bool,
    l1_bucket_ns: Option<Nanos>,
    open_bucket: Option<L1Bucket>,
    flow: Option<FlowRecorder>,
}

/// A recorder as it is shown.
spec fn shown_flow(flow: Option<FlowRecorder>) -> Option<FlowView> {
    match flow {
        Some(flow) => Some(flow@),
        None => None,
    }
}

impl View for Exchange {
    type V = ExchangeView;

    closed spec fn view(&self) -> ExchangeView {
        ExchangeView {
            symbol: self.sym,
            book: self.book@,
            is_open: self.is_open,
            next_order_id: self.next_order_id,
            resting: self.resting@,
            last_trade_price: self.last_trade_price,
            last_trade_time: self.last_trade_time,
            trades: self.trades@,
            l1_snapshots: self.l1_snapshots@,
            l1_buckets: self.l1_buckets@,
            keep_trades: self.keep_trades,
            l1_bucket_ns: self.l1_bucket_ns,
            open_bucket: self.open_bucket,
            flow: shown_flow(self.flow),
        }
    }
}

impl Exchange {
    /// The stored book is in order and finds every order by its id, and no
    /// more orders came to it than there were ids.
    pub closed spec fn stored_wf(&self) -> bool {
        &&& self.book.wf()
        &&& self.book.unique()
        &&& self.book.next_ticket() <= self.next_order_id
    }

    /// The exchange is valid.
    pub open spec fn wf(&self) -> bool {
        &&& self.stored_wf()
        &&& self@.wf()
    }

    /// Create a new closed exchange for the given symbol.
    #[must_use]
    pub fn new(symbol: Symbol, starting_order_id: u64) -> (exchange: Self)
        ensures
            exchange.wf(),
            exchange@ == ExchangeView::fresh(symbol, starting_order_id),
    {
        Exchange {
            sym: symbol,
            book: OrderBook::new(),
            is_open: false,
            next_order_id: starting_order_id,
            resting: BTreeMap::new(),
            last_trade_price: None,
            last_trade_time: None,
            trades: Vec::new(),
            l1_snapshots: Vec::new(),
            l1_buckets: Vec::new(),
            keep_trades: true,
            l1_bucket_ns: None,
            open_bucket: None,
            flow: None,
        }
    }

    /// Select the output of the run. The defaults keep every trade and the
    /// per-event L1 log.
    pub fn set_run_options(&mut self, keep_trades: bool, l1_bucket_ns: Option<Nanos>)
        requires
            old(self).wf(),
        ensures
            final(self).wf(),
            final(self)@ == (ExchangeView { keep_trades, l1_bucket_ns, ..old(self)@ }),
    {
        self.keep_trades = keep_trades;
        self.l1_bucket_ns = l1_bucket_ns;
    }

    /// Set diagnostics before trading. This discards any previous recorder and
    /// its data.
    pub fn set_flow_options(&mut self, options: Option<FlowOptions>)
        requires
            old(self).wf(),
            options matches Some(options) ==> options.interval_ns > 0,
        ensures
            final(self).wf(),
            final(self)@ == (ExchangeView {
                flow: match options {
                    Some(options) => Some(
                        FlowView::fresh(
                            options.agent_id,
                            options.interval_ns,
                            options.horizons_ns@,
                            options.ratio_edges@,
                            old(self)@.symbol,
                        ),
                    ),
                    None => None,
                },
                ..old(self)@
            }),
    {
        self.flow =
        match options {
            Some(options) => Some(FlowRecorder::new(options, self.sym)),
            None => None,
        };
    }

    /// The flow recorder, if diagnostics are on.
    #[must_use]
    pub fn flow(&self) -> (flow: Option<&FlowRecorder>)
        ensures
            match flow {
                Some(flow) => self@.flow == Some(flow@),
                None => self@.flow is None,
            },
    {
        self.flow.as_ref()
    }

    /// Push the open bucket, if any, into `l1_buckets`.
    pub fn flush_l1_bucket(&mut self)
        requires
            old(self).wf(),
        ensures
            final(self).wf(),
            final(self)@ == old(self)@.bucket_flushed(),
    {
        if let Some(done) = self.open_bucket {
            self.l1_buckets.push(done);
            self.open_bucket = None;
        }
    }

    /// Take out the trade log.
    pub fn take_trades(&mut self) -> (trades: Vec<TradeRecord>)
        requires
            old(self).wf(),
        ensures
            final(self).wf(),
            trades@ == old(self)@.trades,
            final(self)@ == (ExchangeView { trades: Seq::empty(), ..old(self)@ }),
    {
        let mut trades: Vec<TradeRecord> = Vec::new();
        std::mem::swap(&mut trades, &mut self.trades);
        trades
    }

    /// Take out the L1 log.
    pub fn take_l1_snapshots(&mut self) -> (snapshots: Vec<L1Snapshot>)
        requires
            old(self).wf(),
        ensures
            final(self).wf(),
            snapshots@ == old(self)@.l1_snapshots,
            final(self)@ == (ExchangeView { l1_snapshots: Seq::empty(), ..old(self)@ }),
    {
        let mut snapshots: Vec<L1Snapshot> = Vec::new();
        std::mem::swap(&mut snapshots, &mut self.l1_snapshots);
        snapshots
    }

    /// Take out the finished L1 buckets.
    pub fn take_l1_buckets(&mut self) -> (buckets: Vec<L1Bucket>)
        requires
            old(self).wf(),
        ensures
            final(self).wf(),
            buckets@ == old(self)@.l1_buckets,
            final(self)@ == (ExchangeView { l1_buckets: Seq::empty(), ..old(self)@ }),
    {
        let mut buckets: Vec<L1Bucket> = Vec::new();
        std::mem::swap(&mut buckets, &mut self.l1_buckets);
        buckets
    }

    /// The symbol this exchange serves.
    #[must_use]
    pub fn symbol(&self) -> (symbol: Symbol)
        ensures
            symbol == self@.symbol,
    {
        self.sym
    }

    /// Current top-of-book snapshot.
    #[must_use]
    pub fn snapshot(&self) -> (snapshot: MarketSnapshot)
        requires
            self.wf(),
        ensures
            snapshot == self@.snapshot(),
    {
        MarketSnapshot {
            best_bid: self.book.best_bid_level(),
            best_ask: self.book.best_ask_level(),
            last_trade_price: self.last_trade_price,
            last_trade_time: self.last_trade_time,
        }
    }

    /// Total resting orders on the book.
    #[must_use]
    pub fn order_count(&self) -> (count: usize)
        requires
            self.wf(),
        ensures
            count == self@.book.live_ids().len(),
    {
        self.book.order_count()
    }

    /// Record the best quotes. Says whether the bucket in use could take them.
    fn record_l1(&mut self, time: Nanos) -> (ok: bool)
        requires
            old(self).wf(),
        ensures
            ok == old(self)@.l1_room(time),
            ok ==> final(self).wf(),
            ok ==> final(self)@ == old(self)@.with_l1(time),
    {
        let ghost before = self@;
        let (bid_price, bid_volume) = match self.book.best_bid_level() {
            Some(level) => level,
            None => (0, 0),
        };
        let (ask_price, ask_volume) = match self.book.best_ask_level() {
            Some(level) => level,
            None => (0, 0),
        };
        if let Some(flow) = &mut self.flow {
            flow.on_quote(time, bid_price, ask_price);
        }
        if let Some(bucket_ns) = self.l1_bucket_ns {
            if bucket_ns == 0 {
                return false;
            }
            assert(time % bucket_ns <= time) by (nonlinear_arith)
                requires
                    bucket_ns > 0,
            ;
            let bucket_start: u64 = time - time % bucket_ns;
            let current = match self.open_bucket {
                Some(bucket) => bucket.bucket_start == bucket_start,
                None => false,
            };
            if !current {
                self.flush_l1_bucket();
                self.open_bucket = Some(L1Bucket::new(bucket_start, self.sym));
            }
            if let Some(mut bucket) = self.open_bucket {
                if !bucket.try_absorb(bid_price, ask_price, bid_volume, ask_volume) {
                    return false;
                }
                self.open_bucket = Some(bucket);
            }
            assert(self@ =~= before.with_l1(time));
            return true;
        }
        let last_trade_price: i64 = match self.last_trade_price {
            Some(price) => price,
            None => 0,
        };
        self.l1_snapshots.push(
            L1Snapshot {
                timestamp: time,
                symbol: self.sym,
                bid_price,
                ask_price,
                bid_volume,
                ask_volume,
                last_trade_price,
            },
        );
        assert(self@ =~= before.with_l1(time));
        true
    }

    /// Open the market for trading, if the bucket in use can take the best
    /// quotes. Says whether it could.
    pub fn try_open(&mut self, time: Nanos) -> (ok: bool)
        requires
            old(self).wf(),
        ensures
            ok == old(self)@.l1_room(time),
            ok ==> final(self).wf(),
            ok ==> final(self)@ == old(self)@.opened(time),
    {
        self.is_open = true;
        self.record_l1(time)
    }

    /// Open the market for trading.
    pub fn open(&mut self, time: Nanos)
        requires
            old(self).wf(),
            old(self)@.l1_room(time),
        ensures
            final(self).wf(),
            final(self)@ == old(self)@.opened(time),
    {
        self.try_open(time);
    }

    /// Best bid and best ask.
    fn best_prices(&self) -> (prices: (Option<i64>, Option<i64>))
        requires
            self.wf(),
        ensures
            prices == self@.best_prices(),
    {
        (self.book.best_bid(), self.book.best_ask())
    }

    /// Mid in half ticks, if both sides have a positive best price.
    fn mid2(&self) -> (mid2: Option<u64>)
        requires
            self.wf(),
        ensures
            mid2 == self@.mid2(),
    {
        match self.best_prices() {
            (Some(bid), Some(ask)) => {
                if bid > 0 && ask > 0 {
                    Some(bid as u64 + ask as u64)
                } else {
                    None
                }
            },
            _ => None,
        }
    }

    /// Notional of the resting orders that the flow recorder watches and that a
    /// taker of `side` bound by `limit` could trade with; `None` if it does not
    /// fit.
    fn own_notional(&self, flow: &FlowRecorder, side: Side, limit: Option<i64>) -> (own: Option<
        u128,
    >)
        requires
            self.wf(),
        ensures
            match own {
                Some(own) => own == self@.own_notional(flow@.live, side, limit),
                None => self@.own_notional(flow@.live, side, limit) > u128::MAX,
            },
    {
        let ghost resting = self.resting@;
        let ghost live = flow@.live;
        let ghost all = resting.dom().filter(
            |id: u64|
                live.contains(id) && resting[id].side != side && within(
                    side,
                    limit,
                    resting[id].price,
                ),
        );
        let ghost worth = |id: u64| notional_of(resting[id].price, resting[id].remaining_qty) as nat;
        let mut own: u128 = 0;
        let ghost mut seen: Set<u64> = Set::empty();
        proof {
            lemma_sum_of_empty(worth);
        }
        for entry in it: self.resting.iter()
            invariant
                self.wf(),
                resting == self.resting@,
                live == flow@.live,
                all == resting.dom().filter(
                    |id: u64|
                        live.contains(id) && resting[id].side != side && within(
                            side,
                            limit,
                            resting[id].price,
                        ),
                ),
                all.finite(),
                worth == (|id: u64|
                    notional_of(resting[id].price, resting[id].remaining_qty) as nat),
                sum_of(all, worth) == self@.own_notional(live, side, limit),
                it.seq() == self.resting.iter().remaining(),
                it.seq().no_duplicates(),
                seen.finite(),
                seen.subset_of(all),
                forall|id: u64|
                    seen.contains(id) <==> all.contains(id) && exists|j: int|
                        0 <= j < it.index() && *(#[trigger] it.seq()[j]).0 == id,
                own == sum_of(seen, worth),
        {
            let (id, info) = entry;
            proof {
                assert(it.seq()[it.index() as int].0 == id);
                assert(resting.contains_key(*id) && resting[*id] == *info);
                assert(self@.book.rests_at(*id, info.side, info.price));
            }
            let reachable = match limit {
                None => true,
                Some(bound) => match side {
                    Side::Bid => info.price <= bound,
                    Side::Ask => info.price >= bound,
                },
            };
            if info.side != side && reachable && flow.is_live(*id) {
                proof {
                    assert(all.contains(*id));
                    if seen.contains(*id) {
                        let j = choose|j: int|
                            0 <= j < it.index() && *(#[trigger] it.seq()[j]).0 == *id;
                        assert(resting[*it.seq()[j].0] == *it.seq()[j].1);
                    }
                    lemma_sum_of_insert(seen, worth, *id);
                    seen = seen.insert(*id);
                    lemma_sum_of_subset(seen, all, worth);
                    lemma_notional_fits(info.price, info.remaining_qty);
                }
                let notional: u128 = info.price as u128 * info.remaining_qty as u128;
                match own.checked_add(notional) {
                    Some(sum) => {
                        own = sum;
                    },
                    None => {
                        return None;
                    },
                }
            }
        }
        proof {
            assert(seen =~= all);
        }
        Some(own)
    }

    /// Tell the flow recorder of a new order, before it meets the book. Says
    /// whether the recorder's counters had room.
    fn record_submission(
        &mut self,
        agent_id: AgentId,
        time: Nanos,
        side: Side,
        limit: Option<i64>,
        qty: u64,
        order_id: u64,
    ) -> (ok: bool)
        requires
            old(self).wf(),
            limit matches Some(price) ==> price >= 0,
        ensures
            ok == old(self)@.submit_room(agent_id, time, side, limit, qty, order_id),
            ok ==> final(self).wf(),
            ok ==> final(self).book == old(self).book,
            ok ==> final(self)@ == (ExchangeView {
                flow: old(self)@.flow_submitted(agent_id, time, side, limit, qty, order_id),
                ..old(self)@
            }),
    {
        let external_depth: u128 = match &self.flow {
            None => {
                return true;
            },
            Some(flow) => {
                if agent_id != flow.watched_agent() {
                    return true;
                }
                let depth = self.book.try_executable_depth(side, limit);
                let own = self.own_notional(flow, side, limit);
                match (depth, own) {
                    (Some((_, depth)), Some(own)) => if depth > own {
                        depth - own
                    } else {
                        0
                    },
                    _ => {
                        return false;
                    },
                }
            },
        };
        let half_notional: Option<u128> = match limit {
            Some(price) => {
                proof {
                    lemma_notional_fits(price, qty);
                }
                Some(price as u128 * qty as u128 * 2)
            },
            None => match self.mid2() {
                Some(mid2) => {
                    assert(mid2 * qty <= u64::MAX * u64::MAX) by (nonlinear_arith)
                        requires
                            0 <= mid2 <= u64::MAX,
                            0 <= qty <= u64::MAX,
                    ;
                    Some(mid2 as u128 * qty as u128)
                },
                None => None,
            },
        };
        if let Some(flow) = &mut self.flow {
            if !flow.on_accept(time, agent_id, order_id, qty) {
                return false;
            }
            if !flow.on_depth(time, qty, half_notional, external_depth) {
                return false;
            }
        }
        true
    }

    /// Record one fill and tell the maker. Says whether the flow recorder's
    /// counters had room.
    fn record_fill(
        &mut self,
        taker: AgentId,
        fill: Fill,
        time: Nanos,
        mid2: Option<u64>,
        out: &mut Vec<RoutedMessage>,
    ) -> (ok: bool)
        requires
            old(self)@.flow matches Some(flow) ==> flow.wf(),
            fill.price >= 0,
        ensures
            ok == old(self)@.record_once_room(taker, fill, time, mid2),
            ok ==> {
                let step = old(self)@.recorded_once(taker, fill, time, mid2);
                &&& final(self)@ == step.exchange
                &&& final(out)@ == old(out)@ + step.messages
                &&& final(self).book == old(self).book
                &&& final(self)@.flow matches Some(flow) ==> flow.wf()
            },
    {
        let ghost before = self@;
        let ghost out0 = out@;
        self.last_trade_price = Some(fill.price);
        self.last_trade_time = Some(time);
        let found = match self.resting.get(&fill.maker_order_id) {
            Some(info) => Some(*info),
            None => None,
        };
        if let Some(flow) = &mut self.flow {
            let maker_agent = match found {
                Some(info) => Some(info.agent_id),
                None => None,
            };
            let seen = FlowFill {
                time,
                taker_agent: taker,
                taker_order_id: fill.taker_order_id,
                maker_agent,
                maker_order_id: fill.maker_order_id,
                taker_side: fill.taker_side,
                price: fill.price,
                qty: fill.qty,
                mid2,
            };
            proof {
                if flow@.fill_room(seen) {
                    lemma_filled_wf(flow@, seen);
                }
            }
            if !flow.on_fill(seen) {
                return false;
            }
        }
        if self.keep_trades {
            self.trades.push(
                TradeRecord {
                    timestamp: time,
                    symbol: self.sym,
                    price: fill.price,
                    qty: fill.qty,
                    aggressor_side: fill.taker_side,
                    maker_order_id: fill.maker_order_id,
                    taker_order_id: fill.taker_order_id,
                },
            );
        }
        if let Some(info) = found {
            let remaining: u64 = if info.remaining_qty > fill.qty {
                info.remaining_qty - fill.qty
            } else {
                0
            };
            proof {
                lemma_notional_fits(fill.price, fill.qty);
            }
            out.push(
                RoutedMessage {
                    agent_id: info.agent_id,
                    message: ExchangeMessage::OrderFilled {
                        order_id: fill.maker_order_id,
                        user_id: info.user_id,
                        symbol: self.sym,
                        side: fill.taker_side.opposite(),
                        price: fill.price,
                        qty: fill.qty,
                        remaining,
                        notional: fill.price as u128 * fill.qty as u128,
                    },
                },
            );
            if remaining == 0 {
                self.resting.remove(&fill.maker_order_id);
                if let Some(flow) = &mut self.flow {
                    flow.on_order_gone(time, fill.maker_order_id);
                }
            } else {
                self.resting.insert(
                    fill.maker_order_id,
                    OrderInfo { remaining_qty: remaining, ..info },
                );
            }
        }
        proof {
            let step = before.recorded_once(taker, fill, time, mid2);
            assert(self@.resting =~= step.exchange.resting);
            assert(out@ =~= out0 + step.messages);
        }
        true
    }

    /// Record a run of fills. Says whether the flow recorder's counters had
    /// room.
    #[verifier::rlimit(60)]
    fn record_fills(
        &mut self,
        taker: AgentId,
        fills: &Vec<Fill>,
        time: Nanos,
        mid2: Option<u64>,
        out: &mut Vec<RoutedMessage>,
    ) -> (ok: bool)
        requires
            old(self)@.flow matches Some(flow) ==> flow.wf(),
            forall|i: int| 0 <= i < fills@.len() ==> (#[trigger] fills@[i]).price >= 0,
        ensures
            ok == old(self)@.record_room(taker, fills@, time, mid2),
            ok ==> {
                let all = old(self)@.recorded(taker, fills@, time, mid2);
                &&& final(self)@ == all.exchange
                &&& final(out)@ == old(out)@ + all.messages
                &&& final(self).book == old(self).book
                &&& final(self)@.flow matches Some(flow) ==> flow.wf()
            },
    {
        let ghost before = *self;
        let ghost out0 = out@;
        proof {
            assert(fills@.take(0) =~= Seq::<Fill>::empty());
            assert(out0 + Seq::<RoutedMessage>::empty() =~= out0);
        }
        for i in 0..fills.len()
            invariant
                before@.flow matches Some(flow) ==> flow.wf(),
                before == *old(self),
                self@.flow matches Some(flow) ==> flow.wf(),
                self.book == before.book,
                forall|k: int| 0 <= k < fills@.len() ==> (#[trigger] fills@[k]).price >= 0,
                before@.record_room(taker, fills@.take(i as int), time, mid2),
                self@ == before@.recorded(taker, fills@.take(i as int), time, mid2).exchange,
                out@ == out0 + before@.recorded(
                    taker,
                    fills@.take(i as int),
                    time,
                    mid2,
                ).messages,
        {
            let ghost done = fills@.take(i as int);
            let ghost next = fills@.take(i + 1);
            proof {
                assert(next.drop_last() =~= done);
                assert(next.last() == fills@[i as int]);
            }
            if !self.record_fill(taker, fills[i], time, mid2, out) {
                proof {
                    if before@.record_room(taker, fills@, time, mid2) {
                        lemma_record_room_prefix(before@, taker, fills@, time, mid2, i + 1);
                    }
                }
                return false;
            }
            proof {
                let all = before@.recorded(taker, next, time, mid2);
                assert(out@ =~= out0 + all.messages);
            }
        }
        assert(fills@.take(fills@.len() as int) =~= fills@);
        true
    }

    /// Tell the taker what became of its order, and remember the order if it
    /// rests. Says whether the flow recorder could count the interval.
    #[verifier::rlimit(60)]
    fn notify_taker(
        &mut self,
        taker: AgentId,
        order: NewOrder,
        status: OrderStatus,
        fills: &Vec<Fill>,
        time: Nanos,
        out: &mut Vec<RoutedMessage>,
    ) -> (ok: bool)
        requires
            old(self)@.flow matches Some(flow) ==> flow.wf(),
            forall|i: int| 0 <= i < fills@.len() ==> (#[trigger] fills@[i]).price >= 0,
            filled_qty(fills@) <= u64::MAX,
            status matches OrderStatus::Cancelled { filled_qty: filled } ==> filled == filled_qty(
                fills@,
            ),
        ensures
            ok == old(self)@.notify_room(status, time),
            ok ==> {
                let told = old(self)@.notified(taker, order, status, fills@, time);
                &&& final(self)@ == told.exchange
                &&& final(out)@ == old(out)@ + told.messages
                &&& final(self).book == old(self).book
                &&& final(self)@.flow matches Some(flow) ==> flow.wf()
            },
    {
        let ghost before = self@;
        let ghost out0 = out@;
        let done = match status {
            OrderStatus::Filled => true,
            OrderStatus::Cancelled { .. } => true,
            _ => false,
        };
        if done {
            if let Some(flow) = &mut self.flow {
                if !flow.on_order_gone(time, order.id) {
                    return false;
                }
            }
        }
        let (total, notional) = totals_of(fills);
        let price: i64 = if fills.len() > 0 {
            fills[fills.len() - 1].price
        } else {
            0
        };
        let info = OrderInfo {
            agent_id: taker,
            side: order.side,
            price: order.price,
            remaining_qty: order.qty,
            user_id: order.user_id,
        };
        let remaining: u64 = match status {
            OrderStatus::Filled => 0,
            OrderStatus::Placed => order.qty,
            OrderStatus::Resting { remaining_qty } => remaining_qty,
            OrderStatus::Cancelled { .. } => 0,
        };
        let tells = match status {
            OrderStatus::Filled => true,
            OrderStatus::Placed => false,
            _ => total > 0,
        };
        if tells {
            out.push(
                RoutedMessage {
                    agent_id: taker,
                    message: ExchangeMessage::OrderFilled {
                        order_id: order.id,
                        user_id: order.user_id,
                        symbol: self.sym,
                        side: order.side,
                        price,
                        qty: total,
                        remaining,
                        notional,
                    },
                },
            );
        }
        match status {
            OrderStatus::Filled => {},
            OrderStatus::Placed => {
                self.resting.insert(order.id, info);
            },
            OrderStatus::Resting { remaining_qty } => {
                self.resting.insert(order.id, OrderInfo { remaining_qty, ..info });
            },
            OrderStatus::Cancelled { .. } => {
                out.push(
                    RoutedMessage {
                        agent_id: taker,
                        message: ExchangeMessage::OrderCancelled {
                            order_id: order.id,
                            user_id: order.user_id,
                            symbol: self.sym,
                        },
                    },
                );
            },
        }
        proof {
            let told = before.notified(taker, order, status, fills@, time);
            assert(self@.resting =~= told.exchange.resting);
            assert(out@ =~= out0 + told.messages);
        }
        true
    }
}

impl Exchange {
    /// Creation acknowledgment: sent exactly once for every new order,
    /// including one that fully fills at submission, and always emitted
    /// before the order's fills. (Per-message latency jitter may still
    /// deliver a fill first; messages are self-contained so delivery order
    /// carries no information.)
    fn push_accepted(&self, agent_id: AgentId, order: NewOrder, out: &mut Vec<RoutedMessage>)
        ensures
            final(out)@ == old(out)@.push(self@.accepted_message(agent_id, order)),
    {
        out.push(
            RoutedMessage {
                agent_id,
                message: ExchangeMessage::OrderAccepted {
                    order_id: order.id,
                    user_id: order.user_id,
                    symbol: self.sym,
                    side: order.side,
                    qty: order.qty,
                },
            },
        );
    }

    /// The next order id, if there is one left.
    fn alloc_id(&mut self) -> (id: Option<u64>)
        requires
            old(self).wf(),
        ensures
            match id {
                Some(id) => {
                    &&& id == old(self)@.next_order_id
                    &&& id < u64::MAX
                    &&& final(self).wf()
                    &&& final(self).book == old(self).book
                    &&& final(self)@ == ExchangeView {
                        next_order_id: (id + 1) as u64,
                        ..old(self)@
                    }
                },
                None => old(self)@.next_order_id == u64::MAX,
            },
    {
        let id: u64 = self.next_order_id;
        if id == u64::MAX {
            return None;
        }
        self.next_order_id = id + 1;
        Some(id)
    }

    /// Submit a limit order on an open market. Says whether the order and the
    /// counters allow it.
    #[verifier::rlimit(60)]
    fn submit_limit(
        &mut self,
        agent_id: AgentId,
        side: Side,
        price: i64,
        qty: u64,
        user_id: u64,
        time: Nanos,
        out: &mut Vec<RoutedMessage>,
    ) -> (ok: bool)
        requires
            old(self).wf(),
        ensures
            ({
                let action = OrderAction::NewLimitOrder { side, price, qty, user_id };
                &&& ok == old(self)@.apply_room(agent_id, action, time)
                &&& ok ==> {
                    let applied = old(self)@.applied(agent_id, action, time);
                    &&& final(self).wf()
                    &&& final(self)@ == applied.exchange
                    &&& final(out)@ == old(out)@ + applied.messages
                }
            }),
    {
        let ghost before = self@;
        let ghost out0 = out@;
        let volume: u64 = self.book.volume_at(price, side);
        if qty == 0 || price < 0 || volume.checked_add(qty).is_none() {
            return false;
        }
        let mid2 = self.mid2();
        let id: u64 = match self.alloc_id() {
            Some(id) => id,
            None => {
                return false;
            },
        };
        let order = NewOrder { id, user_id, side, price, qty };
        let ghost taken = before.limit_order(order, time);
        let ghost sweep = limit_sweep(before.book, taken);
        let ghost status_after = limit_status(qty as nat, sweep.remaining);
        let ghost book_after = after_limit(before.book, taken);
        proof {
            lemma_same_submission(
                before,
                self@,
                agent_id,
                time,
                side,
                Some(price),
                qty,
                id,
            );
            lemma_wf_sides(before, side.spec_opposite());
            lemma_sweep_conserves(
                before.book.side(side.spec_opposite()),
                side,
                id,
                Some(price),
                qty as nat,
            );
        }
        if !self.record_submission(agent_id, time, side, Some(price), qty, id) {
            return false;
        }
        self.push_accepted(agent_id, order, out);
        let mut fills: Vec<Fill> = Vec::new();
        let status = self.book.add_limit_order_into(
            LimitOrder { id, side, price, qty, timestamp: time },
            &mut fills,
        );
        let ghost matched = self@;
        proof {
            assert(fills@ =~= sweep.fills);
            assert(matched =~= (ExchangeView {
                book: book_after,
                ..before.admitted(agent_id, order, Some(price), time)
            }));
            lemma_recorded_resting(matched, agent_id, fills@, time, mid2);
        }
        if !self.record_fills(agent_id, &fills, time, mid2, out) {
            return false;
        }
        if !self.notify_taker(agent_id, order, status, &fills, time, out) {
            return false;
        }
        proof {
            lemma_executed_wf(
                before,
                agent_id,
                order,
                Some(price),
                book_after,
                status_after,
                time,
            );
            let applied = before.executed(
                agent_id,
                order,
                Some(price),
                book_after,
                sweep.fills,
                status_after,
                time,
            );
            assert(out@ =~= out0 + applied.messages);
        }
        true
    }

    /// Submit a market order on an open market. Says whether the order and
    /// the counters allow it.
    #[verifier::rlimit(60)]
    fn submit_market(
        &mut self,
        agent_id: AgentId,
        side: Side,
        qty: u64,
        user_id: u64,
        time: Nanos,
        out: &mut Vec<RoutedMessage>,
    ) -> (ok: bool)
        requires
            old(self).wf(),
        ensures
            ({
                let action = OrderAction::NewMarketOrder { side, qty, user_id };
                &&& ok == old(self)@.apply_room(agent_id, action, time)
                &&& ok ==> {
                    let applied = old(self)@.applied(agent_id, action, time);
                    &&& final(self).wf()
                    &&& final(self)@ == applied.exchange
                    &&& final(out)@ == old(out)@ + applied.messages
                }
            }),
    {
        let ghost before = self@;
        let ghost out0 = out@;
        if qty == 0 {
            return false;
        }
        let mid2 = self.mid2();
        let id: u64 = match self.alloc_id() {
            Some(id) => id,
            None => {
                return false;
            },
        };
        let order = NewOrder { id, user_id, side, price: 0, qty };
        let ghost taken = before.market_order(order);
        let ghost sweep = market_sweep(before.book, taken);
        let ghost status_after = market_status(qty as nat, sweep.remaining);
        let ghost book_after = after_market(before.book, taken);
        proof {
            lemma_same_submission(before, self@, agent_id, time, side, None, qty, id);
            lemma_wf_sides(before, side.spec_opposite());
            lemma_sweep_conserves(
                before.book.side(side.spec_opposite()),
                side,
                id,
                None,
                qty as nat,
            );
        }
        if !self.record_submission(agent_id, time, side, None, qty, id) {
            return false;
        }
        self.push_accepted(agent_id, order, out);
        let mut fills: Vec<Fill> = Vec::new();
        let status = self.book.add_market_order_into(MarketOrder { id, side, qty }, &mut fills);
        let ghost matched = self@;
        proof {
            assert(fills@ =~= sweep.fills);
            assert(matched =~= (ExchangeView {
                book: book_after,
                ..before.admitted(agent_id, order, None, time)
            }));
            lemma_recorded_resting(matched, agent_id, fills@, time, mid2);
        }
        if !self.record_fills(agent_id, &fills, time, mid2, out) {
            return false;
        }
        if !self.notify_taker(agent_id, order, status, &fills, time, out) {
            return false;
        }
        proof {
            lemma_executed_wf(before, agent_id, order, None, book_after, status_after, time);
            let applied = before.executed(
                agent_id,
                order,
                None,
                book_after,
                sweep.fills,
                status_after,
                time,
            );
            assert(out@ =~= out0 + applied.messages);
        }
        true
    }
}

impl Exchange {
    /// Cancel an order on an open market. Says whether the flow recorder could
    /// count the interval.
    #[verifier::rlimit(60)]
    fn cancel(
        &mut self,
        agent_id: AgentId,
        order_id: u64,
        time: Nanos,
        out: &mut Vec<RoutedMessage>,
    ) -> (ok: bool)
        requires
            old(self).wf(),
        ensures
            ({
                let action = OrderAction::CancelOrder { order_id };
                &&& ok == old(self)@.apply_room(agent_id, action, time)
                &&& ok ==> {
                    let applied = old(self)@.applied(agent_id, action, time);
                    &&& final(self).wf()
                    &&& final(self)@ == applied.exchange
                    &&& final(out)@ == old(out)@ + applied.messages
                }
            }),
    {
        let ghost before = self@;
        let ghost out0 = out@;
        let ghost applied = before.applied(
            agent_id,
            OrderAction::CancelOrder { order_id },
            time,
        );
        if !self.book.cancel_order(order_id) {
            out.push(
                RoutedMessage {
                    agent_id,
                    message: ExchangeMessage::OrderRejected {
                        order_id,
                        user_id: 0,
                        symbol: self.sym,
                    },
                },
            );
            proof {
                law_an_unknown_cancel_changes_nothing(before.book, order_id);
                assert(out@ =~= out0 + applied.messages);
            }
            return true;
        }
        proof {
            lemma_rests_on_record(before, order_id);
        }
        let user_id: u64 = match self.resting.remove(&order_id) {
            Some(info) => info.user_id,
            None => 0,
        };
        if let Some(flow) = &mut self.flow {
            if !flow.on_order_gone(time, order_id) {
                return false;
            }
        }
        out.push(
            RoutedMessage {
                agent_id,
                message: ExchangeMessage::OrderCancelled {
                    order_id,
                    user_id,
                    symbol: self.sym,
                },
            },
        );
        proof {
            lemma_cancelled_wf(before, self@, order_id);
            assert(self@ =~= applied.exchange);
            assert(out@ =~= out0 + applied.messages);
        }
        true
    }

    /// Process an order action from an agent, if it is one that the exchange
    /// takes. Says whether it was. Appends messages to `out`.
    pub fn try_process_into(
        &mut self,
        agent_id: AgentId,
        action: OrderAction,
        time: Nanos,
        out: &mut Vec<RoutedMessage>,
    ) -> (ok: bool)
        requires
            old(self).wf(),
        ensures
            ok == old(self)@.process_room(agent_id, action, time),
            ok ==> {
                let processed = old(self)@.processed(agent_id, action, time);
                &&& final(self).wf()
                &&& final(self)@ == processed.exchange
                &&& final(out)@ == old(out)@ + processed.messages
            },
    {
        let ghost before = self@;
        let ghost out0 = out@;
        if !self.is_open {
            let (order_id, user_id, new) = match action {
                OrderAction::CancelOrder { order_id } => (order_id, 0, false),
                OrderAction::NewLimitOrder { user_id, .. } => (0, user_id, true),
                OrderAction::NewMarketOrder { user_id, .. } => (0, user_id, true),
            };
            if new {
                if let Some(flow) = &mut self.flow {
                    if !flow.on_reject(time, agent_id) {
                        return false;
                    }
                }
            }
            out.push(
                RoutedMessage {
                    agent_id,
                    message: ExchangeMessage::OrderRejected {
                        order_id,
                        user_id,
                        symbol: self.sym,
                    },
                },
            );
            proof {
                let refused = before.refused(agent_id, action, time);
                assert(self@ =~= refused.exchange);
                assert(out@ =~= out0 + refused.messages);
            }
            return true;
        }
        let prices_before = self.best_prices();
        let applied = match action {
            OrderAction::NewLimitOrder { side, price, qty, user_id } => self.submit_limit(
                agent_id,
                side,
                price,
                qty,
                user_id,
                time,
                out,
            ),
            OrderAction::NewMarketOrder { side, qty, user_id } => self.submit_market(
                agent_id,
                side,
                qty,
                user_id,
                time,
                out,
            ),
            OrderAction::CancelOrder { order_id } => self.cancel(agent_id, order_id, time, out),
        };
        if !applied {
            return false;
        }
        let prices_after = self.best_prices();
        if same_price(prices_before.0, prices_after.0) && same_price(
            prices_before.1,
            prices_after.1,
        ) {
            return true;
        }
        self.record_l1(time)
    }

    /// Process an order action from an agent. Appends messages to `out`.
    pub fn process_into(
        &mut self,
        agent_id: AgentId,
        action: OrderAction,
        time: Nanos,
        out: &mut Vec<RoutedMessage>,
    )
        requires
            old(self).wf(),
            old(self)@.process_room(agent_id, action, time),
        ensures
            final(self).wf(),
            final(self)@ == old(self)@.processed(agent_id, action, time).exchange,
            final(out)@ == old(out)@ + old(self)@.processed(agent_id, action, time).messages,
    {
        self.try_process_into(agent_id, action, time, out);
    }

    /// Resolve responses through `end_time`, exclude later horizons, and drain
    /// the interval rows, if every sum fits. Says whether it did; the rows are
    /// `None` when flow recording is disabled.
    pub fn try_flush_flow(&mut self, end_time: Nanos) -> (drained: Result<
        Option<(Vec<FlowBucket>, FlowTotals)>,
        (),
    >)
        requires
            old(self).wf(),
        ensures
            match old(self)@.flow {
                None => drained == Ok::<Option<(Vec<FlowBucket>, FlowTotals)>, ()>(None)
                    && final(self)@ == old(self)@ && final(self).wf(),
                Some(flow) => {
                    &&& drained is Ok <==> flow.finish_room(end_time)
                    &&& drained matches Ok(rows) ==> {
                        &&& rows matches Some((rows, totals)) && {
                            &&& rows@.map_values(|bucket: FlowBucket| bucket@) == flow.finished(
                                end_time,
                            ).buckets
                            &&& totals == flow.totals
                        }
                        &&& final(self).wf()
                        &&& final(self)@ == ExchangeView {
                            flow: Some(
                                FlowView { buckets: Seq::empty(), ..flow.finished(end_time) },
                            ),
                            ..old(self)@
                        }
                    }
                },
            },
    {
        match &mut self.flow {
            None => Ok(None),
            Some(flow) => match flow.flush(end_time) {
                Some(rows) => Ok(Some(rows)),
                None => Err(()),
            },
        }
    }

    /// Resolve responses through `end_time`, exclude later horizons, and drain
    /// the interval rows. Events at `end_time` enter the final interval without
    /// repeating filled orders. Only newly accepted terminal orders increase
    /// that interval's eligible cohort. Call once after the last event. `None`
    /// means flow recording was disabled.
    pub fn flush_flow(&mut self, end_time: Nanos) -> (drained: Option<
        (Vec<FlowBucket>, FlowTotals),
    >)
        requires
            old(self).wf(),
            old(self)@.flow matches Some(flow) ==> flow.finish_room(end_time),
        ensures
            final(self).wf(),
            match old(self)@.flow {
                None => drained is None && final(self)@ == old(self)@,
                Some(flow) => {
                    &&& drained matches Some((rows, totals)) && {
                        &&& rows@.map_values(|bucket: FlowBucket| bucket@) == flow.finished(
                            end_time,
                        ).buckets
                        &&& totals == flow.totals
                    }
                    &&& final(self)@ == ExchangeView {
                        flow: Some(
                            FlowView { buckets: Seq::empty(), ..flow.finished(end_time) },
                        ),
                        ..old(self)@
                    }
                },
            },
    {
        match self.try_flush_flow(end_time) {
            Ok(drained) => drained,
            Err(()) => None,
        }
    }
}

impl Exchange {
    /// The ids of all resting orders, smallest first.
    fn resting_ids(&self) -> (ids: Vec<u64>)
        ensures
            ids@ == in_order(self@.resting.dom()),
            ids@.to_set() == self@.resting.dom(),
            ascending(ids@),
    {
        let mut ids: Vec<u64> = Vec::new();
        let ghost keys = self.resting.keys().remaining();
        for id in it: self.resting.keys()
            invariant
                it.seq() == self.resting.keys().remaining(),
                it.seq() == keys,
                ids@.len() == it.index(),
                forall|i: int| 0 <= i < ids@.len() ==> #[trigger] ids@[i] == *keys[i],
        {
            assert(it.seq()[it.index() as int] == id);
            ids.push(*id);
        }
        proof {
            lemma_keys_ascending(keys);
            assert(keys.unref() =~= ids@);
            lemma_in_order(self.resting@.dom(), ids@);
        }
        ids
    }
}

impl Exchange {
    /// Close the market, cancelling all resting orders, if the counters have
    /// room. Says whether they had.
    pub fn try_close_into(&mut self, time: Nanos, out: &mut Vec<RoutedMessage>) -> (ok: bool)
        requires
            old(self).wf(),
        ensures
            ok == old(self)@.close_room(time),
            ok ==> {
                let closed = old(self)@.closed(time);
                &&& final(self).wf()
                &&& final(self)@ == closed.exchange
                &&& final(out)@ == old(out)@ + closed.messages
            },
    {
        let ghost before = self@;
        let ghost out0 = out@;
        let ghost messages = before.closed(time).messages;
        self.is_open = false;
        let ids = self.resting_ids();
        let ghost all = ids@;
        proof {
            assert(all.take(0) =~= Seq::<u64>::empty());
            assert(messages.take(0) =~= Seq::<RoutedMessage>::empty());
            assert(out0 + messages.take(0) =~= out0);
        }
        let count: usize = ids.len();
        for i in 0..count
            invariant
                before == old(self)@,
                before.wf(),
                count == all.len(),
                all == ids@,
                all == in_order(before.resting.dom()),
                all.to_set() == before.resting.dom(),
                ascending(all),
                messages == Seq::new(all.len(), |k: int| before.cancel_message(all[k])),
                self.wf(),
                i > 0 ==> flow_reaches(before.flow, time),
                self@ == (ExchangeView {
                    is_open: false,
                    book: self@.book,
                    resting: self@.resting,
                    flow: flow_all_gone(before.flow, time, all.take(i as int)),
                    ..before
                }),
                forall|id: u64| #[trigger]
                    self@.resting.contains_key(id) <==> before.resting.contains_key(id)
                        && !all.take(i as int).contains(id),
                forall|id: u64| #[trigger]
                    self@.resting.contains_key(id) ==> self@.resting[id] == before.resting[id],
                out@ == out0 + messages.take(i as int),
        {
            let ghost now = self@;
            let id: u64 = ids[i];
            proof {
                assert(all.to_set().contains(id));
                assert(before.resting.contains_key(id));
                if all.take(i as int).contains(id) {
                    let k = choose|k: int| 0 <= k < i && all.take(i as int)[k] == id;
                    assert(all[k] < all[i as int]);
                }
                assert(now.resting.contains_key(id));
                assert(now.book.rests_at(id, now.resting[id].side, now.resting[id].price));
                assert(now.book.rests(id));
                let next = all.take(i + 1);
                assert(next.drop_last() =~= all.take(i as int));
                assert(next.last() == id);
                lemma_all_gone_reaches(before.flow, time, all.take(i as int));
            }
            self.book.cancel_order(id);
            let found = match self.resting.get(&id) {
                Some(info) => Some(*info),
                None => None,
            };
            self.resting.remove(&id);
            if let Some(flow) = &mut self.flow {
                if !flow.on_order_gone(time, id) {
                    return false;
                }
            }
            if let Some(info) = found {
                out.push(
                    RoutedMessage {
                        agent_id: info.agent_id,
                        message: ExchangeMessage::OrderCancelled {
                            order_id: id,
                            user_id: info.user_id,
                            symbol: self.sym,
                        },
                    },
                );
            }
            proof {
                lemma_cancelled_wf(now, self@, id);
                assert(out@ =~= out0 + messages.take(i + 1));
                assert forall|k: u64| #[trigger]
                    self@.resting.contains_key(k) <==> before.resting.contains_key(k)
                        && !all.take(i + 1).contains(k) by {
                    lemma_take_grows(all, i as int, k);
                    assert(self@.resting.contains_key(k) <==> now.resting.contains_key(k) && k
                        != id);
                }
            }
        }
        proof {
            assert(all.take(all.len() as int) =~= all);
            assert(messages.take(messages.len() as int) =~= messages);
            assert forall|id: u64| !self@.resting.contains_key(id) by {
                if before.resting.contains_key(id) {
                    assert(all.to_set().contains(id));
                    assert(all.contains(id));
                }
            }
            assert(self@.resting =~= Map::empty());
            lemma_nothing_on_record(self@);
            if before.resting.dom().len() > 0 {
                if count == 0 {
                    assert(before.resting.dom() =~= Set::empty());
                }
            } else {
                if count > 0 {
                    assert(all.to_set().contains(all[0]));
                }
            }
            assert(self@ =~= before.emptied(time));
        }
        self.record_l1(time)
    }

    /// Close the market, cancelling all resting orders.
    pub fn close_into(&mut self, time: Nanos, out: &mut Vec<RoutedMessage>)
        requires
            old(self).wf(),
            old(self)@.close_room(time),
        ensures
            final(self).wf(),
            final(self)@ == old(self)@.closed(time).exchange,
            final(out)@ == old(out)@ + old(self)@.closed(time).messages,
    {
        self.try_close_into(time, out);
    }
}

/// One more member of a sequence.
proof fn lemma_take_grows(s: Seq<u64>, i: int, x: u64)
    requires
        0 <= i < s.len(),
    ensures
        s.take(i + 1).contains(x) <==> s.take(i).contains(x) || s[i] == x,
{
    let less = s.take(i);
    let more = s.take(i + 1);
    if less.contains(x) {
        let k = choose|k: int| 0 <= k < less.len() && less[k] == x;
        assert(more[k] == x);
    }
    if s[i] == x {
        assert(more[i] == x);
    }
    if more.contains(x) {
        let k = choose|k: int| 0 <= k < more.len() && more[k] == x;
        if k < i {
            assert(less[k] == x);
        }
    }
}

/// Orders that leave do not move the intervals.
proof fn lemma_all_gone_reaches(flow: Option<FlowView>, time: Nanos, ids: Seq<u64>)
    ensures
        flow_all_gone(flow, time, ids) is Some <==> flow is Some,
        flow_reaches(flow_all_gone(flow, time, ids), time) == flow_reaches(flow, time),
        flow matches Some(f) ==> flow_all_gone(flow, time, ids)->0.interval_ns == f.interval_ns,
    decreases ids.len(),
{
    if ids.len() > 0 {
        lemma_all_gone_reaches(flow, time, ids.drop_last());
    }
}

/// A book without records is empty.
proof fn lemma_nothing_on_record(v: ExchangeView)
    requires
        v.wf(),
        v.resting == Map::<u64, OrderInfo>::empty(),
    ensures
        v.book == BookView::empty(),
{
    assert forall|price: i64| !v.book.bids.contains_key(price) by {
        if v.book.bids.contains_key(price) {
            assert(v.resting.contains_key(v.book.bids[price][0].id));
        }
    }
    assert forall|price: i64| !v.book.asks.contains_key(price) by {
        if v.book.asks.contains_key(price) {
            assert(v.resting.contains_key(v.book.asks[price][0].id));
        }
    }
    assert(v.book.bids =~= Map::empty());
    assert(v.book.asks =~= Map::empty());
}

/// Whether two best prices are the same.
fn same_price(a: Option<i64>, b: Option<i64>) -> (same: bool)
    ensures
        same == (a == b),
{
    match (a, b) {
        (Some(a), Some(b)) => a == b,
        (None, None) => true,
        _ => false,
    }
}

/// An order that rests is on record, where it rests.
proof fn lemma_rests_on_record(v: ExchangeView, id: u64)
    requires
        v.wf(),
        v.book.rests(id),
    ensures
        v.resting.contains_key(id),
{
    let (side, price) = choose|side: Side, price: i64| #[trigger] v.book.rests_at(id, side, price);
    let levels = v.book.side(side);
    let queue = levels[price];
    let i = choose|i: int| 0 <= i < queue.len() && (#[trigger] queue[i]).id == id;
    assert(levels[price][i].id == id);
}

/// Taking an id changes nothing that the flow recorder reads of a new order.
proof fn lemma_same_submission(
    v: ExchangeView,
    w: ExchangeView,
    agent_id: AgentId,
    time: Nanos,
    side: Side,
    limit: Option<i64>,
    qty: u64,
    order_id: u64,
)
    requires
        w == (ExchangeView { next_order_id: w.next_order_id, ..v }),
    ensures
        w.submit_room(agent_id, time, side, limit, qty, order_id) == v.submit_room(
            agent_id,
            time,
            side,
            limit,
            qty,
            order_id,
        ),
        w.flow_submitted(agent_id, time, side, limit, qty, order_id) == v.flow_submitted(
            agent_id,
            time,
            side,
            limit,
            qty,
            order_id,
        ),
        w.mid2() == v.mid2(),
{
}

/// Quantity and notional of a run of fills.
fn totals_of(fills: &Vec<Fill>) -> (totals: (u64, u128))
    requires
        forall|i: int| 0 <= i < fills@.len() ==> (#[trigger] fills@[i]).price >= 0,
        filled_qty(fills@) <= u64::MAX,
    ensures
        totals.0 == filled_qty(fills@),
        totals.1 == fills_notional(fills@),
{
    let mut qty: u64 = 0;
    let mut notional: u128 = 0;
    let ghost all = fills@;
    assert(all.take(0) =~= Seq::<Fill>::empty());
    for i in 0..fills.len()
        invariant
            all == fills@,
            forall|k: int| 0 <= k < all.len() ==> (#[trigger] all[k]).price >= 0,
            filled_qty(all) <= u64::MAX,
            qty == filled_qty(all.take(i as int)),
            notional == fills_notional(all.take(i as int)),
    {
        let fill = fills[i];
        proof {
            let next = all.take(i + 1);
            assert(next.drop_last() =~= all.take(i as int));
            assert(next.last() == fill);
            assert forall|k: int| 0 <= k < next.len() implies (#[trigger] next[k]).price >= 0 by {
                assert(all[k].price >= 0);
            }
            lemma_filled_concat(next, all.skip(i + 1));
            assert(next + all.skip(i + 1) =~= all);
            lemma_fills_notional_bound(next);
            lemma_notional_fits(fill.price, fill.qty);
            assert(i64::MAX * filled_qty(next) <= i64::MAX * u64::MAX) by (nonlinear_arith)
                requires
                    0 <= filled_qty(next) <= u64::MAX,
            ;
        }
        qty = qty + fill.qty;
        notional = notional + fill.price as u128 * fill.qty as u128;
    }
    assert(all.take(all.len() as int) =~= all);
    (qty, notional)
}

} // verus!
