//! The mathematical exchange: how one symbol's market answers each request.

use crate::book_model::{
    after_cancel, after_limit, after_market, best_level, best_price, depth_notional, limit_status,
    limit_sweep, market_status, market_sweep, sum_of, volume_at, within, BookView, Levels,
};
use crate::event::{ExchangeMessage, OrderAction, RoutedMessage};
use crate::fills::{filled_qty, Fill, OrderStatus};
use crate::flow_model::{notional_of, FlowFill, FlowView};
use crate::order::{LimitOrder, MarketOrder, Side};
use crate::records::{L1Bucket, L1Snapshot, TradeRecord};
use crate::types::{AgentId, MarketSnapshot, Nanos, Symbol};
use vstd::prelude::*;

verus! {

/// Identity of a just-created order, as echoed to its owner.
#[derive(Debug, Clone, Copy, PartialEq, Eq, Structural)]
pub struct NewOrder {
    pub id: u64,
    pub user_id: u64,
    pub side: Side,
    pub price: i64,
    pub qty: u64,
}

/// A resting order and who it belongs to.
#[derive(Debug, Clone, Copy, PartialEq, Eq, Structural)]
pub struct OrderInfo {
    pub agent_id: AgentId,
    pub side: Side,
    pub price: i64,
    pub remaining_qty: u64,
    /// Owner's tag, echoed on every message about the order (0 = unset).
    pub user_id: u64,
}

/// Everything one symbol's exchange knows.
#[verifier::ext_equal]
pub struct ExchangeView {
    pub symbol: Symbol,
    pub book: BookView,
    pub is_open: bool,
    pub next_order_id: u64,
    pub resting: Map<u64, OrderInfo>,
    pub last_trade_price: Option<i64>,
    pub last_trade_time: Option<Nanos>,
    pub trades: Seq<TradeRecord>,
    pub l1_snapshots: Seq<L1Snapshot>,
    pub l1_buckets: Seq<L1Bucket>,
    pub keep_trades: bool,
    pub l1_bucket_ns: Option<Nanos>,
    pub open_bucket: Option<L1Bucket>,
    pub flow: Option<FlowView>,
}

/// The exchange after a request, and the messages it sends.
#[verifier::ext_equal]
pub struct Outcome {
    pub exchange: ExchangeView,
    pub messages: Seq<RoutedMessage>,
}

/// Price times quantity over a run of fills.
pub open spec fn fills_notional(fills: Seq<Fill>) -> nat
    decreases fills.len(),
{
    if fills.len() == 0 {
        0
    } else {
        fills_notional(fills.drop_last()) + notional_of(fills.last().price, fills.last().qty) as nat
    }
}

/// Price of the last fill, 0 without one.
pub open spec fn last_price(fills: Seq<Fill>) -> i64 {
    if fills.len() == 0 {
        0
    } else {
        fills.last().price
    }
}

/// Ids from the smallest to the largest.
pub open spec fn ascending(ids: Seq<u64>) -> bool {
    forall|i: int, j: int| 0 <= i < j < ids.len() ==> ids[i] < ids[j]
}

/// The members of a set from the smallest to the largest.
pub open spec fn in_order(ids: Set<u64>) -> Seq<u64> {
    choose|sorted: Seq<u64>| ascending(sorted) && sorted.to_set() == ids
}

/// An order left the book, as the flow recorder sees it.
pub open spec fn flow_gone(flow: Option<FlowView>, time: Nanos, order_id: u64) -> Option<FlowView> {
    match flow {
        Some(flow) => Some(flow.gone(time, order_id)),
        None => None,
    }
}

/// So did each of these orders in turn.
pub open spec fn flow_all_gone(flow: Option<FlowView>, time: Nanos, ids: Seq<u64>) -> Option<
    FlowView,
>
    decreases ids.len(),
{
    if ids.len() == 0 {
        flow
    } else {
        flow_gone(flow_all_gone(flow, time, ids.drop_last()), time, ids.last())
    }
}

/// The flow recorder, if there is one, can count the interval of `time`.
pub open spec fn flow_reaches(flow: Option<FlowView>, time: Nanos) -> bool {
    match flow {
        Some(flow) => flow.reaches(time),
        None => true,
    }
}

/// What is left of the maker's order after a fill.
pub open spec fn maker_remaining(resting: Map<u64, OrderInfo>, fill: Fill) -> u64 {
    let remaining = resting[fill.maker_order_id].remaining_qty;
    if remaining > fill.qty {
        (remaining - fill.qty) as u64
    } else {
        0
    }
}

/// The resting orders after a fill: the maker's is smaller, or gone.
pub open spec fn resting_filled(resting: Map<u64, OrderInfo>, fill: Fill) -> Map<u64, OrderInfo> {
    let maker = fill.maker_order_id;
    if !resting.contains_key(maker) {
        resting
    } else if maker_remaining(resting, fill) == 0 {
        resting.remove(maker)
    } else {
        resting.insert(
            maker,
            OrderInfo { remaining_qty: maker_remaining(resting, fill), ..resting[maker] },
        )
    }
}

/// Every order on a side has a record of its owner that agrees with it.
pub open spec fn owned(levels: Levels, side: Side, resting: Map<u64, OrderInfo>) -> bool {
    forall|price: i64, i: int|
        levels.contains_key(price) && 0 <= i < levels[price].len() ==> {
            let order = #[trigger] levels[price][i];
            &&& resting.contains_key(order.id)
            &&& resting[order.id].side == side
            &&& resting[order.id].price == price
            &&& resting[order.id].remaining_qty == order.qty
        }
}

impl ExchangeView {
    /// A closed exchange with nothing on its book.
    pub open spec fn fresh(symbol: Symbol, starting_order_id: u64) -> ExchangeView {
        ExchangeView {
            symbol,
            book: BookView::empty(),
            is_open: false,
            next_order_id: starting_order_id,
            resting: Map::empty(),
            last_trade_price: None,
            last_trade_time: None,
            trades: Seq::empty(),
            l1_snapshots: Seq::empty(),
            l1_buckets: Seq::empty(),
            keep_trades: true,
            l1_bucket_ns: None,
            open_bucket: None,
            flow: None,
        }
    }

    /// Top of the book and last trade.
    pub open spec fn snapshot(self) -> MarketSnapshot {
        MarketSnapshot {
            best_bid: best_level(self.book.bids, Side::Bid),
            best_ask: best_level(self.book.asks, Side::Ask),
            last_trade_price: self.last_trade_price,
            last_trade_time: self.last_trade_time,
        }
    }

    /// Best bid and best ask.
    pub open spec fn best_prices(self) -> (Option<i64>, Option<i64>) {
        (best_price(self.book.bids, Side::Bid), best_price(self.book.asks, Side::Ask))
    }

    /// Mid in half ticks, if both sides have a positive best price.
    pub open spec fn mid2(self) -> Option<u64> {
        match self.best_prices() {
            (Some(bid), Some(ask)) => if bid > 0 && ask > 0 {
                Some((bid + ask) as u64)
            } else {
                None
            },
            _ => None,
        }
    }

    /// Best bid and its volume, zeros without one.
    pub open spec fn top_bid(self) -> (i64, u64) {
        match best_level(self.book.bids, Side::Bid) {
            Some(level) => level,
            None => (0, 0),
        }
    }

    /// Best ask and its volume, zeros without one.
    pub open spec fn top_ask(self) -> (i64, u64) {
        match best_level(self.book.asks, Side::Ask) {
            Some(level) => level,
            None => (0, 0),
        }
    }

    /// The bucket that a quote at `time` belongs to.
    pub open spec fn bucket_for(self, time: Nanos, bucket_ns: Nanos) -> L1Bucket {
        let start = (time - time % bucket_ns) as u64;
        match self.open_bucket {
            Some(bucket) => if bucket.bucket_start == start {
                bucket
            } else {
                L1Bucket::empty(start, self.symbol)
            },
            None => L1Bucket::empty(start, self.symbol),
        }
    }

    /// The open bucket moved to the finished ones, if there is one.
    pub open spec fn bucket_flushed(self) -> ExchangeView {
        match self.open_bucket {
            Some(bucket) => ExchangeView {
                l1_buckets: self.l1_buckets.push(bucket),
                open_bucket: None,
                ..self
            },
            None => self,
        }
    }

    /// The best quotes recorded: to the flow recorder, and either to a bucket
    /// or to the log.
    pub open spec fn with_l1(self, time: Nanos) -> ExchangeView {
        let (bid_price, bid_volume) = self.top_bid();
        let (ask_price, ask_volume) = self.top_ask();
        let flow = match self.flow {
            Some(flow) => Some(flow.quoted(time, bid_price, ask_price)),
            None => None,
        };
        match self.l1_bucket_ns {
            Some(bucket_ns) => {
                let bucket = self.bucket_for(time, bucket_ns);
                let turned = if self.open_bucket matches Some(open) && open.bucket_start
                    == bucket.bucket_start {
                    self
                } else {
                    self.bucket_flushed()
                };
                ExchangeView {
                    flow,
                    open_bucket: Some(
                        bucket.absorbed(bid_price, ask_price, bid_volume, ask_volume),
                    ),
                    ..turned
                }
            },
            None => ExchangeView {
                flow,
                l1_snapshots: self.l1_snapshots.push(
                    L1Snapshot {
                        timestamp: time,
                        symbol: self.symbol,
                        bid_price,
                        ask_price,
                        bid_volume,
                        ask_volume,
                        last_trade_price: match self.last_trade_price {
                            Some(price) => price,
                            None => 0,
                        },
                    },
                ),
                ..self
            },
        }
    }

    /// The bucket in use can take the best quotes.
    pub open spec fn l1_room(self, time: Nanos) -> bool {
        match self.l1_bucket_ns {
            Some(bucket_ns) => bucket_ns > 0 && self.bucket_for(time, bucket_ns).room(
                self.top_bid().0,
                self.top_ask().0,
                self.top_bid().1,
                self.top_ask().1,
            ),
            None => true,
        }
    }

    /// The market opens.
    pub open spec fn opened(self, time: Nanos) -> ExchangeView {
        ExchangeView { is_open: true, ..self }.with_l1(time)
    }

    /// The cancellation of a resting order, as its owner hears of it.
    pub open spec fn cancel_message(self, order_id: u64) -> RoutedMessage {
        RoutedMessage {
            agent_id: self.resting[order_id].agent_id,
            message: ExchangeMessage::OrderCancelled {
                order_id,
                user_id: self.resting[order_id].user_id,
                symbol: self.symbol,
            },
        }
    }

    /// The market with all orders cancelled and no quotes.
    pub open spec fn emptied(self, time: Nanos) -> ExchangeView {
        ExchangeView {
            is_open: false,
            book: BookView::empty(),
            resting: Map::empty(),
            flow: flow_all_gone(self.flow, time, in_order(self.resting.dom())),
            ..self
        }
    }

    /// The market closes: every resting order is cancelled, and its owner
    /// told, in the order of ids.
    pub open spec fn closed(self, time: Nanos) -> Outcome {
        let ids = in_order(self.resting.dom());
        Outcome {
            exchange: self.emptied(time).with_l1(time),
            messages: Seq::new(ids.len(), |i: int| self.cancel_message(ids[i])),
        }
    }

    pub open spec fn close_room(self, time: Nanos) -> bool {
        &&& self.resting.dom().len() > 0 ==> flow_reaches(self.flow, time)
        &&& self.emptied(time).l1_room(time)
    }

    /// Notional of the flow recorder's own resting orders that a taker of
    /// `side` bound by `limit` could trade with.
    pub open spec fn own_notional(self, live: Set<u64>, side: Side, limit: Option<i64>) -> nat {
        sum_of(
            self.resting.dom().filter(
                |id: u64|
                    live.contains(id) && self.resting[id].side != side && within(
                        side,
                        limit,
                        self.resting[id].price,
                    ),
            ),
            |id: u64| notional_of(self.resting[id].price, self.resting[id].remaining_qty) as nat,
        )
    }

    /// Depth that such a taker finds beyond those orders.
    pub open spec fn external_depth(self, live: Set<u64>, side: Side, limit: Option<i64>) -> u128 {
        let depth = depth_notional(self.book.side(side.spec_opposite()), side, limit);
        let own = self.own_notional(live, side, limit);
        if depth > own {
            (depth - own) as u128
        } else {
            0
        }
    }

    /// Value of a new order in half tick-lots: at its limit, or at the mid
    /// for a market order.
    pub open spec fn half_value(self, limit: Option<i64>, qty: u64) -> Option<u128> {
        match limit {
            Some(price) => Some((2 * notional_of(price, qty)) as u128),
            None => match self.mid2() {
                Some(mid2) => Some((mid2 * qty) as u128),
                None => None,
            },
        }
    }

    /// The flow recorder after a new order came in.
    pub open spec fn flow_submitted(
        self,
        agent_id: AgentId,
        time: Nanos,
        side: Side,
        limit: Option<i64>,
        qty: u64,
        order_id: u64,
    ) -> Option<FlowView> {
        match self.flow {
            Some(flow) => if agent_id != flow.agent_id {
                Some(flow)
            } else {
                Some(
                    flow.accepted(time, agent_id, order_id, qty).sized(
                        time,
                        qty,
                        self.half_value(limit, qty),
                        self.external_depth(flow.live, side, limit),
                    ),
                )
            },
            None => None,
        }
    }

    pub open spec fn submit_room(
        self,
        agent_id: AgentId,
        time: Nanos,
        side: Side,
        limit: Option<i64>,
        qty: u64,
        order_id: u64,
    ) -> bool {
        self.flow matches Some(flow) ==> agent_id == flow.agent_id ==> {
            &&& depth_notional(self.book.side(side.spec_opposite()), side, limit) <= u128::MAX
            &&& self.own_notional(flow.live, side, limit) <= u128::MAX
            &&& flow.accept_room(time, agent_id, qty)
            &&& flow.accepted(time, agent_id, order_id, qty).size_room(
                time,
                qty,
                self.half_value(limit, qty),
                self.external_depth(flow.live, side, limit),
            )
        }
    }

    /// One fill as the flow recorder sees it.
    pub open spec fn flow_fill(
        self,
        taker: AgentId,
        fill: Fill,
        time: Nanos,
        mid2: Option<u64>,
    ) -> FlowFill {
        FlowFill {
            time,
            taker_agent: taker,
            taker_order_id: fill.taker_order_id,
            maker_agent: if self.resting.contains_key(fill.maker_order_id) {
                Some(self.resting[fill.maker_order_id].agent_id)
            } else {
                None
            },
            maker_order_id: fill.maker_order_id,
            taker_side: fill.taker_side,
            price: fill.price,
            qty: fill.qty,
            mid2,
        }
    }

    /// One fill recorded: the last trade, the trade log, the maker's order,
    /// and the maker told.
    pub open spec fn recorded_once(
        self,
        taker: AgentId,
        fill: Fill,
        time: Nanos,
        mid2: Option<u64>,
    ) -> Outcome {
        let maker = fill.maker_order_id;
        let known = self.resting.contains_key(maker);
        let remaining = maker_remaining(self.resting, fill);
        let counted = match self.flow {
            Some(flow) => Some(flow.filled(self.flow_fill(taker, fill, time, mid2))),
            None => None,
        };
        Outcome {
            exchange: ExchangeView {
                last_trade_price: Some(fill.price),
                last_trade_time: Some(time),
                trades: if self.keep_trades {
                    self.trades.push(
                        TradeRecord {
                            timestamp: time,
                            symbol: self.symbol,
                            price: fill.price,
                            qty: fill.qty,
                            aggressor_side: fill.taker_side,
                            maker_order_id: maker,
                            taker_order_id: fill.taker_order_id,
                        },
                    )
                } else {
                    self.trades
                },
                resting: resting_filled(self.resting, fill),
                flow: if known && remaining == 0 {
                    flow_gone(counted, time, maker)
                } else {
                    counted
                },
                ..self
            },
            messages: if known {
                seq![
                    RoutedMessage {
                        agent_id: self.resting[maker].agent_id,
                        message: ExchangeMessage::OrderFilled {
                            order_id: maker,
                            user_id: self.resting[maker].user_id,
                            symbol: self.symbol,
                            side: fill.taker_side.spec_opposite(),
                            price: fill.price,
                            qty: fill.qty,
                            remaining,
                            notional: notional_of(fill.price, fill.qty),
                        },
                    },
                ]
            } else {
                Seq::empty()
            },
        }
    }

    pub open spec fn record_once_room(
        self,
        taker: AgentId,
        fill: Fill,
        time: Nanos,
        mid2: Option<u64>,
    ) -> bool {
        self.flow matches Some(flow) ==> flow.fill_room(self.flow_fill(taker, fill, time, mid2))
    }

    /// A run of fills recorded, one after the other.
    pub open spec fn recorded(
        self,
        taker: AgentId,
        fills: Seq<Fill>,
        time: Nanos,
        mid2: Option<u64>,
    ) -> Outcome
        decreases fills.len(),
    {
        if fills.len() == 0 {
            Outcome { exchange: self, messages: Seq::empty() }
        } else {
            let before = self.recorded(taker, fills.drop_last(), time, mid2);
            let step = before.exchange.recorded_once(taker, fills.last(), time, mid2);
            Outcome { exchange: step.exchange, messages: before.messages + step.messages }
        }
    }

    pub open spec fn record_room(
        self,
        taker: AgentId,
        fills: Seq<Fill>,
        time: Nanos,
        mid2: Option<u64>,
    ) -> bool
        decreases fills.len(),
    {
        fills.len() > 0 ==> {
            &&& self.record_room(taker, fills.drop_last(), time, mid2)
            &&& self.recorded(taker, fills.drop_last(), time, mid2).exchange.record_once_room(
                taker,
                fills.last(),
                time,
                mid2,
            )
        }
    }

    /// The taker's fill message: all its fills in one.
    pub open spec fn taker_fill_message(
        self,
        taker: AgentId,
        order: NewOrder,
        fills: Seq<Fill>,
        remaining: u64,
    ) -> RoutedMessage {
        RoutedMessage {
            agent_id: taker,
            message: ExchangeMessage::OrderFilled {
                order_id: order.id,
                user_id: order.user_id,
                symbol: self.symbol,
                side: order.side,
                price: last_price(fills),
                qty: filled_qty(fills) as u64,
                remaining,
                notional: fills_notional(fills) as u128,
            },
        }
    }

    /// The taker told what became of its order, and the order remembered if it
    /// rests.
    pub open spec fn notified(
        self,
        taker: AgentId,
        order: NewOrder,
        status: OrderStatus,
        fills: Seq<Fill>,
        time: Nanos,
    ) -> Outcome {
        let info = OrderInfo {
            agent_id: taker,
            side: order.side,
            price: order.price,
            remaining_qty: order.qty,
            user_id: order.user_id,
        };
        match status {
            OrderStatus::Filled => Outcome {
                exchange: ExchangeView { flow: flow_gone(self.flow, time, order.id), ..self },
                messages: seq![self.taker_fill_message(taker, order, fills, 0)],
            },
            OrderStatus::Placed => Outcome {
                exchange: ExchangeView { resting: self.resting.insert(order.id, info), ..self },
                messages: Seq::empty(),
            },
            OrderStatus::Resting { remaining_qty } => Outcome {
                exchange: ExchangeView {
                    resting: self.resting.insert(order.id, OrderInfo { remaining_qty, ..info }),
                    ..self
                },
                messages: if filled_qty(fills) > 0 {
                    seq![self.taker_fill_message(taker, order, fills, remaining_qty)]
                } else {
                    Seq::empty()
                },
            },
            OrderStatus::Cancelled { filled_qty: filled } => Outcome {
                exchange: ExchangeView { flow: flow_gone(self.flow, time, order.id), ..self },
                messages: (if filled > 0 {
                    seq![self.taker_fill_message(taker, order, fills, 0)]
                } else {
                    Seq::empty()
                }).push(
                    RoutedMessage {
                        agent_id: taker,
                        message: ExchangeMessage::OrderCancelled {
                            order_id: order.id,
                            user_id: order.user_id,
                            symbol: self.symbol,
                        },
                    },
                ),
            },
        }
    }

    pub open spec fn notify_room(self, status: OrderStatus, time: Nanos) -> bool {
        (status is Filled || status is Cancelled) ==> flow_reaches(self.flow, time)
    }

    /// The acknowledgment of a new order.
    pub open spec fn accepted_message(self, agent_id: AgentId, order: NewOrder) -> RoutedMessage {
        RoutedMessage {
            agent_id,
            message: ExchangeMessage::OrderAccepted {
                order_id: order.id,
                user_id: order.user_id,
                symbol: self.symbol,
                side: order.side,
                qty: order.qty,
            },
        }
    }

    /// A new order has its id, and the flow recorder knows of it.
    pub open spec fn admitted(
        self,
        agent_id: AgentId,
        order: NewOrder,
        limit: Option<i64>,
        time: Nanos,
    ) -> ExchangeView {
        ExchangeView {
            next_order_id: (self.next_order_id + 1) as u64,
            flow: self.flow_submitted(agent_id, time, order.side, limit, order.qty, order.id),
            ..self
        }
    }

    /// A new order after matching: it is acknowledged, its makers are told of
    /// their fills, and then it is told what became of it.
    pub open spec fn executed(
        self,
        agent_id: AgentId,
        order: NewOrder,
        limit: Option<i64>,
        book: BookView,
        fills: Seq<Fill>,
        status: OrderStatus,
        time: Nanos,
    ) -> Outcome {
        let matched = ExchangeView {
            book,
            ..self.admitted(agent_id, order, limit, time)
        };
        let recorded = matched.recorded(agent_id, fills, time, self.mid2());
        let notified = recorded.exchange.notified(agent_id, order, status, fills, time);
        Outcome {
            exchange: notified.exchange,
            messages: seq![self.accepted_message(agent_id, order)] + recorded.messages
                + notified.messages,
        }
    }

    pub open spec fn execute_room(
        self,
        agent_id: AgentId,
        order: NewOrder,
        limit: Option<i64>,
        book: BookView,
        fills: Seq<Fill>,
        status: OrderStatus,
        time: Nanos,
    ) -> bool {
        let matched = ExchangeView {
            book,
            ..self.admitted(agent_id, order, limit, time)
        };
        let recorded = matched.recorded(agent_id, fills, time, self.mid2());
        &&& self.next_order_id < u64::MAX
        &&& self.submit_room(agent_id, time, order.side, limit, order.qty, order.id)
        &&& matched.record_room(agent_id, fills, time, self.mid2())
        &&& recorded.exchange.notify_room(status, time)
    }

    /// The order that a new limit order becomes.
    pub open spec fn new_limit(self, side: Side, price: i64, qty: u64, user_id: u64) -> NewOrder {
        NewOrder { id: self.next_order_id, user_id, side, price, qty }
    }

    /// The order that a new market order becomes.
    pub open spec fn new_market(self, side: Side, qty: u64, user_id: u64) -> NewOrder {
        NewOrder { id: self.next_order_id, user_id, side, price: 0, qty }
    }

    /// A limit order as the book takes it.
    pub open spec fn limit_order(self, order: NewOrder, time: Nanos) -> LimitOrder {
        LimitOrder {
            id: order.id,
            side: order.side,
            price: order.price,
            qty: order.qty,
            timestamp: time,
        }
    }

    /// A market order as the book takes it.
    pub open spec fn market_order(self, order: NewOrder) -> MarketOrder {
        MarketOrder { id: order.id, side: order.side, qty: order.qty }
    }

    /// What an open market does with a request, before the quotes are
    /// recorded.
    pub open spec fn applied(self, agent_id: AgentId, action: OrderAction, time: Nanos) -> Outcome {
        match action {
            OrderAction::NewLimitOrder { side, price, qty, user_id } => {
                let order = self.new_limit(side, price, qty, user_id);
                let sweep = limit_sweep(self.book, self.limit_order(order, time));
                self.executed(
                    agent_id,
                    order,
                    Some(price),
                    after_limit(self.book, self.limit_order(order, time)),
                    sweep.fills,
                    limit_status(qty as nat, sweep.remaining),
                    time,
                )
            },
            OrderAction::NewMarketOrder { side, qty, user_id } => {
                let order = self.new_market(side, qty, user_id);
                let sweep = market_sweep(self.book, self.market_order(order));
                self.executed(
                    agent_id,
                    order,
                    None,
                    after_market(self.book, self.market_order(order)),
                    sweep.fills,
                    market_status(qty as nat, sweep.remaining),
                    time,
                )
            },
            OrderAction::CancelOrder { order_id } => if self.book.rests(order_id) {
                Outcome {
                    exchange: ExchangeView {
                        book: after_cancel(self.book, order_id),
                        resting: self.resting.remove(order_id),
                        flow: flow_gone(self.flow, time, order_id),
                        ..self
                    },
                    messages: seq![
                        RoutedMessage {
                            agent_id,
                            message: ExchangeMessage::OrderCancelled {
                                order_id,
                                user_id: self.resting[order_id].user_id,
                                symbol: self.symbol,
                            },
                        },
                    ],
                }
            } else {
                Outcome {
                    exchange: self,
                    messages: seq![
                        RoutedMessage {
                            agent_id,
                            message: ExchangeMessage::OrderRejected {
                                order_id,
                                user_id: 0,
                                symbol: self.symbol,
                            },
                        },
                    ],
                }
            },
        }
    }

    /// The request is one that an open market takes: quantities are positive,
    /// prices are not negative, and every counter has room.
    pub open spec fn apply_room(self, agent_id: AgentId, action: OrderAction, time: Nanos) -> bool {
        match action {
            OrderAction::NewLimitOrder { side, price, qty, user_id } => {
                let order = self.new_limit(side, price, qty, user_id);
                let sweep = limit_sweep(self.book, self.limit_order(order, time));
                &&& qty > 0
                &&& price >= 0
                &&& volume_at(self.book.side(side), price) + qty <= u64::MAX
                &&& self.execute_room(
                    agent_id,
                    order,
                    Some(price),
                    after_limit(self.book, self.limit_order(order, time)),
                    sweep.fills,
                    limit_status(qty as nat, sweep.remaining),
                    time,
                )
            },
            OrderAction::NewMarketOrder { side, qty, user_id } => {
                let order = self.new_market(side, qty, user_id);
                let sweep = market_sweep(self.book, self.market_order(order));
                &&& qty > 0
                &&& self.execute_room(
                    agent_id,
                    order,
                    None,
                    after_market(self.book, self.market_order(order)),
                    sweep.fills,
                    market_status(qty as nat, sweep.remaining),
                    time,
                )
            },
            OrderAction::CancelOrder { order_id } => self.book.rests(order_id) ==> flow_reaches(
                self.flow,
                time,
            ),
        }
    }

    /// What a closed market does with a request: nothing but say no.
    pub open spec fn refused(self, agent_id: AgentId, action: OrderAction, time: Nanos) -> Outcome {
        let (order_id, user_id) = match action {
            OrderAction::CancelOrder { order_id } => (order_id, 0),
            OrderAction::NewLimitOrder { side, price, qty, user_id } => (0, user_id),
            OrderAction::NewMarketOrder { side, qty, user_id } => (0, user_id),
        };
        Outcome {
            exchange: ExchangeView {
                flow: match self.flow {
                    Some(flow) => if action is CancelOrder {
                        Some(flow)
                    } else {
                        Some(flow.rejected(time, agent_id))
                    },
                    None => None,
                },
                ..self
            },
            messages: seq![
                RoutedMessage {
                    agent_id,
                    message: ExchangeMessage::OrderRejected {
                        order_id,
                        user_id,
                        symbol: self.symbol,
                    },
                },
            ],
        }
    }

    /// What the exchange does with a request. The quotes are recorded when a
    /// best price moved.
    pub open spec fn processed(self, agent_id: AgentId, action: OrderAction, time: Nanos) -> Outcome {
        if !self.is_open {
            self.refused(agent_id, action, time)
        } else {
            let applied = self.applied(agent_id, action, time);
            if applied.exchange.best_prices() == self.best_prices() {
                applied
            } else {
                Outcome { exchange: applied.exchange.with_l1(time), ..applied }
            }
        }
    }

    /// The request is one that the exchange takes.
    pub open spec fn process_room(self, agent_id: AgentId, action: OrderAction, time: Nanos) -> bool {
        if !self.is_open {
            match self.flow {
                Some(flow) => action is CancelOrder || flow.reject_room(time, agent_id),
                None => true,
            }
        } else {
            let applied = self.applied(agent_id, action, time);
            &&& self.apply_room(agent_id, action, time)
            &&& applied.exchange.best_prices() != self.best_prices() ==> applied.exchange.l1_room(
                time,
            )
        }
    }

    /// The book is sound, its orders are exactly those on record, and the flow
    /// recorder is valid.
    pub open spec fn wf(self) -> bool {
        &&& self.book.wf()
        &&& owned(self.book.bids, Side::Bid, self.resting)
        &&& owned(self.book.asks, Side::Ask, self.resting)
        &&& forall|id: u64| #[trigger]
            self.resting.contains_key(id) ==> {
                &&& id < self.next_order_id
                &&& self.book.rests_at(id, self.resting[id].side, self.resting[id].price)
            }
        &&& self.resting.dom().finite()
        &&& self.flow matches Some(flow) ==> flow.wf()
    }
}

} // verus!
