//! What holds of every exchange and every request.

use crate::book_lemmas::lemma_level_filled_wf;
use crate::book_model::{
    after_limit, after_market, front_filled, is_best, least, levels_wf, limit_status, limit_sweep,
    market_status, market_sweep, next_maker, sweep, with_queue, BookView, Levels,
};
use crate::event::{ExchangeMessage, OrderAction, RoutedMessage};
use crate::exchange_lemmas::{
    lemma_in_order_exists, lemma_recorded_resting, lemma_resting_after_front, lemma_step_owned,
    lemma_sweep_conserves, lemma_wf_sides, listed, resting_after, single,
};
use crate::exchange_model::{
    in_order, maker_remaining, owned, resting_filled, ExchangeView, NewOrder, OrderInfo,
};
use crate::fills::{Fill, OrderStatus};
use crate::flow_model::notional_of;
use crate::order::Side;
use crate::records::{L1Bucket, L1Snapshot, TradeRecord};
use crate::types::{AgentId, Nanos};
use vstd::prelude::*;

verus! {

/// The fills that a new order causes on an open market.
pub open spec fn fills_of(v: ExchangeView, action: OrderAction, time: Nanos) -> Seq<Fill> {
    match action {
        OrderAction::NewLimitOrder { side, price, qty, user_id } => limit_sweep(
            v.book,
            v.limit_order(v.new_limit(side, price, qty, user_id), time),
        ).fills,
        OrderAction::NewMarketOrder { side, qty, user_id } => market_sweep(
            v.book,
            v.market_order(v.new_market(side, qty, user_id)),
        ).fills,
        OrderAction::CancelOrder { order_id } => Seq::empty(),
    }
}

/// The message acknowledges a new order.
pub open spec fn is_ack(routed: RoutedMessage) -> bool {
    routed.message is OrderAccepted
}

/// The message acknowledges this new order to its owner, under the next id.
pub open spec fn acknowledges(
    routed: RoutedMessage,
    v: ExchangeView,
    agent_id: AgentId,
    action: OrderAction,
) -> bool {
    &&& routed.agent_id == agent_id
    &&& match action {
        OrderAction::NewLimitOrder { side, price, qty, user_id } => routed.message
            == ExchangeMessage::OrderAccepted {
            order_id: v.next_order_id,
            user_id,
            symbol: v.symbol,
            side,
            qty,
        },
        OrderAction::NewMarketOrder { side, qty, user_id } => routed.message
            == ExchangeMessage::OrderAccepted {
            order_id: v.next_order_id,
            user_id,
            symbol: v.symbol,
            side,
            qty,
        },
        OrderAction::CancelOrder { order_id } => false,
    }
}

/// Makers hear of nothing but fills.
proof fn lemma_recorded_messages(
    v: ExchangeView,
    taker: AgentId,
    fills: Seq<Fill>,
    time: Nanos,
    mid2: Option<u64>,
)
    ensures
        forall|i: int|
            0 <= i < v.recorded(taker, fills, time, mid2).messages.len() ==> (
            #[trigger] v.recorded(taker, fills, time, mid2).messages[i]).message is OrderFilled,
    decreases fills.len(),
{
    if fills.len() > 0 {
        lemma_recorded_messages(v, taker, fills.drop_last(), time, mid2);
        let before = v.recorded(taker, fills.drop_last(), time, mid2);
        let step = before.exchange.recorded_once(taker, fills.last(), time, mid2);
        let all = v.recorded(taker, fills, time, mid2).messages;
        assert forall|i: int| 0 <= i < all.len() implies (
        #[trigger] all[i]).message is OrderFilled by {
            if i < before.messages.len() {
                assert(all[i] == before.messages[i]);
            } else {
                assert(all[i] == step.messages[i - before.messages.len()]);
            }
        }
    }
}

/// An order that was matched is acknowledged once, and first.
proof fn lemma_executed_ack(
    v: ExchangeView,
    agent_id: AgentId,
    order: NewOrder,
    limit: Option<i64>,
    book: BookView,
    fills: Seq<Fill>,
    status: OrderStatus,
    time: Nanos,
)
    ensures
        ({
            let messages = v.executed(agent_id, order, limit, book, fills, status, time).messages;
            &&& messages.len() > 0
            &&& messages[0] == v.accepted_message(agent_id, order)
            &&& forall|i: int| 0 < i < messages.len() ==> !is_ack(#[trigger] messages[i])
        }),
{
    let matched = ExchangeView { book, ..v.admitted(agent_id, order, limit, time) };
    let recorded = matched.recorded(agent_id, fills, time, v.mid2());
    let notified = recorded.exchange.notified(agent_id, order, status, fills, time);
    let messages = v.executed(agent_id, order, limit, book, fills, status, time).messages;
    lemma_recorded_messages(matched, agent_id, fills, time, v.mid2());
    assert forall|i: int| 0 < i < messages.len() implies !is_ack(#[trigger] messages[i]) by {
        if i < 1 + recorded.messages.len() {
            assert(messages[i] == recorded.messages[i - 1]);
        } else {
            assert(messages[i] == notified.messages[i - 1 - recorded.messages.len()]);
        }
    }
}

/// On an open market every new order is acknowledged exactly once, before any
/// of its fills, under an id that no order had before. No other request takes
/// an id.
pub proof fn law_a_new_order_is_acknowledged_once_and_first(
    v: ExchangeView,
    agent_id: AgentId,
    action: OrderAction,
    time: Nanos,
)
    requires
        v.wf(),
        v.process_room(agent_id, action, time),
    ensures
        ({
            let all = v.processed(agent_id, action, time);
            if v.is_open && !(action is CancelOrder) {
                &&& all.messages.len() > 0
                &&& is_ack(all.messages[0])
                &&& acknowledges(all.messages[0], v, agent_id, action)
                &&& !v.resting.contains_key(v.next_order_id)
                &&& all.exchange.next_order_id == v.next_order_id + 1
                &&& forall|i: int| 0 < i < all.messages.len() ==> !is_ack(#[trigger] all.messages[i])
            } else {
                &&& all.exchange.next_order_id == v.next_order_id
                &&& forall|i: int|
                    0 <= i < all.messages.len() ==> !is_ack(#[trigger] all.messages[i])
            }
        }),
{
    if v.is_open {
        match action {
            OrderAction::NewLimitOrder { side, price, qty, user_id } => {
                let order = v.new_limit(side, price, qty, user_id);
                let book = after_limit(v.book, v.limit_order(order, time));
                let sweep = limit_sweep(v.book, v.limit_order(order, time));
                let status = limit_status(qty as nat, sweep.remaining);
                let limit = Some(price);
                lemma_executed_ack(v, agent_id, order, limit, book, sweep.fills, status, time);
                let matched = ExchangeView { book, ..v.admitted(agent_id, order, limit, time) };
                lemma_recorded_resting(matched, agent_id, sweep.fills, time, v.mid2());
            },
            OrderAction::NewMarketOrder { side, qty, user_id } => {
                let order = v.new_market(side, qty, user_id);
                let book = after_market(v.book, v.market_order(order));
                let sweep = market_sweep(v.book, v.market_order(order));
                let status = market_status(qty as nat, sweep.remaining);
                lemma_executed_ack(v, agent_id, order, None, book, sweep.fills, status, time);
                let matched = ExchangeView { book, ..v.admitted(agent_id, order, None, time) };
                lemma_recorded_resting(matched, agent_id, sweep.fills, time, v.mid2());
            },
            OrderAction::CancelOrder { order_id } => {},
        }
    }
}

/// A request as it comes to an exchange.
pub struct Request {
    pub agent_id: AgentId,
    pub action: OrderAction,
    pub time: Nanos,
}

/// The exchange after some requests.
pub open spec fn after_requests(v: ExchangeView, requests: Seq<Request>) -> ExchangeView
    decreases requests.len(),
{
    if requests.len() == 0 {
        v
    } else {
        let last = requests.last();
        after_requests(v, requests.drop_last()).processed(
            last.agent_id,
            last.action,
            last.time,
        ).exchange
    }
}

/// The exchange takes each of the requests.
pub open spec fn takes_all(v: ExchangeView, requests: Seq<Request>) -> bool
    decreases requests.len(),
{
    requests.len() > 0 ==> {
        let last = requests.last();
        &&& takes_all(v, requests.drop_last())
        &&& after_requests(v, requests.drop_last()).process_room(
            last.agent_id,
            last.action,
            last.time,
        )
    }
}

/// How many of the requests are new orders.
pub open spec fn new_orders(requests: Seq<Request>) -> nat
    decreases requests.len(),
{
    if requests.len() == 0 {
        0
    } else {
        new_orders(requests.drop_last()) + if requests.last().action is CancelOrder {
            0nat
        } else {
            1nat
        }
    }
}

/// Order ids go up by one with each new order that an open market takes, and
/// with nothing else. The order that comes after some requests is acknowledged
/// under the id after theirs, so that no two orders have the same id.
pub proof fn law_ids_go_up_by_one(v: ExchangeView, requests: Seq<Request>)
    requires
        v.is_open,
        takes_all(v, requests),
    ensures
        after_requests(v, requests).is_open,
        after_requests(v, requests).next_order_id == v.next_order_id + new_orders(requests),
    decreases requests.len(),
{
    if requests.len() > 0 {
        let last = requests.last();
        let before = after_requests(v, requests.drop_last());
        law_ids_go_up_by_one(v, requests.drop_last());
        match last.action {
            OrderAction::NewLimitOrder { side, price, qty, user_id } => {
                let order = before.new_limit(side, price, qty, user_id);
                let taken = before.limit_order(order, last.time);
                let matched = ExchangeView {
                    book: after_limit(before.book, taken),
                    ..before.admitted(last.agent_id, order, Some(price), last.time)
                };
                lemma_recorded_resting(
                    matched,
                    last.agent_id,
                    limit_sweep(before.book, taken).fills,
                    last.time,
                    before.mid2(),
                );
            },
            OrderAction::NewMarketOrder { side, qty, user_id } => {
                let order = before.new_market(side, qty, user_id);
                let taken = before.market_order(order);
                let matched = ExchangeView {
                    book: after_market(before.book, taken),
                    ..before.admitted(last.agent_id, order, None, last.time)
                };
                lemma_recorded_resting(
                    matched,
                    last.agent_id,
                    market_sweep(before.book, taken).fills,
                    last.time,
                    before.mid2(),
                );
            },
            OrderAction::CancelOrder { order_id } => {},
        }
    }
}

/// A closed market refuses every request with one message, and trades nothing:
/// a refused new order carries no id, a refused cancel that of its target.
pub proof fn law_a_closed_market_refuses(
    v: ExchangeView,
    agent_id: AgentId,
    action: OrderAction,
    time: Nanos,
)
    requires
        !v.is_open,
    ensures
        ({
            let all = v.processed(agent_id, action, time);
            &&& all.messages.len() == 1
            &&& all.messages[0].agent_id == agent_id
            &&& all.messages[0].message is OrderRejected
            &&& all.messages[0].message->OrderRejected_order_id == match action {
                OrderAction::CancelOrder { order_id } => order_id,
                _ => 0,
            }
            &&& all.exchange == ExchangeView { flow: all.exchange.flow, ..v }
        }),
{
}

/// A cancel of an order that does not rest is refused and changes nothing.
pub proof fn law_an_unknown_cancel_is_refused(
    v: ExchangeView,
    agent_id: AgentId,
    order_id: u64,
    time: Nanos,
)
    requires
        v.is_open,
        !v.book.rests(order_id),
    ensures
        ({
            let all = v.processed(agent_id, OrderAction::CancelOrder { order_id }, time);
            &&& all.exchange == v
            &&& all.messages == seq![
                RoutedMessage {
                    agent_id,
                    message: ExchangeMessage::OrderRejected {
                        order_id,
                        user_id: 0,
                        symbol: v.symbol,
                    },
                },
            ]
        }),
{
}

/// Every maker of a sweep is on record when its fill comes.
pub proof fn lemma_makers_known(
    levels: Levels,
    taker_side: Side,
    taker_id: u64,
    limit: Option<i64>,
    qty: nat,
    resting: Map<u64, OrderInfo>,
    i: int,
)
    requires
        levels_wf(levels),
        single(levels),
        owned(levels, taker_side.spec_opposite(), resting),
        listed(levels, taker_side.spec_opposite(), resting),
        resting.dom().finite(),
        0 <= i < sweep(levels, taker_side, taker_id, limit, qty).fills.len(),
    ensures
        ({
            let fills = sweep(levels, taker_side, taker_id, limit, qty).fills;
            resting_after(resting, fills.take(i)).contains_key(fills[i].maker_order_id)
        }),
    decreases qty,
{
    match next_maker(levels, taker_side, limit, qty) {
        None => {},
        Some(price) => {
            let side = taker_side.spec_opposite();
            let part = least(levels[price][0].qty as nat, qty);
            let after = with_queue(levels, price, front_filled(levels[price], part));
            let left = (qty - part) as nat;
            let fills = sweep(levels, taker_side, taker_id, limit, qty).fills;
            let rest = sweep(after, taker_side, taker_id, limit, left).fills;
            assert(is_best(levels, side, price));
            assert(levels[price][0].id == fills[0].maker_order_id);
            if i == 0 {
                assert(fills.take(0) =~= Seq::<Fill>::empty());
            } else {
                lemma_level_filled_wf(levels, price, part);
                lemma_step_owned(levels, side, price, part, fills[0], resting);
                lemma_makers_known(
                    after,
                    taker_side,
                    taker_id,
                    limit,
                    left,
                    resting_filled(resting, fills[0]),
                    i - 1,
                );
                assert(fills.take(i) =~= seq![fills[0]] + rest.take(i - 1));
                lemma_resting_after_front(resting, fills[0], rest.take(i - 1));
            }
        },
    }
}

/// The trade that a fill becomes.
pub open spec fn trade_of(v: ExchangeView, fill: Fill, time: Nanos) -> TradeRecord {
    TradeRecord {
        timestamp: time,
        symbol: v.symbol,
        price: fill.price,
        qty: fill.qty,
        aggressor_side: fill.taker_side,
        maker_order_id: fill.maker_order_id,
        taker_order_id: fill.taker_order_id,
    }
}

/// The message tells the owner of the maker of its fill.
pub open spec fn tells_maker(
    routed: RoutedMessage,
    v: ExchangeView,
    resting: Map<u64, OrderInfo>,
    fill: Fill,
) -> bool {
    let maker = fill.maker_order_id;
    &&& resting.contains_key(maker)
    &&& routed.agent_id == resting[maker].agent_id
    &&& routed.message matches ExchangeMessage::OrderFilled {
        order_id,
        user_id,
        symbol,
        side,
        price,
        qty,
        remaining,
        notional,
    } && {
        &&& order_id == maker
        &&& user_id == resting[maker].user_id
        &&& symbol == v.symbol
        &&& side == fill.taker_side.spec_opposite()
        &&& price == fill.price
        &&& qty == fill.qty
        &&& remaining == maker_remaining(resting, fill)
        &&& notional == notional_of(fill.price, fill.qty)
    }
}

/// Recorded fills whose makers are known give one trade and one message each.
pub proof fn lemma_recorded_each(
    v: ExchangeView,
    taker: AgentId,
    fills: Seq<Fill>,
    time: Nanos,
    mid2: Option<u64>,
)
    requires
        forall|i: int|
            #![trigger fills[i]]
            0 <= i < fills.len() ==> resting_after(v.resting, fills.take(i)).contains_key(
                fills[i].maker_order_id,
            ),
    ensures
        ({
            let all = v.recorded(taker, fills, time, mid2);
            &&& all.messages.len() == fills.len()
            &&& forall|i: int|
                0 <= i < fills.len() ==> tells_maker(
                    #[trigger] all.messages[i],
                    v,
                    resting_after(v.resting, fills.take(i)),
                    fills[i],
                )
            &&& all.exchange.trades == if v.keep_trades {
                v.trades + Seq::new(fills.len(), |i: int| trade_of(v, fills[i], time))
            } else {
                v.trades
            }
        }),
    decreases fills.len(),
{
    let all = v.recorded(taker, fills, time, mid2);
    if fills.len() == 0 {
        assert(all.exchange.trades =~= if v.keep_trades {
            v.trades + Seq::new(fills.len(), |i: int| trade_of(v, fills[i], time))
        } else {
            v.trades
        });
    } else {
        let less = fills.drop_last();
        let n = less.len() as int;
        assert forall|i: int|
            #![trigger less[i]]
            0 <= i < less.len() implies resting_after(v.resting, less.take(i)).contains_key(
            less[i].maker_order_id,
        ) by {
            assert(less.take(i) =~= fills.take(i));
            assert(less[i] == fills[i]);
        }
        lemma_recorded_each(v, taker, less, time, mid2);
        let before = v.recorded(taker, less, time, mid2);
        lemma_recorded_resting(v, taker, less, time, mid2);
        assert(fills.take(n) =~= less);
        assert(fills[n] == fills.last());
        assert forall|i: int| 0 <= i < fills.len() implies tells_maker(
            #[trigger] all.messages[i],
            v,
            resting_after(v.resting, fills.take(i)),
            fills[i],
        ) by {
            if i < n {
                assert(all.messages[i] == before.messages[i]);
                assert(less.take(i) =~= fills.take(i));
            }
        }
        if v.keep_trades {
            assert(all.exchange.trades =~= v.trades + Seq::new(
                fills.len(),
                |i: int| trade_of(v, fills[i], time),
            ));
        }
    }
}

/// Every fill of a new order is one trade, and its maker's owner is told of
/// it, in the order of the fills: after the acknowledgment, and before the
/// taker hears what became of its order.
pub proof fn law_every_fill_is_traded_and_told(
    v: ExchangeView,
    agent_id: AgentId,
    action: OrderAction,
    time: Nanos,
)
    requires
        v.wf(),
        v.is_open,
        v.process_room(agent_id, action, time),
    ensures
        ({
            let fills = fills_of(v, action, time);
            let all = v.processed(agent_id, action, time);
            &&& all.exchange.trades == if v.keep_trades {
                v.trades + Seq::new(fills.len(), |i: int| trade_of(v, fills[i], time))
            } else {
                v.trades
            }
            &&& all.messages.len() > fills.len()
            &&& forall|i: int|
                0 <= i < fills.len() ==> tells_maker(
                    #[trigger] all.messages[i + 1],
                    v,
                    resting_after(v.resting, fills.take(i)),
                    fills[i],
                )
        }),
{
    let fills = fills_of(v, action, time);
    match action {
        OrderAction::NewLimitOrder { side, price, qty, user_id } => {
            let order = v.new_limit(side, price, qty, user_id);
            let book = after_limit(v.book, v.limit_order(order, time));
            let status = limit_status(
                qty as nat,
                limit_sweep(v.book, v.limit_order(order, time)).remaining,
            );
            lemma_executed_each(v, agent_id, order, Some(price), book, status, time);
        },
        OrderAction::NewMarketOrder { side, qty, user_id } => {
            let order = v.new_market(side, qty, user_id);
            let book = after_market(v.book, v.market_order(order));
            let status = market_status(
                qty as nat,
                market_sweep(v.book, v.market_order(order)).remaining,
            );
            lemma_executed_each(v, agent_id, order, None, book, status, time);
        },
        OrderAction::CancelOrder { order_id } => {
            assert(v.trades + Seq::new(fills.len(), |i: int| trade_of(v, fills[i], time))
                =~= v.trades);
        },
    }
}

/// The same of an order that was matched.
proof fn lemma_executed_each(
    v: ExchangeView,
    agent_id: AgentId,
    order: NewOrder,
    limit: Option<i64>,
    book: BookView,
    status: OrderStatus,
    time: Nanos,
)
    requires
        v.wf(),
    ensures
        ({
            let fills = sweep(
                v.book.side(order.side.spec_opposite()),
                order.side,
                order.id,
                limit,
                order.qty as nat,
            ).fills;
            let all = v.executed(agent_id, order, limit, book, fills, status, time);
            &&& all.exchange.trades == if v.keep_trades {
                v.trades + Seq::new(fills.len(), |i: int| trade_of(v, fills[i], time))
            } else {
                v.trades
            }
            &&& all.messages.len() > fills.len()
            &&& forall|i: int|
                0 <= i < fills.len() ==> tells_maker(
                    #[trigger] all.messages[i + 1],
                    v,
                    resting_after(v.resting, fills.take(i)),
                    fills[i],
                )
        }),
{
    let maker = order.side.spec_opposite();
    let levels = v.book.side(maker);
    let fills = sweep(levels, order.side, order.id, limit, order.qty as nat).fills;
    let matched = ExchangeView { book, ..v.admitted(agent_id, order, limit, time) };
    lemma_wf_sides(v, maker);
    assert forall|i: int|
        #![trigger fills[i]]
        0 <= i < fills.len() implies resting_after(v.resting, fills.take(i)).contains_key(
        fills[i].maker_order_id,
    ) by {
        lemma_makers_known(
            levels,
            order.side,
            order.id,
            limit,
            order.qty as nat,
            v.resting,
            i,
        );
    }
    lemma_recorded_each(matched, agent_id, fills, time, v.mid2());
    let recorded = matched.recorded(agent_id, fills, time, v.mid2());
    let all = v.executed(agent_id, order, limit, book, fills, status, time);
    assert forall|i: int| 0 <= i < fills.len() implies tells_maker(
        #[trigger] all.messages[i + 1],
        v,
        resting_after(v.resting, fills.take(i)),
        fills[i],
    ) by {
        assert(all.messages[i + 1] == recorded.messages[i]);
    }
    assert(Seq::new(fills.len(), |i: int| trade_of(v, fills[i], time)) =~= Seq::new(
        fills.len(),
        |i: int| trade_of(matched, fills[i], time),
    ));
}

/// An order that is not on record stays off it.
proof fn lemma_absent_stays_absent(resting: Map<u64, OrderInfo>, fills: Seq<Fill>, id: u64)
    requires
        !resting.contains_key(id),
    ensures
        !resting_after(resting, fills).contains_key(id),
    decreases fills.len(),
{
    if fills.len() > 0 {
        lemma_absent_stays_absent(resting, fills.drop_last(), id);
    }
}

/// What a maker is told to remain is what remains of it after the sweep.
proof fn lemma_maker_remains(
    levels: Levels,
    taker_side: Side,
    taker_id: u64,
    limit: Option<i64>,
    qty: nat,
    resting: Map<u64, OrderInfo>,
    i: int,
)
    requires
        levels_wf(levels),
        single(levels),
        owned(levels, taker_side.spec_opposite(), resting),
        listed(levels, taker_side.spec_opposite(), resting),
        resting.dom().finite(),
        0 <= i < sweep(levels, taker_side, taker_id, limit, qty).fills.len(),
    ensures
        ({
            let fills = sweep(levels, taker_side, taker_id, limit, qty).fills;
            let remaining = maker_remaining(resting_after(resting, fills.take(i)), fills[i]);
            let after = resting_after(resting, fills);
            let maker = fills[i].maker_order_id;
            &&& after.contains_key(maker) <==> remaining > 0
            &&& remaining > 0 ==> after[maker].remaining_qty == remaining
        }),
    decreases qty,
{
    match next_maker(levels, taker_side, limit, qty) {
        None => {},
        Some(price) => {
            let side = taker_side.spec_opposite();
            let front = levels[price][0];
            let part = least(front.qty as nat, qty);
            let after = with_queue(levels, price, front_filled(levels[price], part));
            let left = (qty - part) as nat;
            let fills = sweep(levels, taker_side, taker_id, limit, qty).fills;
            let rest = sweep(after, taker_side, taker_id, limit, left).fills;
            let then = resting_filled(resting, fills[0]);
            assert(is_best(levels, side, price));
            assert(front.id == fills[0].maker_order_id);
            assert(fills =~= seq![fills[0]] + rest);
            lemma_resting_after_front(resting, fills[0], rest);
            if i == 0 {
                assert(fills.take(0) =~= Seq::<Fill>::empty());
                assert(resting[front.id].remaining_qty == front.qty);
                if front.qty <= qty {
                    lemma_absent_stays_absent(then, rest, front.id);
                } else {
                    assert(left == 0);
                    assert(rest =~= Seq::<Fill>::empty());
                }
            } else {
                lemma_level_filled_wf(levels, price, part);
                lemma_step_owned(levels, side, price, part, fills[0], resting);
                lemma_maker_remains(after, taker_side, taker_id, limit, left, then, i - 1);
                assert(fills.take(i) =~= seq![fills[0]] + rest.take(i - 1));
                lemma_resting_after_front(resting, fills[0], rest.take(i - 1));
            }
        },
    }
}

/// The fill message, if it is one, tells what rests of its order: a positive
/// quantity that is on record, or nothing.
pub open spec fn tells_what_rests(
    message: ExchangeMessage,
    resting: Map<u64, OrderInfo>,
) -> bool {
    message matches ExchangeMessage::OrderFilled { order_id, remaining, .. } ==> {
        &&& resting.contains_key(order_id) <==> remaining > 0
        &&& remaining > 0 ==> resting[order_id].remaining_qty == remaining
    }
}

/// The fills of an order that was matched tell what rests.
#[verifier::rlimit(40)]
proof fn lemma_executed_rests(
    v: ExchangeView,
    agent_id: AgentId,
    order: NewOrder,
    limit: Option<i64>,
    book: BookView,
    status: OrderStatus,
    time: Nanos,
)
    requires
        v.wf(),
        order.id == v.next_order_id,
        status matches OrderStatus::Resting { remaining_qty } ==> remaining_qty > 0,
    ensures
        ({
            let fills = sweep(
                v.book.side(order.side.spec_opposite()),
                order.side,
                order.id,
                limit,
                order.qty as nat,
            ).fills;
            let all = v.executed(agent_id, order, limit, book, fills, status, time);
            forall|i: int|
                0 <= i < all.messages.len() ==> tells_what_rests(
                    (#[trigger] all.messages[i]).message,
                    all.exchange.resting,
                )
        }),
{
    let maker = order.side.spec_opposite();
    let levels = v.book.side(maker);
    let fills = sweep(levels, order.side, order.id, limit, order.qty as nat).fills;
    let matched = ExchangeView { book, ..v.admitted(agent_id, order, limit, time) };
    let recorded = matched.recorded(agent_id, fills, time, v.mid2());
    let told = recorded.exchange.notified(agent_id, order, status, fills, time);
    let all = v.executed(agent_id, order, limit, book, fills, status, time);
    lemma_wf_sides(v, maker);
    assert forall|i: int|
        #![trigger fills[i]]
        0 <= i < fills.len() implies resting_after(v.resting, fills.take(i)).contains_key(
        fills[i].maker_order_id,
    ) by {
        lemma_makers_known(
            levels,
            order.side,
            order.id,
            limit,
            order.qty as nat,
            v.resting,
            i,
        );
    }
    lemma_recorded_each(matched, agent_id, fills, time, v.mid2());
    lemma_recorded_resting(matched, agent_id, fills, time, v.mid2());
    assert(!v.resting.contains_key(order.id));
    lemma_absent_stays_absent(v.resting, fills, order.id);
    assert forall|i: int| 0 <= i < all.messages.len() implies tells_what_rests(
        (#[trigger] all.messages[i]).message,
        all.exchange.resting,
    ) by {
        if i == 0 {
            assert(all.messages[0] == v.accepted_message(agent_id, order));
        } else if i <= fills.len() {
            let fill = fills[i - 1];
            assert(all.messages[i] == recorded.messages[i - 1]);
            assert(tells_maker(
                recorded.messages[i - 1],
                matched,
                resting_after(v.resting, fills.take(i - 1)),
                fill,
            ));
            lemma_maker_remains(
                levels,
                order.side,
                order.id,
                limit,
                order.qty as nat,
                v.resting,
                i - 1,
            );
            if fill.maker_order_id == order.id {
                lemma_absent_stays_absent(v.resting, fills.take(i - 1), order.id);
            }
        } else {
            assert(all.messages[i] == told.messages[i - 1 - fills.len()]);
        }
    }
}

/// A fill message tells whether its order still rests, of the maker and of the
/// taker alike: with a positive `remaining` that quantity is on record after
/// the request, with none the order is done. An order on record is one that
/// rests, so that a cancel of it is answered by a cancellation.
pub proof fn law_a_fill_tells_whether_the_order_rests(
    v: ExchangeView,
    agent_id: AgentId,
    action: OrderAction,
    time: Nanos,
)
    requires
        v.wf(),
        v.process_room(agent_id, action, time),
    ensures
        ({
            let all = v.processed(agent_id, action, time);
            forall|i: int|
                0 <= i < all.messages.len() ==> tells_what_rests(
                    (#[trigger] all.messages[i]).message,
                    all.exchange.resting,
                )
        }),
{
    if v.is_open {
        match action {
            OrderAction::NewLimitOrder { side, price, qty, user_id } => {
                let order = v.new_limit(side, price, qty, user_id);
                let sweep = limit_sweep(v.book, v.limit_order(order, time));
                let book = after_limit(v.book, v.limit_order(order, time));
                let status = limit_status(qty as nat, sweep.remaining);
                lemma_wf_sides(v, side.spec_opposite());
                lemma_sweep_conserves(
                    v.book.side(side.spec_opposite()),
                    side,
                    order.id,
                    Some(price),
                    qty as nat,
                );
                lemma_executed_rests(v, agent_id, order, Some(price), book, status, time);
            },
            OrderAction::NewMarketOrder { side, qty, user_id } => {
                let order = v.new_market(side, qty, user_id);
                let sweep = market_sweep(v.book, v.market_order(order));
                let book = after_market(v.book, v.market_order(order));
                let status = market_status(qty as nat, sweep.remaining);
                lemma_executed_rests(v, agent_id, order, None, book, status, time);
            },
            OrderAction::CancelOrder { order_id } => {},
        }
    }
}

/// Closing cancels every resting order and tells its owner, each exactly once,
/// and leaves nothing on the book.
pub proof fn law_closing_cancels_every_order_once(v: ExchangeView, time: Nanos)
    requires
        v.wf(),
    ensures
        ({
            let all = v.closed(time);
            let ids = in_order(v.resting.dom());
            &&& !all.exchange.is_open
            &&& all.exchange.book == BookView::empty()
            &&& all.exchange.resting == Map::<u64, OrderInfo>::empty()
            &&& ids.no_duplicates()
            &&& forall|id: u64| ids.contains(id) <==> #[trigger] v.resting.contains_key(id)
            &&& all.messages.len() == ids.len()
            &&& forall|i: int|
                0 <= i < ids.len() ==> {
                    let routed = #[trigger] all.messages[i];
                    &&& routed.agent_id == v.resting[ids[i]].agent_id
                    &&& routed.message == ExchangeMessage::OrderCancelled {
                        order_id: ids[i],
                        user_id: v.resting[ids[i]].user_id,
                        symbol: v.symbol,
                    }
                }
        }),
{
    lemma_in_order_exists(v.resting.dom());
    let ids = in_order(v.resting.dom());
    assert forall|id: u64| ids.contains(id) <==> #[trigger] v.resting.contains_key(id) by {
        assert(ids.to_set().contains(id) <==> ids.contains(id));
        assert(v.resting.dom().contains(id) <==> v.resting.contains_key(id));
    }
}

/// The quotes are logged exactly when a best price moves: one snapshot of the
/// book as it then is.
pub proof fn law_quotes_are_logged_when_they_move(
    v: ExchangeView,
    agent_id: AgentId,
    action: OrderAction,
    time: Nanos,
)
    requires
        v.is_open,
        v.l1_bucket_ns is None,
    ensures
        ({
            let after = v.processed(agent_id, action, time).exchange;
            if after.best_prices() == v.best_prices() {
                after.l1_snapshots == v.l1_snapshots
            } else {
                &&& after.l1_snapshots.len() == v.l1_snapshots.len() + 1
                &&& after.l1_snapshots.drop_last() == v.l1_snapshots
                &&& after.l1_snapshots.last().timestamp == time
                &&& after.l1_snapshots.last().bid_price == after.top_bid().0
                &&& after.l1_snapshots.last().ask_price == after.top_ask().0
                &&& after.l1_snapshots.last().bid_volume == after.top_bid().1
                &&& after.l1_snapshots.last().ask_volume == after.top_ask().1
            }
        }),
{
    let applied = v.applied(agent_id, action, time).exchange;
    let after = v.processed(agent_id, action, time).exchange;
    assert(applied.l1_snapshots == v.l1_snapshots && applied.l1_bucket_ns == v.l1_bucket_ns) by {
        match action {
            OrderAction::NewLimitOrder { side, price, qty, user_id } => {
                let order = v.new_limit(side, price, qty, user_id);
                let book = after_limit(v.book, v.limit_order(order, time));
                let matched = ExchangeView {
                    book,
                    ..v.admitted(agent_id, order, Some(price), time)
                };
                lemma_recorded_logs(matched, agent_id, fills_of(v, action, time), time, v.mid2());
            },
            OrderAction::NewMarketOrder { side, qty, user_id } => {
                let order = v.new_market(side, qty, user_id);
                let book = after_market(v.book, v.market_order(order));
                let matched = ExchangeView { book, ..v.admitted(agent_id, order, None, time) };
                lemma_recorded_logs(matched, agent_id, fills_of(v, action, time), time, v.mid2());
            },
            OrderAction::CancelOrder { order_id } => {},
        }
    }
    if applied.best_prices() != v.best_prices() {
        assert(after.l1_snapshots.drop_last() =~= v.l1_snapshots);
    }
}

/// Recording fills leaves the quote log alone.
pub proof fn lemma_recorded_logs(
    v: ExchangeView,
    taker: AgentId,
    fills: Seq<Fill>,
    time: Nanos,
    mid2: Option<u64>,
)
    ensures
        ({
            let after = v.recorded(taker, fills, time, mid2).exchange;
            &&& after.l1_snapshots == v.l1_snapshots
            &&& after.l1_buckets == v.l1_buckets
            &&& after.open_bucket == v.open_bucket
            &&& after.l1_bucket_ns == v.l1_bucket_ns
        }),
    decreases fills.len(),
{
    if fills.len() > 0 {
        lemma_recorded_logs(v, taker, fills.drop_last(), time, mid2);
    }
}

/// The two exchanges differ at most in what they keep of their output.
pub open spec fn same_market(a: ExchangeView, b: ExchangeView) -> bool {
    &&& a.symbol == b.symbol
    &&& a.book == b.book
    &&& a.is_open == b.is_open
    &&& a.next_order_id == b.next_order_id
    &&& a.resting == b.resting
    &&& a.last_trade_price == b.last_trade_price
    &&& a.last_trade_time == b.last_trade_time
    &&& a.flow == b.flow
}

/// Recording fills does not look at the output.
proof fn lemma_recorded_same(
    a: ExchangeView,
    b: ExchangeView,
    taker: AgentId,
    fills: Seq<Fill>,
    time: Nanos,
    mid2: Option<u64>,
)
    requires
        same_market(a, b),
    ensures
        same_market(
            a.recorded(taker, fills, time, mid2).exchange,
            b.recorded(taker, fills, time, mid2).exchange,
        ),
        a.recorded(taker, fills, time, mid2).messages == b.recorded(
            taker,
            fills,
            time,
            mid2,
        ).messages,
    decreases fills.len(),
{
    if fills.len() > 0 {
        lemma_recorded_same(a, b, taker, fills.drop_last(), time, mid2);
    }
}

/// What an open market does with a request does not look at the output.
proof fn lemma_applied_same(
    a: ExchangeView,
    b: ExchangeView,
    agent_id: AgentId,
    action: OrderAction,
    time: Nanos,
)
    requires
        same_market(a, b),
    ensures
        same_market(
            a.applied(agent_id, action, time).exchange,
            b.applied(agent_id, action, time).exchange,
        ),
        a.applied(agent_id, action, time).messages == b.applied(agent_id, action, time).messages,
        a.applied(agent_id, action, time).exchange.l1_snapshots == a.l1_snapshots,
        a.applied(agent_id, action, time).exchange.l1_buckets == a.l1_buckets,
        a.applied(agent_id, action, time).exchange.open_bucket == a.open_bucket,
        a.applied(agent_id, action, time).exchange.l1_bucket_ns == a.l1_bucket_ns,
{
    match action {
        OrderAction::NewLimitOrder { side, price, qty, user_id } => {
            let order = a.new_limit(side, price, qty, user_id);
            let book = after_limit(a.book, a.limit_order(order, time));
            let fills = fills_of(a, action, time);
            let limit = Some(price);
            let ma = ExchangeView { book, ..a.admitted(agent_id, order, limit, time) };
            let mb = ExchangeView { book, ..b.admitted(agent_id, order, limit, time) };
            lemma_recorded_same(ma, mb, agent_id, fills, time, a.mid2());
            lemma_recorded_logs(ma, agent_id, fills, time, a.mid2());
        },
        OrderAction::NewMarketOrder { side, qty, user_id } => {
            let order = a.new_market(side, qty, user_id);
            let book = after_market(a.book, a.market_order(order));
            let fills = fills_of(a, action, time);
            let ma = ExchangeView { book, ..a.admitted(agent_id, order, None, time) };
            let mb = ExchangeView { book, ..b.admitted(agent_id, order, None, time) };
            lemma_recorded_same(ma, mb, agent_id, fills, time, a.mid2());
            lemma_recorded_logs(ma, agent_id, fills, time, a.mid2());
        },
        OrderAction::CancelOrder { order_id } => {},
    }
}

/// The output options change no trading: two exchanges that differ at most in
/// what they keep of their output answer every request alike.
pub proof fn law_output_options_change_no_trading(
    a: ExchangeView,
    b: ExchangeView,
    agent_id: AgentId,
    action: OrderAction,
    time: Nanos,
)
    requires
        same_market(a, b),
    ensures
        same_market(
            a.processed(agent_id, action, time).exchange,
            b.processed(agent_id, action, time).exchange,
        ),
        a.processed(agent_id, action, time).messages == b.processed(
            agent_id,
            action,
            time,
        ).messages,
        same_market(a.opened(time), b.opened(time)),
        same_market(a.closed(time).exchange, b.closed(time).exchange),
        a.closed(time).messages == b.closed(time).messages,
{
    if a.is_open {
        lemma_applied_same(a, b, agent_id, action, time);
    }
    assert(a.closed(time).messages =~= b.closed(time).messages);
}

/// A quote log in buckets: the finished ones, and the one still open.
#[verifier::ext_equal]
pub struct Bucketed {
    pub done: Seq<L1Bucket>,
    pub open: Option<L1Bucket>,
}

/// The buckets of a quote log: each snapshot goes into the bucket of its time,
/// and a bucket is done when the next one opens.
pub open spec fn bucketed(log: Seq<L1Snapshot>, width: Nanos) -> Bucketed
    decreases log.len(),
{
    if log.len() == 0 {
        Bucketed { done: Seq::empty(), open: None }
    } else {
        let before = bucketed(log.drop_last(), width);
        let snap = log.last();
        let start = (snap.timestamp - snap.timestamp % width) as u64;
        let (done, bucket) = match before.open {
            Some(open) => if open.bucket_start == start {
                (before.done, open)
            } else {
                (before.done.push(open), L1Bucket::empty(start, snap.symbol))
            },
            None => (before.done, L1Bucket::empty(start, snap.symbol)),
        };
        Bucketed {
            done,
            open: Some(
                bucket.absorbed(
                    snap.bid_price,
                    snap.ask_price,
                    snap.bid_volume,
                    snap.ask_volume,
                ),
            ),
        }
    }
}

/// All buckets of a quote log, the last one included.
pub open spec fn buckets_of(log: Seq<L1Snapshot>, width: Nanos) -> Seq<L1Bucket> {
    let all = bucketed(log, width);
    match all.open {
        Some(bucket) => all.done.push(bucket),
        None => all.done,
    }
}

/// One exchange keeps the quote log, the other the buckets of that log.
pub open spec fn keeps_buckets_of(log: ExchangeView, buckets: ExchangeView, width: Nanos) -> bool {
    &&& same_market(log, buckets)
    &&& log.l1_bucket_ns is None
    &&& buckets.l1_bucket_ns == Some(width)
    &&& bucketed(log.l1_snapshots, width) == Bucketed {
        done: buckets.l1_buckets,
        open: buckets.open_bucket,
    }
}

/// Recording the quotes keeps the two in step.
proof fn lemma_l1_in_step(log: ExchangeView, buckets: ExchangeView, width: Nanos, time: Nanos)
    requires
        keeps_buckets_of(log, buckets, width),
    ensures
        keeps_buckets_of(log.with_l1(time), buckets.with_l1(time), width),
{
    let after = log.with_l1(time);
    assert(after.l1_snapshots.drop_last() =~= log.l1_snapshots);
}

/// Buckets lose nothing but detail: an exchange that keeps buckets holds at
/// every moment the buckets of the log that it would have kept instead.
pub proof fn law_buckets_are_those_of_the_full_log(
    log: ExchangeView,
    buckets: ExchangeView,
    width: Nanos,
    agent_id: AgentId,
    action: OrderAction,
    time: Nanos,
)
    requires
        keeps_buckets_of(log, buckets, width),
    ensures
        keeps_buckets_of(
            log.processed(agent_id, action, time).exchange,
            buckets.processed(agent_id, action, time).exchange,
            width,
        ),
        keeps_buckets_of(log.opened(time), buckets.opened(time), width),
        keeps_buckets_of(log.closed(time).exchange, buckets.closed(time).exchange, width),
{
    law_output_options_change_no_trading(log, buckets, agent_id, action, time);
    if log.is_open {
        lemma_applied_same(log, buckets, agent_id, action, time);
        lemma_applied_same(buckets, log, agent_id, action, time);
        let a = log.applied(agent_id, action, time).exchange;
        let b = buckets.applied(agent_id, action, time).exchange;
        assert(keeps_buckets_of(a, b, width));
        lemma_l1_in_step(a, b, width, time);
    }
    lemma_l1_in_step(
        ExchangeView { is_open: true, ..log },
        ExchangeView { is_open: true, ..buckets },
        width,
        time,
    );
    lemma_l1_in_step(log.emptied(time), buckets.emptied(time), width, time);
}

/// The two exchanges trade alike, and keep alike what both of them keep: the
/// trades if both keep them or neither does, the quotes if both keep them in
/// the same form, and buckets that are those of the full log in place of it.
pub open spec fn same_output(a: ExchangeView, b: ExchangeView) -> bool {
    &&& same_market(a, b)
    &&& a.keep_trades == b.keep_trades ==> a.trades == b.trades
    &&& !b.keep_trades ==> b.trades == Seq::<TradeRecord>::empty()
    &&& a.l1_bucket_ns == b.l1_bucket_ns ==> {
        &&& a.l1_snapshots == b.l1_snapshots
        &&& a.l1_buckets == b.l1_buckets
        &&& a.open_bucket == b.open_bucket
    }
    &&& b.l1_bucket_ns is Some ==> b.l1_snapshots == Seq::<L1Snapshot>::empty()
    &&& b.l1_bucket_ns is None ==> b.l1_buckets == Seq::<L1Bucket>::empty() && b.open_bucket is None
    &&& a.l1_bucket_ns is None ==> (b.l1_bucket_ns matches Some(width) ==> keeps_buckets_of(
        a,
        b,
        width,
    ))
}

/// Recording fills keeps the trades alike.
proof fn lemma_recorded_trades_alike(
    a: ExchangeView,
    b: ExchangeView,
    taker: AgentId,
    fills: Seq<Fill>,
    time: Nanos,
    mid2: Option<u64>,
)
    requires
        same_output(a, b),
    ensures
        ({
            let after_a = a.recorded(taker, fills, time, mid2).exchange;
            let after_b = b.recorded(taker, fills, time, mid2).exchange;
            &&& after_a.keep_trades == a.keep_trades
            &&& after_b.keep_trades == b.keep_trades
            &&& a.keep_trades == b.keep_trades ==> after_a.trades == after_b.trades
            &&& !b.keep_trades ==> after_b.trades == b.trades
        }),
    decreases fills.len(),
{
    if fills.len() > 0 {
        lemma_recorded_trades_alike(a, b, taker, fills.drop_last(), time, mid2);
        lemma_recorded_same(a, b, taker, fills.drop_last(), time, mid2);
    }
}

/// A request keeps the trades alike.
proof fn lemma_applied_trades_alike(
    a: ExchangeView,
    b: ExchangeView,
    agent_id: AgentId,
    action: OrderAction,
    time: Nanos,
)
    requires
        same_output(a, b),
    ensures
        ({
            let after_a = a.applied(agent_id, action, time).exchange;
            let after_b = b.applied(agent_id, action, time).exchange;
            &&& after_a.keep_trades == a.keep_trades
            &&& after_b.keep_trades == b.keep_trades
            &&& a.keep_trades == b.keep_trades ==> after_a.trades == after_b.trades
            &&& !b.keep_trades ==> after_b.trades == b.trades
        }),
{
    match action {
        OrderAction::NewLimitOrder { side, price, qty, user_id } => {
            let order = a.new_limit(side, price, qty, user_id);
            let book = after_limit(a.book, a.limit_order(order, time));
            let fills = fills_of(a, action, time);
            let limit = Some(price);
            let ma = ExchangeView { book, ..a.admitted(agent_id, order, limit, time) };
            let mb = ExchangeView { book, ..b.admitted(agent_id, order, limit, time) };
            lemma_recorded_trades_alike(ma, mb, agent_id, fills, time, a.mid2());
        },
        OrderAction::NewMarketOrder { side, qty, user_id } => {
            let order = a.new_market(side, qty, user_id);
            let book = after_market(a.book, a.market_order(order));
            let fills = fills_of(a, action, time);
            let ma = ExchangeView { book, ..a.admitted(agent_id, order, None, time) };
            let mb = ExchangeView { book, ..b.admitted(agent_id, order, None, time) };
            lemma_recorded_trades_alike(ma, mb, agent_id, fills, time, a.mid2());
        },
        OrderAction::CancelOrder { order_id } => {},
    }
}

/// Recording the quotes keeps the output alike.
proof fn lemma_l1_alike(a: ExchangeView, b: ExchangeView, time: Nanos)
    requires
        same_output(a, b),
    ensures
        same_output(a.with_l1(time), b.with_l1(time)),
{
    if a.l1_bucket_ns is None {
        if let Some(width) = b.l1_bucket_ns {
            lemma_l1_in_step(a, b, width, time);
        }
    }
}

/// The output options change nothing but the output: exchanges that trade
/// alike and keep alike what both keep go on so, whatever is asked of them.
pub proof fn law_output_options_change_only_the_output(
    a: ExchangeView,
    b: ExchangeView,
    agent_id: AgentId,
    action: OrderAction,
    time: Nanos,
)
    requires
        same_output(a, b),
    ensures
        same_output(
            a.processed(agent_id, action, time).exchange,
            b.processed(agent_id, action, time).exchange,
        ),
        same_output(a.opened(time), b.opened(time)),
        same_output(a.closed(time).exchange, b.closed(time).exchange),
{
    law_output_options_change_no_trading(a, b, agent_id, action, time);
    if a.is_open {
        let after_a = a.applied(agent_id, action, time).exchange;
        let after_b = b.applied(agent_id, action, time).exchange;
        lemma_applied_same(a, b, agent_id, action, time);
        lemma_applied_same(b, a, agent_id, action, time);
        lemma_applied_trades_alike(a, b, agent_id, action, time);
        assert(same_output(after_a, after_b));
        lemma_l1_alike(after_a, after_b, time);
    }
    lemma_l1_alike(
        ExchangeView { is_open: true, ..a },
        ExchangeView { is_open: true, ..b },
        time,
    );
    lemma_l1_alike(a.emptied(time), b.emptied(time), time);
}

} // verus!
