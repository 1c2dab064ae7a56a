//! What an exchange keeps and tells of each request, told from orders, fills
//! and prices alone.

use crate::book_entry_laws::{lemma_qty_filled, may_trade_at};
use crate::book_lemmas::{lemma_best_of_empty, lemma_sum_of_empty, lemma_sum_of_insert};
use crate::book_model::{
    after_cancel, after_limit, after_market, best_level, best_price, depth_notional, limit_status,
    market_status, sweep, within, BookView,
};
use crate::event::{ExchangeMessage, OrderAction, RoutedMessage};
use crate::exchange_laws::{lemma_makers_known, lemma_recorded_each};
use crate::exchange_lemmas::{
    lemma_fills_notional_bound, lemma_in_order_exists, lemma_recorded_resting,
    lemma_sweep_conserves, lemma_wf_sides, resting_after,
};
use crate::exchange_model::{
    fills_notional, flow_all_gone, in_order, ExchangeView, NewOrder, OrderInfo,
};
use crate::fills::{filled_qty, Fill, OrderStatus};
use crate::flow_lemmas::lemma_notional_fits;
use crate::flow_model::{notional_of, FlowFill, FlowView};
use crate::order::{LimitOrder, MarketOrder, Side};
use crate::records::L1Snapshot;
use crate::ticket_lemmas::lemma_sum_of_cong;
use crate::types::{AgentId, Nanos};
use vstd::prelude::*;

verus! {

/// What these fills take from the order `id`.
pub open spec fn taken_from(fills: Seq<Fill>, id: u64) -> int
    decreases fills.len(),
{
    if fills.len() == 0 {
        0
    } else {
        taken_from(fills.drop_last(), id) + if fills.last().maker_order_id == id {
            fills.last().qty as int
        } else {
            0
        }
    }
}

/// Price times quantity of these fills, from the first on.
pub open spec fn worth(fills: Seq<Fill>) -> int
    decreases fills.len(),
{
    if fills.len() == 0 {
        0
    } else {
        fills[0].price * fills[0].qty + worth(fills.drop_first())
    }
}

/// The orders that the fills leave: those they do not use up, each smaller by
/// what they take and else as it was.
pub open spec fn left_by(
    after: Map<u64, OrderInfo>,
    before: Map<u64, OrderInfo>,
    fills: Seq<Fill>,
    id: u64,
) -> bool {
    &&& after.contains_key(id) <==> before.contains_key(id) && taken_from(fills, id)
        < before[id].remaining_qty
    &&& after.contains_key(id) ==> after[id] == OrderInfo {
        remaining_qty: (before[id].remaining_qty - taken_from(fills, id)) as u64,
        ..before[id]
    }
}

/// The recorder after these fills of one taker. Each is told with both owners,
/// the taker's side and the same mid, and a maker that is used up has left.
pub open spec fn told_of(
    flow: FlowView,
    resting: Map<u64, OrderInfo>,
    taker: AgentId,
    fills: Seq<Fill>,
    time: Nanos,
    mid2: Option<u64>,
) -> FlowView
    decreases fills.len(),
{
    if fills.len() == 0 {
        flow
    } else {
        let fill = fills.last();
        let maker = resting[fill.maker_order_id];
        let counted = told_of(flow, resting, taker, fills.drop_last(), time, mid2).filled(
            FlowFill {
                time,
                taker_agent: taker,
                taker_order_id: fill.taker_order_id,
                maker_agent: Some(maker.agent_id),
                maker_order_id: fill.maker_order_id,
                taker_side: fill.taker_side,
                price: fill.price,
                qty: fill.qty,
                mid2,
            },
        );
        if taken_from(fills, fill.maker_order_id) >= maker.remaining_qty {
            counted.gone(time, fill.maker_order_id)
        } else {
            counted
        }
    }
}

/// Every maker is on record when its fill comes.
pub open spec fn makers_known(resting: Map<u64, OrderInfo>, fills: Seq<Fill>) -> bool {
    forall|i: int|
        #![trigger fills[i]]
        0 <= i < fills.len() ==> resting_after(resting, fills.take(i)).contains_key(
            fills[i].maker_order_id,
        )
}

proof fn lemma_worth_push(fills: Seq<Fill>)
    requires
        fills.len() > 0,
    ensures
        worth(fills) == worth(fills.drop_last()) + fills.last().price * fills.last().qty,
    decreases fills.len(),
{
    if fills.len() == 1 {
        assert(fills.drop_first() =~= Seq::<Fill>::empty());
        assert(fills.drop_last() =~= Seq::<Fill>::empty());
    } else {
        lemma_worth_push(fills.drop_first());
        assert(fills.drop_first().drop_last() =~= fills.drop_last().drop_first());
        assert(fills.drop_first().last() == fills.last());
        assert(fills.drop_last()[0] == fills[0]);
    }
}

proof fn lemma_worth(fills: Seq<Fill>)
    requires
        forall|i: int| 0 <= i < fills.len() ==> (#[trigger] fills[i]).price >= 0,
    ensures
        fills_notional(fills) == worth(fills),
    decreases fills.len(),
{
    if fills.len() > 0 {
        let less = fills.drop_last();
        assert forall|i: int| 0 <= i < less.len() implies (#[trigger] less[i]).price >= 0 by {
            assert(fills[i].price >= 0);
        }
        lemma_worth(less);
        lemma_worth_push(fills);
        assert(fills[fills.len() - 1].price >= 0);
        lemma_notional_fits(fills.last().price, fills.last().qty);
    }
}

proof fn lemma_known_shorter(resting: Map<u64, OrderInfo>, fills: Seq<Fill>)
    requires
        fills.len() > 0,
        makers_known(resting, fills),
    ensures
        makers_known(resting, fills.drop_last()),
{
    let less = fills.drop_last();
    assert forall|i: int|
        #![trigger less[i]]
        0 <= i < less.len() implies resting_after(resting, less.take(i)).contains_key(
        less[i].maker_order_id,
    ) by {
        assert(less.take(i) =~= fills.take(i));
        assert(less[i] == fills[i]);
    }
}

proof fn lemma_left_by(resting: Map<u64, OrderInfo>, fills: Seq<Fill>)
    requires
        forall|id: u64| #[trigger] resting.contains_key(id) ==> resting[id].remaining_qty > 0,
    ensures
        forall|id: u64| #[trigger] left_by(resting_after(resting, fills), resting, fills, id),
        forall|id: u64| #[trigger] taken_from(fills, id) >= 0,
    decreases fills.len(),
{
    let after = resting_after(resting, fills);
    if fills.len() > 0 {
        let less = fills.drop_last();
        lemma_left_by(resting, less);
        let before = resting_after(resting, less);
        assert forall|id: u64| #[trigger] taken_from(fills, id) >= 0 by {
            assert(taken_from(less, id) >= 0);
        }
        assert forall|id: u64| #[trigger] left_by(after, resting, fills, id) by {
            assert(left_by(before, resting, less, id));
            assert(taken_from(less, id) >= 0);
        }
    } else {
        assert forall|id: u64| #[trigger] left_by(after, resting, fills, id) by {
            if resting.contains_key(id) {
                assert(resting[id].remaining_qty > 0);
            }
        }
    }
}

proof fn lemma_recorded_told(
    v: ExchangeView,
    taker: AgentId,
    fills: Seq<Fill>,
    time: Nanos,
    mid2: Option<u64>,
)
    requires
        forall|id: u64| #[trigger] v.resting.contains_key(id) ==> v.resting[id].remaining_qty > 0,
        makers_known(v.resting, fills),
    ensures
        ({
            let after = v.recorded(taker, fills, time, mid2).exchange;
            &&& after.flow == match v.flow {
                Some(flow) => Some(told_of(flow, v.resting, taker, fills, time, mid2)),
                None => None,
            }
            &&& after.last_trade_price == if fills.len() > 0 {
                Some(fills.last().price)
            } else {
                v.last_trade_price
            }
            &&& after.last_trade_time == if fills.len() > 0 {
                Some(time)
            } else {
                v.last_trade_time
            }
        }),
    decreases fills.len(),
{
    if fills.len() > 0 {
        let less = fills.drop_last();
        let fill = fills.last();
        lemma_known_shorter(v.resting, fills);
        lemma_recorded_told(v, taker, less, time, mid2);
        lemma_recorded_resting(v, taker, less, time, mid2);
        lemma_left_by(v.resting, less);
        let n = less.len() as int;
        assert(fills.take(n) =~= less);
        assert(fills[n] == fill);
        assert(left_by(resting_after(v.resting, less), v.resting, less, fill.maker_order_id));
    }
}

/// The message tells the owner of an order of its fills.
pub open spec fn tells_of_fill(
    routed: RoutedMessage,
    agent_id: AgentId,
    filled: ExchangeMessage,
    notional: int,
) -> bool {
    &&& routed.agent_id == agent_id
    &&& routed.message is OrderFilled
    &&& filled is OrderFilled
    &&& routed.message->OrderFilled_order_id == filled->OrderFilled_order_id
    &&& routed.message->OrderFilled_user_id == filled->OrderFilled_user_id
    &&& routed.message->OrderFilled_symbol == filled->OrderFilled_symbol
    &&& routed.message->OrderFilled_side == filled->OrderFilled_side
    &&& routed.message->OrderFilled_price == filled->OrderFilled_price
    &&& routed.message->OrderFilled_qty == filled->OrderFilled_qty
    &&& routed.message->OrderFilled_remaining == filled->OrderFilled_remaining
    &&& routed.message->OrderFilled_notional == notional
}

/// The flow recorder of an exchange takes in a new order: only one of the
/// agent it watches, with its value in half tick-lots and the depth it meets.
pub open spec fn takes_in(
    v: ExchangeView,
    agent_id: AgentId,
    time: Nanos,
    side: Side,
    limit: Option<i64>,
    qty: u64,
) -> Option<FlowView> {
    match v.flow {
        None => None,
        Some(flow) => if agent_id != flow.agent_id {
            Some(flow)
        } else {
            Some(
                flow.accepted(time, agent_id, v.next_order_id, qty).sized(
                    time,
                    qty,
                    match limit {
                        Some(price) => Some((2 * price * qty) as u128),
                        None => match v.mid2() {
                            Some(mid2) => Some((mid2 * qty) as u128),
                            None => None,
                        },
                    },
                    v.external_depth(flow.live, side, limit),
                ),
            )
        },
    }
}

/// The recorder when the request is done: it sees the best quotes if one of
/// the best prices moved, with zero for a side that has none.
pub open spec fn sees_quotes(
    flow: Option<FlowView>,
    before: BookView,
    after: BookView,
    time: Nanos,
) -> Option<FlowView> {
    let (bid, ask) = (best_price(after.bids, Side::Bid), best_price(after.asks, Side::Ask));
    match flow {
        None => None,
        Some(flow) => if bid == best_price(before.bids, Side::Bid) && ask == best_price(
            before.asks,
            Side::Ask,
        ) {
            Some(flow)
        } else {
            Some(
                flow.quoted(
                    time,
                    match bid {
                        Some(price) => price,
                        None => 0,
                    },
                    match ask {
                        Some(price) => price,
                        None => 0,
                    },
                ),
            )
        },
    }
}

/// The exchange differs at most in what a new order may change.
pub open spec fn same_settings(v: ExchangeView, w: ExchangeView) -> bool {
    &&& v.symbol == w.symbol
    &&& v.is_open == w.is_open
    &&& v.keep_trades == w.keep_trades
    &&& v.l1_bucket_ns == w.l1_bucket_ns
}

proof fn lemma_quotes_seen(v: ExchangeView, w: ExchangeView, time: Nanos)
    ensures
        ({
            let after = if w.best_prices() == v.best_prices() {
                w
            } else {
                w.with_l1(time)
            };
            &&& after.flow == sees_quotes(w.flow, v.book, w.book, time)
            &&& after.book == w.book
            &&& after.resting == w.resting
            &&& after.next_order_id == w.next_order_id
            &&& after.last_trade_price == w.last_trade_price
            &&& after.last_trade_time == w.last_trade_time
            &&& after.trades == w.trades
            &&& same_settings(w, after)
        }),
{
}

/// A match of the new order against the other side, as its parts tell.
proof fn lemma_matched(
    v: ExchangeView,
    agent_id: AgentId,
    order: NewOrder,
    limit: Option<i64>,
    book: BookView,
    status: OrderStatus,
    time: Nanos,
)
    requires
        v.wf(),
        order.id == v.next_order_id,
        v.next_order_id < u64::MAX,
        limit matches Some(price) ==> price >= 0,
    ensures
        ({
            let outcome = sweep(
                v.book.side(order.side.spec_opposite()),
                order.side,
                order.id,
                limit,
                order.qty as nat,
            );
            let fills = outcome.fills;
            let matched = ExchangeView { book, ..v.admitted(agent_id, order, limit, time) };
            let done = matched.recorded(agent_id, fills, time, v.mid2());
            &&& done.messages.len() == fills.len()
            &&& done.exchange.book == book
            &&& done.exchange.next_order_id == v.next_order_id + 1
            &&& same_settings(v, done.exchange)
            &&& forall|id: u64| #[trigger] left_by(done.exchange.resting, v.resting, fills, id)
            &&& !done.exchange.resting.contains_key(order.id)
            &&& done.exchange.last_trade_price == if fills.len() > 0 {
                Some(fills.last().price)
            } else {
                v.last_trade_price
            }
            &&& done.exchange.last_trade_time == if fills.len() > 0 {
                Some(time)
            } else {
                v.last_trade_time
            }
            &&& done.exchange.flow == match takes_in(
                v,
                agent_id,
                time,
                order.side,
                limit,
                order.qty,
            ) {
                Some(flow) => Some(told_of(flow, v.resting, agent_id, fills, time, v.mid2())),
                None => None,
            }
            &&& filled_qty(fills) + outcome.remaining == order.qty
            &&& fills_notional(fills) as u128 == worth(fills)
            &&& outcome.remaining == order.qty <==> fills.len() == 0
            &&& fills.len() > 0 <==> filled_qty(fills) > 0
        }),
{
    let levels = v.book.side(order.side.spec_opposite());
    let outcome = sweep(levels, order.side, order.id, limit, order.qty as nat);
    let fills = outcome.fills;
    let matched = ExchangeView { book, ..v.admitted(agent_id, order, limit, time) };
    lemma_wf_sides(v, order.side.spec_opposite());
    lemma_wf_sides(v, order.side);
    lemma_sweep_conserves(levels, order.side, order.id, limit, order.qty as nat);
    assert forall|i: int|
        #![trigger fills[i]]
        0 <= i < fills.len() implies resting_after(v.resting, fills.take(i)).contains_key(
        fills[i].maker_order_id,
    ) by {
        lemma_makers_known(levels, order.side, order.id, limit, order.qty as nat, v.resting, i);
    }
    assert(makers_known(v.resting, fills));
    assert forall|id: u64| #[trigger]
        v.resting.contains_key(id) implies v.resting[id].remaining_qty > 0 by {
        let info = v.resting[id];
        assert(v.book.rests_at(id, info.side, info.price));
        let queue = v.book.side(info.side)[info.price];
        let i = choose|i: int| 0 <= i < queue.len() && (#[trigger] queue[i]).id == id;
        lemma_wf_sides(v, info.side);
        assert(queue[i].qty > 0);
    }
    if let Some(price) = limit {
        lemma_notional_fits(price, order.qty);
        assert(2 * (price * order.qty) == 2 * price * order.qty) by (nonlinear_arith);
    }
    lemma_recorded_told(matched, agent_id, fills, time, v.mid2());
    lemma_recorded_resting(matched, agent_id, fills, time, v.mid2());
    lemma_recorded_each(matched, agent_id, fills, time, v.mid2());
    lemma_left_by(v.resting, fills);
    assert(left_by(resting_after(v.resting, fills), v.resting, fills, order.id));
    lemma_worth(fills);
    lemma_fills_notional_bound(fills);
    assert(i64::MAX * filled_qty(fills) <= i64::MAX * u64::MAX) by (nonlinear_arith)
        requires
            0 <= filled_qty(fills) <= u64::MAX,
    ;
    if fills.len() > 0 {
        lemma_qty_filled(fills);
        assert(fills[fills.len() - 1].qty > 0);
        assert(filled_qty(fills) >= fills.last().qty);
    }
}

/// What a limit order does on an open market. It trades with the other side up
/// to its price and is told of all its fills in one message, with the last
/// price, their quantity and worth, and what is left. What is left is on
/// record under its owner, side, price and tag; if nothing is, the order is on
/// record nowhere. The makers have lost what was taken from them, and the
/// market has last traded at the last fill.
pub proof fn law_a_limit_order_trades_and_rests(
    v: ExchangeView,
    agent_id: AgentId,
    side: Side,
    price: i64,
    qty: u64,
    user_id: u64,
    time: Nanos,
)
    requires
        v.wf(),
        v.is_open,
        v.process_room(agent_id, OrderAction::NewLimitOrder { side, price, qty, user_id }, time),
    ensures
        ({
            let all = v.processed(
                agent_id,
                OrderAction::NewLimitOrder { side, price, qty, user_id },
                time,
            );
            let after = all.exchange;
            let id = v.next_order_id;
            let outcome = sweep(
                if side == Side::Bid {
                    v.book.asks
                } else {
                    v.book.bids
                },
                side,
                id,
                Some(price),
                qty as nat,
            );
            let (fills, left) = (outcome.fills, outcome.remaining);
            &&& same_settings(v, after)
            &&& after.book == after_limit(
                v.book,
                LimitOrder { id, side, price, qty, timestamp: time },
            )
            &&& all.messages.len() == 1 + fills.len() + if fills.len() > 0 {
                1int
            } else {
                0
            }
            &&& fills.len() > 0 ==> tells_of_fill(
                all.messages.last(),
                agent_id,
                ExchangeMessage::OrderFilled {
                    order_id: id,
                    user_id,
                    symbol: v.symbol,
                    side,
                    price: fills.last().price,
                    qty: (qty - left) as u64,
                    remaining: left as u64,
                    notional: 0,
                },
                worth(fills),
            )
            &&& left == 0 ==> !after.resting.contains_key(id)
            &&& left > 0 ==> after.resting.contains_key(id) && after.resting[id] == OrderInfo {
                agent_id,
                side,
                price,
                remaining_qty: left as u64,
                user_id,
            }
            &&& forall|other: u64|
                other != id ==> #[trigger] left_by(after.resting, v.resting, fills, other)
            &&& after.last_trade_price == if fills.len() > 0 {
                Some(fills.last().price)
            } else {
                v.last_trade_price
            }
            &&& after.last_trade_time == if fills.len() > 0 {
                Some(time)
            } else {
                v.last_trade_time
            }
        }),
{
    let order = v.new_limit(side, price, qty, user_id);
    let taken = LimitOrder { id: order.id, side, price, qty, timestamp: time };
    let book = after_limit(v.book, taken);
    let outcome = sweep(
        v.book.side(side.spec_opposite()),
        side,
        order.id,
        Some(price),
        qty as nat,
    );
    let status = limit_status(qty as nat, outcome.remaining);
    lemma_matched(v, agent_id, order, Some(price), book, status, time);
    let matched = ExchangeView { book, ..v.admitted(agent_id, order, Some(price), time) };
    let done = matched.recorded(agent_id, outcome.fills, time, v.mid2()).exchange;
    let w = v.applied(
        agent_id,
        OrderAction::NewLimitOrder { side, price, qty, user_id },
        time,
    ).exchange;
    lemma_quotes_seen(v, w, time);
    assert forall|other: u64| other != order.id implies #[trigger] left_by(
        w.resting,
        v.resting,
        outcome.fills,
        other,
    ) by {
        assert(left_by(done.resting, v.resting, outcome.fills, other));
    }
}

/// What the flow recorder of an open market hears of a limit order: the order
/// if its agent is watched, then each fill, with the mid of before the order,
/// then that the order left if nothing of it does rest, and then the quotes if
/// a best price moved.
pub proof fn law_the_recorder_hears_of_a_limit_order(
    v: ExchangeView,
    agent_id: AgentId,
    side: Side,
    price: i64,
    qty: u64,
    user_id: u64,
    time: Nanos,
)
    requires
        v.wf(),
        v.is_open,
        v.process_room(agent_id, OrderAction::NewLimitOrder { side, price, qty, user_id }, time),
    ensures
        ({
            let after = v.processed(
                agent_id,
                OrderAction::NewLimitOrder { side, price, qty, user_id },
                time,
            ).exchange;
            let id = v.next_order_id;
            let outcome = sweep(
                if side == Side::Bid {
                    v.book.asks
                } else {
                    v.book.bids
                },
                side,
                id,
                Some(price),
                qty as nat,
            );
            after.flow == match takes_in(v, agent_id, time, side, Some(price), qty) {
                None => None,
                Some(flow) => {
                    let told = told_of(flow, v.resting, agent_id, outcome.fills, time, v.mid2());
                    sees_quotes(
                        Some(
                            if outcome.remaining == 0 {
                                told.gone(time, id)
                            } else {
                                told
                            },
                        ),
                        v.book,
                        after.book,
                        time,
                    )
                },
            }
        }),
{
    let order = v.new_limit(side, price, qty, user_id);
    let taken = LimitOrder { id: order.id, side, price, qty, timestamp: time };
    let book = after_limit(v.book, taken);
    let outcome = sweep(
        v.book.side(side.spec_opposite()),
        side,
        order.id,
        Some(price),
        qty as nat,
    );
    let status = limit_status(qty as nat, outcome.remaining);
    lemma_matched(v, agent_id, order, Some(price), book, status, time);
    let w = v.applied(
        agent_id,
        OrderAction::NewLimitOrder { side, price, qty, user_id },
        time,
    ).exchange;
    lemma_quotes_seen(v, w, time);
}

/// What a market order does on an open market. It trades with the other side
/// at any price and is told of its fills in one message, if there are any; if
/// something is left, it is told of its cancellation after that. It is on
/// record nowhere.
pub proof fn law_a_market_order_trades_and_ends(
    v: ExchangeView,
    agent_id: AgentId,
    side: Side,
    qty: u64,
    user_id: u64,
    time: Nanos,
)
    requires
        v.wf(),
        v.is_open,
        v.process_room(agent_id, OrderAction::NewMarketOrder { side, qty, user_id }, time),
    ensures
        ({
            let all = v.processed(
                agent_id,
                OrderAction::NewMarketOrder { side, qty, user_id },
                time,
            );
            let after = all.exchange;
            let id = v.next_order_id;
            let outcome = sweep(
                if side == Side::Bid {
                    v.book.asks
                } else {
                    v.book.bids
                },
                side,
                id,
                None,
                qty as nat,
            );
            let (fills, left) = (outcome.fills, outcome.remaining);
            &&& same_settings(v, after)
            &&& after.book == after_market(v.book, MarketOrder { id, side, qty })
            &&& all.messages.len() == 1 + fills.len() + (if fills.len() > 0 {
                1int
            } else {
                0
            }) + if left > 0 {
                1int
            } else {
                0
            }
            &&& fills.len() > 0 ==> tells_of_fill(
                all.messages[1 + fills.len() as int],
                agent_id,
                ExchangeMessage::OrderFilled {
                    order_id: id,
                    user_id,
                    symbol: v.symbol,
                    side,
                    price: fills.last().price,
                    qty: (qty - left) as u64,
                    remaining: 0,
                    notional: 0,
                },
                worth(fills),
            )
            &&& left > 0 ==> all.messages.last() == (RoutedMessage {
                agent_id,
                message: ExchangeMessage::OrderCancelled {
                    order_id: id,
                    user_id,
                    symbol: v.symbol,
                },
            })
            &&& !after.resting.contains_key(id)
            &&& forall|other: u64| #[trigger] left_by(after.resting, v.resting, fills, other)
            &&& after.last_trade_price == if fills.len() > 0 {
                Some(fills.last().price)
            } else {
                v.last_trade_price
            }
            &&& after.last_trade_time == if fills.len() > 0 {
                Some(time)
            } else {
                v.last_trade_time
            }
            &&& after.flow == match takes_in(v, agent_id, time, side, None, qty) {
                None => None,
                Some(flow) => sees_quotes(
                    Some(
                        told_of(flow, v.resting, agent_id, fills, time, v.mid2()).gone(time, id),
                    ),
                    v.book,
                    after.book,
                    time,
                ),
            }
        }),
{
    let order = v.new_market(side, qty, user_id);
    let book = after_market(v.book, MarketOrder { id: order.id, side, qty });
    let outcome = sweep(v.book.side(side.spec_opposite()), side, order.id, None, qty as nat);
    let status = market_status(qty as nat, outcome.remaining);
    lemma_matched(v, agent_id, order, None, book, status, time);
    let w = v.applied(
        agent_id,
        OrderAction::NewMarketOrder { side, qty, user_id },
        time,
    ).exchange;
    lemma_quotes_seen(v, w, time);
}

/// A cancel of an order that rests takes it off the book and off the record,
/// and answers whoever asked with the order's id and its owner's tag.
pub proof fn law_a_cancel_is_answered(
    v: ExchangeView,
    agent_id: AgentId,
    order_id: u64,
    time: Nanos,
)
    requires
        v.is_open,
        v.book.rests(order_id),
    ensures
        ({
            let all = v.processed(agent_id, OrderAction::CancelOrder { order_id }, time);
            let after = all.exchange;
            &&& all.messages.len() == 1
            &&& all.messages[0].agent_id == agent_id
            &&& all.messages[0].message == ExchangeMessage::OrderCancelled {
                order_id,
                user_id: v.resting[order_id].user_id,
                symbol: v.symbol,
            }
            &&& !after.resting.contains_key(order_id)
            &&& forall|other: u64|
                other != order_id ==> (#[trigger] after.resting.contains_key(other)
                    <==> v.resting.contains_key(other)) && after.resting[other] == v.resting[other]
            &&& after.book == after_cancel(v.book, order_id)
            &&& same_settings(v, after)
            &&& after.trades == v.trades
            &&& after.last_trade_price == v.last_trade_price
            &&& after.last_trade_time == v.last_trade_time
            &&& after.next_order_id == v.next_order_id
            &&& after.flow == match v.flow {
                None => None,
                Some(flow) => sees_quotes(
                    Some(flow.gone(time, order_id)),
                    v.book,
                    after.book,
                    time,
                ),
            }
        }),
{
    let w = v.applied(agent_id, OrderAction::CancelOrder { order_id }, time).exchange;
    lemma_quotes_seen(v, w, time);
}

/// A refusal carries the tag of a new order, and none for a cancel; the flow
/// recorder counts refused orders, not refused cancels.
pub proof fn law_a_refusal_names_what_it_refuses(
    v: ExchangeView,
    agent_id: AgentId,
    side: Side,
    price: i64,
    qty: u64,
    user_id: u64,
    order_id: u64,
    time: Nanos,
)
    requires
        !v.is_open,
    ensures
        ({
            let limit = v.processed(
                agent_id,
                OrderAction::NewLimitOrder { side, price, qty, user_id },
                time,
            );
            let market = v.processed(
                agent_id,
                OrderAction::NewMarketOrder { side, qty, user_id },
                time,
            );
            let cancel = v.processed(agent_id, OrderAction::CancelOrder { order_id }, time);
            let told = |id: u64, tag: u64|
                RoutedMessage {
                    agent_id,
                    message: ExchangeMessage::OrderRejected {
                        order_id: id,
                        user_id: tag,
                        symbol: v.symbol,
                    },
                };
            &&& limit.messages == seq![told(0, user_id)]
            &&& market.messages == seq![told(0, user_id)]
            &&& cancel.messages == seq![told(order_id, 0)]
            &&& cancel.exchange == v
            &&& limit.exchange == market.exchange
            &&& v.flow is None ==> limit.exchange == v
            &&& v.flow matches Some(flow) ==> limit.exchange == (ExchangeView {
                flow: Some(flow.rejected(time, agent_id)),
                ..v
            })
        }),
{
}

/// The mid is the sum of the best bid and the best ask, in half ticks; there
/// is one only if both sides have a positive best price.
pub proof fn law_the_mid_is_between_the_best_prices(v: ExchangeView)
    ensures
        v.mid2() is Some <==> {
            &&& best_price(v.book.bids, Side::Bid) matches Some(bid) && bid > 0
            &&& best_price(v.book.asks, Side::Ask) matches Some(ask) && ask > 0
        },
        v.mid2() matches Some(mid2) ==> mid2 == best_price(v.book.bids, Side::Bid)->0
            + best_price(v.book.asks, Side::Ask)->0,
{
}

/// What a quantity is worth does not depend on the sign of its price.
pub proof fn law_a_notional_is_price_times_quantity(price: i64, qty: u64)
    ensures
        price >= 0 ==> notional_of(price, qty) == price * qty,
        price < 0 ==> notional_of(price, qty) == 0 - price * qty,
{
    if price >= 0 {
        lemma_notional_fits(price, qty);
    } else {
        assert(-price * qty == 0 - price * qty) by (nonlinear_arith);
        assert(0 <= -price * qty <= 0x8000_0000_0000_0000 * u64::MAX) by (nonlinear_arith)
            requires
                0 <= -price <= 0x8000_0000_0000_0000,
                0 <= qty <= u64::MAX,
        ;
    }
}

/// The depth that a watched order meets leaves out the orders that the watched
/// agent has itself on the other side: one more of them within reach takes its
/// price times its quantity off. Orders on the taker's side, out of its reach
/// or of others do not.
pub proof fn law_own_orders_are_no_depth(
    v: ExchangeView,
    live: Set<u64>,
    side: Side,
    limit: Option<i64>,
    id: u64,
    info: OrderInfo,
)
    requires
        v.resting.dom().finite(),
        !v.resting.contains_key(id),
        info.price >= 0,
    ensures
        ({
            let more = ExchangeView { resting: v.resting.insert(id, info), ..v };
            more.own_notional(live, side, limit) == v.own_notional(live, side, limit)
                + if live.contains(id) && info.side != side && may_trade_at(
                side,
                limit,
                info.price,
            ) {
                info.price * info.remaining_qty
            } else {
                0
            }
        }),
        v.resting == Map::<u64, OrderInfo>::empty() ==> v.own_notional(live, side, limit) == 0,
{
    let more = ExchangeView { resting: v.resting.insert(id, info), ..v };
    let counted = |id: u64|
        live.contains(id) && v.resting[id].side != side && within(
            side,
            limit,
            v.resting[id].price,
        );
    let counted_more = |id: u64|
        live.contains(id) && more.resting[id].side != side && within(
            side,
            limit,
            more.resting[id].price,
        );
    let members = v.resting.dom().filter(counted);
    let worth_a = |id: u64| notional_of(v.resting[id].price, v.resting[id].remaining_qty) as nat;
    let worth_b = |id: u64|
        notional_of(more.resting[id].price, more.resting[id].remaining_qty) as nat;
    lemma_sum_of_cong(members, worth_a, worth_b);
    law_a_notional_is_price_times_quantity(info.price, info.remaining_qty);
    if live.contains(id) && info.side != side && may_trade_at(side, limit, info.price) {
        assert(more.resting.dom().filter(counted_more) =~= members.insert(id));
        lemma_sum_of_insert(members, worth_b, id);
    } else {
        assert(more.resting.dom().filter(counted_more) =~= members);
    }
    if v.resting == Map::<u64, OrderInfo>::empty() {
        assert(members =~= Set::<u64>::empty());
        lemma_sum_of_empty(worth_a);
    }
}

/// The depth beyond one's own orders is what is left of the other side within
/// reach, and never less than nothing.
pub proof fn law_depth_is_what_others_offer(
    v: ExchangeView,
    live: Set<u64>,
    side: Side,
    limit: Option<i64>,
)
    requires
        depth_notional(
            if side == Side::Bid {
                v.book.asks
            } else {
                v.book.bids
            },
            side,
            limit,
        ) <= u128::MAX,
    ensures
        ({
            let makers = if side == Side::Bid {
                v.book.asks
            } else {
                v.book.bids
            };
            let depth = v.external_depth(live, side, limit);
            let (whole, own) = (
                depth_notional(makers, side, limit),
                v.own_notional(live, side, limit),
            );
            &&& own <= whole ==> depth + own == whole
            &&& own >= whole ==> depth == 0
        }),
{
}

/// The price of a level, zero without one.
pub open spec fn price_or_zero(level: Option<(i64, u64)>) -> i64 {
    match level {
        Some((price, _)) => price,
        None => 0,
    }
}

/// What stands at a level, zero without one.
pub open spec fn volume_or_zero(level: Option<(i64, u64)>) -> u64 {
    match level {
        Some((_, qty)) => qty,
        None => 0,
    }
}

/// The quotes on the log are the best prices with what stands there, zeros for
/// a side that has none, and the last trade. Opening and closing log them too,
/// closing those of an empty book.
pub proof fn law_logged_quotes_are_those_of_the_book(v: ExchangeView, time: Nanos)
    requires
        v.l1_bucket_ns is None,
    ensures
        ({
            let (bid, ask) = (best_level(v.book.bids, Side::Bid), best_level(
                v.book.asks,
                Side::Ask,
            ));
            let last = match v.last_trade_price {
                Some(price) => price,
                None => 0,
            };
            let opened = v.opened(time);
            let closed = v.closed(time).exchange;
            &&& opened.l1_snapshots == v.l1_snapshots.push(
                L1Snapshot {
                    timestamp: time,
                    symbol: v.symbol,
                    bid_price: price_or_zero(bid),
                    bid_volume: volume_or_zero(bid),
                    ask_price: price_or_zero(ask),
                    ask_volume: volume_or_zero(ask),
                    last_trade_price: last,
                },
            )
            &&& opened.is_open
            &&& opened.flow == match v.flow {
                None => None,
                Some(flow) => Some(
                    flow.quoted(
                        time,
                        price_or_zero(bid),
                        price_or_zero(ask),
                    ),
                ),
            }
            &&& opened == ExchangeView {
                is_open: true,
                flow: opened.flow,
                l1_snapshots: opened.l1_snapshots,
                ..v
            }
            &&& closed.l1_snapshots == v.l1_snapshots.push(
                L1Snapshot {
                    timestamp: time,
                    symbol: v.symbol,
                    bid_price: 0,
                    bid_volume: 0,
                    ask_price: 0,
                    ask_volume: 0,
                    last_trade_price: last,
                },
            )
            &&& closed.trades == v.trades
            &&& closed.last_trade_price == v.last_trade_price
            &&& closed.last_trade_time == v.last_trade_time
            &&& closed.next_order_id == v.next_order_id
            &&& closed.symbol == v.symbol
        }),
{
    lemma_best_of_empty(BookView::empty().bids, Side::Bid);
    lemma_best_of_empty(BookView::empty().asks, Side::Ask);
}

/// A quote falls into the bucket of its time: one that starts at a multiple of
/// the width, no later than the quote and less than a width before it. The
/// bucket that was open is finished when another one starts, and stays open
/// else.
pub proof fn law_quotes_fall_into_the_bucket_of_their_time(
    v: ExchangeView,
    width: Nanos,
    time: Nanos,
)
    requires
        v.l1_bucket_ns == Some(width),
        width > 0,
    ensures
        ({
            let after = v.with_l1(time);
            let start = (time as int / width as int) * width;
            &&& after.open_bucket is Some
            &&& after.open_bucket->0.bucket_start == start
            &&& after.open_bucket->0.symbol == match v.open_bucket {
                Some(open) => if open.bucket_start == start {
                    open.symbol
                } else {
                    v.symbol
                },
                None => v.symbol,
            }
            &&& after.l1_buckets == match v.open_bucket {
                Some(open) => if open.bucket_start == start {
                    v.l1_buckets
                } else {
                    v.l1_buckets.push(open)
                },
                None => v.l1_buckets,
            }
            &&& after.l1_snapshots == v.l1_snapshots
            &&& v.bucket_flushed().l1_buckets == match v.open_bucket {
                Some(open) => v.l1_buckets.push(open),
                None => v.l1_buckets,
            }
            &&& v.bucket_flushed().open_bucket is None
            &&& v.bucket_flushed().l1_snapshots == v.l1_snapshots
            &&& v.bucket_flushed().trades == v.trades
        }),
{
    vstd::arithmetic::div_mod::lemma_fundamental_div_mod(time as int, width as int);
    assert((time as int / width as int) * width == width * (time as int / width as int))
        by (nonlinear_arith);
    assert(0 <= time as int % width as int <= time as int) by (nonlinear_arith)
        requires
            width > 0,
            time >= 0,
    ;
}

/// An order is live after what happened if it was before and did not leave.
pub open spec fn stays_live(after: FlowView, before: FlowView, left: bool, id: u64) -> bool {
    after.live.contains(id) <==> before.live.contains(id) && !left
}

proof fn lemma_all_gone(flow: FlowView, time: Nanos, ids: Seq<u64>)
    ensures
        flow_all_gone(Some(flow), time, ids) is Some,
        forall|id: u64| #[trigger]
            stays_live(flow_all_gone(Some(flow), time, ids)->0, flow, ids.contains(id), id),
    decreases ids.len(),
{
    if ids.len() > 0 {
        let less = ids.drop_last();
        lemma_all_gone(flow, time, less);
        assert forall|id: u64| #[trigger]
            stays_live(flow_all_gone(Some(flow), time, ids)->0, flow, ids.contains(id), id) by {
            assert(stays_live(
                flow_all_gone(Some(flow), time, less)->0,
                flow,
                less.contains(id),
                id,
            ));
            if ids.contains(id) && id != ids.last() {
                let i = ids.index_of(id);
                assert(less[i] == id);
            }
            if less.contains(id) {
                let i = less.index_of(id);
                assert(ids[i] == id);
            }
            assert(ids[ids.len() - 1] == ids.last());
        }
    }
}

/// When the market closes, the flow recorder hears of every order that leaves,
/// and of nothing else before the quotes: of its live orders those stay that
/// did not rest.
pub proof fn law_closing_leaves_no_live_orders(v: ExchangeView, flow: FlowView, time: Nanos)
    requires
        v.wf(),
        v.flow == Some(flow),
    ensures
        v.emptied(time).flow is Some,
        forall|id: u64| #[trigger]
            stays_live(v.emptied(time).flow->0, flow, v.resting.contains_key(id), id),
        v.closed(time).exchange.flow == Some(v.emptied(time).flow->0.quoted(time, 0, 0)),
{
    lemma_in_order_exists(v.resting.dom());
    let ids = in_order(v.resting.dom());
    lemma_all_gone(flow, time, ids);
    assert forall|id: u64| #[trigger]
        stays_live(v.emptied(time).flow->0, flow, v.resting.contains_key(id), id) by {
        assert(stays_live(v.emptied(time).flow->0, flow, ids.contains(id), id));
        assert(ids.to_set().contains(id) <==> ids.contains(id));
        assert(v.resting.dom().contains(id) <==> v.resting.contains_key(id));
    }
    lemma_best_of_empty(BookView::empty().bids, Side::Bid);
    lemma_best_of_empty(BookView::empty().asks, Side::Ask);
}

} // verus!
