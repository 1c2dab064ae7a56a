//! What a book shows and does, told from prices, quantities and places alone.

use crate::book_laws::law_best_prices_fill_first;
use crate::book_lemmas::{
    lemma_best_exists, lemma_best_of_empty, lemma_level_filled_wf, lemma_sum_of_empty,
    lemma_sum_of_insert, lemma_sweep_shape,
};
use crate::book_model::{
    after_cancel, after_limit, after_market, best_level, best_price, depth_notional, depth_qty,
    front_filled, is_best, least, levels_wf, limit_status, limit_sweep, market_status,
    market_sweep, next_maker, reachable, sweep, volume, volume_at, with_queue, BookView, Levels,
};
use crate::exchange_lemmas::lemma_sweep_conserves;
use crate::fills::{filled_qty, Fill, OrderStatus};
use crate::order::{LimitOrder, MarketOrder, RestingOrder, Side};
use crate::ticket_lemmas::lemma_sum_of_cong;
use vstd::prelude::*;

verus! {

/// A taker of `side` may pay or get this price: a buyer pays no more than its
/// limit, a seller gets no less.
pub open spec fn may_trade_at(side: Side, limit: Option<i64>, price: i64) -> bool {
    match (side, limit) {
        (_, None) => true,
        (Side::Bid, Some(bound)) => price <= bound,
        (Side::Ask, Some(bound)) => price >= bound,
    }
}

/// The one price trades before the other: the higher of two bids, the lower of
/// two asks.
pub open spec fn better(side: Side, a: i64, b: i64) -> bool {
    if side == Side::Bid {
        a > b
    } else {
        a < b
    }
}

/// The quantity of orders in line, from the front.
pub open spec fn line_qty(queue: Seq<RestingOrder>) -> int
    decreases queue.len(),
{
    if queue.len() == 0 {
        0
    } else {
        queue[0].qty + line_qty(queue.drop_first())
    }
}

/// Quantity traded, from the first fill on.
pub open spec fn qty_of(fills: Seq<Fill>) -> int
    decreases fills.len(),
{
    if fills.len() == 0 {
        0
    } else {
        fills[0].qty + qty_of(fills.drop_first())
    }
}

proof fn lemma_line_push(queue: Seq<RestingOrder>)
    requires
        queue.len() > 0,
    ensures
        line_qty(queue) == line_qty(queue.drop_last()) + queue.last().qty,
    decreases queue.len(),
{
    if queue.len() == 1 {
        assert(queue.drop_first() =~= Seq::<RestingOrder>::empty());
        assert(queue.drop_last() =~= Seq::<RestingOrder>::empty());
    } else {
        lemma_line_push(queue.drop_first());
        assert(queue.drop_first().drop_last() =~= queue.drop_last().drop_first());
        assert(queue.drop_first().last() == queue.last());
        assert(queue.drop_last()[0] == queue[0]);
    }
}

pub proof fn lemma_line_volume(queue: Seq<RestingOrder>)
    ensures
        volume(queue) == line_qty(queue),
    decreases queue.len(),
{
    if queue.len() > 0 {
        lemma_line_volume(queue.drop_last());
        lemma_line_push(queue);
    }
}

proof fn lemma_qty_push(fills: Seq<Fill>)
    requires
        fills.len() > 0,
    ensures
        qty_of(fills) == qty_of(fills.drop_last()) + fills.last().qty,
    decreases fills.len(),
{
    if fills.len() == 1 {
        assert(fills.drop_first() =~= Seq::<Fill>::empty());
        assert(fills.drop_last() =~= Seq::<Fill>::empty());
    } else {
        lemma_qty_push(fills.drop_first());
        assert(fills.drop_first().drop_last() =~= fills.drop_last().drop_first());
        assert(fills.drop_first().last() == fills.last());
        assert(fills.drop_last()[0] == fills[0]);
    }
}

pub proof fn lemma_qty_filled(fills: Seq<Fill>)
    ensures
        filled_qty(fills) == qty_of(fills),
    decreases fills.len(),
{
    if fills.len() > 0 {
        lemma_qty_filled(fills.drop_last());
        lemma_qty_push(fills);
    }
}

/// The best bid is the highest, the best ask the lowest; a side without levels
/// has none, and one with levels has one. Its volume, and that of any level, is
/// the quantity of the orders in line there.
pub proof fn law_the_best_price_is_the_best(levels: Levels, side: Side)
    requires
        levels_wf(levels),
    ensures
        best_price(levels, side) is None <==> forall|price: i64| !levels.contains_key(price),
        best_price(levels, side) matches Some(best) ==> levels.contains_key(best) && forall|
            price: i64,
        | #[trigger]
            levels.contains_key(price) ==> price == best || better(side, best, price),
        best_level(levels, side) is None <==> best_price(levels, side) is None,
        best_level(levels, side) matches Some((price, qty)) ==> best_price(levels, side) == Some(
            price,
        ) && qty == line_qty(levels[price]),
        forall|price: i64|
            #![trigger levels.contains_key(price)]
            volume_at(levels, price) == if levels.contains_key(price) {
                line_qty(levels[price])
            } else {
                0
            },
{
    if exists|price: i64| levels.contains_key(price) {
        lemma_best_exists(levels, side);
        let best = best_price(levels, side)->0;
        lemma_line_volume(levels[best]);
        assert(levels.contains_key(best));
    } else {
        lemma_best_of_empty(levels, side);
    }
    assert forall|price: i64|
        #![trigger levels.contains_key(price)]
        volume_at(levels, price) == if levels.contains_key(price) {
            line_qty(levels[price])
        } else {
            0
        } by {
        lemma_line_volume(levels[price]);
    }
}

/// No taker trades beyond its limit: what a buyer pays is at most that, what a
/// seller gets at least. Fills come at positive quantity, are those of the
/// taker, and no later fill is at a better price than an earlier one.
pub proof fn law_a_taker_trades_within_its_limit(
    levels: Levels,
    side: Side,
    id: u64,
    limit: Option<i64>,
    qty: nat,
)
    requires
        levels_wf(levels),
    ensures
        ({
            let outcome = sweep(levels, side, id, limit, qty);
            let fills = outcome.fills;
            &&& qty_of(fills) + outcome.remaining == qty
            &&& forall|i: int|
                0 <= i < fills.len() ==> {
                    let fill = #[trigger] fills[i];
                    &&& may_trade_at(side, limit, fill.price)
                    &&& fill.qty > 0
                    &&& fill.taker_order_id == id
                    &&& fill.taker_side == side
                }
            &&& forall|i: int, j: int|
                0 <= i < j < fills.len() ==> !better(
                    if side == Side::Bid {
                        Side::Ask
                    } else {
                        Side::Bid
                    },
                    (#[trigger] fills[j]).price,
                    (#[trigger] fills[i]).price,
                )
            &&& outcome.remaining > 0 ==> forall|price: i64| #[trigger]
                outcome.levels.contains_key(price) ==> !may_trade_at(side, limit, price)
        }),
{
    lemma_sweep_conserves(levels, side, id, limit, qty);
    law_best_prices_fill_first(levels, side, id, limit, qty);
    lemma_sweep_shape(levels, side, id, limit, qty);
    lemma_qty_filled(sweep(levels, side, id, limit, qty).fills);
}

/// What is left of a line after takers: the orders from some place on, all as
/// they were but for the first, which may have lost quantity.
pub open spec fn is_rest_of(left: Seq<RestingOrder>, queue: Seq<RestingOrder>, gone: int) -> bool {
    &&& 0 <= gone <= queue.len()
    &&& left.len() == queue.len() - gone
    &&& forall|k: int| 0 < k < left.len() ==> #[trigger] left[k] == queue[gone + k]
    &&& left.len() > 0 ==> {
        &&& left[0].id == queue[gone].id
        &&& left[0].timestamp == queue[gone].timestamp
        &&& 0 < left[0].qty <= queue[gone].qty
    }
}

/// What is left is such a rest of the line.
pub open spec fn lost_from_the_front(left: Seq<RestingOrder>, queue: Seq<RestingOrder>) -> bool {
    exists|gone: int| #[trigger] is_rest_of(left, queue, gone)
}

/// The level at a price, or no orders.
pub open spec fn line_at(levels: Levels, price: i64) -> Seq<RestingOrder> {
    if levels.contains_key(price) {
        levels[price]
    } else {
        Seq::empty()
    }
}

proof fn lemma_rest_of_rest(
    left: Seq<RestingOrder>,
    middle: Seq<RestingOrder>,
    queue: Seq<RestingOrder>,
    a: int,
    b: int,
)
    requires
        is_rest_of(middle, queue, a),
        is_rest_of(left, middle, b),
    ensures
        is_rest_of(left, queue, a + b),
{
    assert forall|k: int| 0 < k < left.len() implies #[trigger] left[k] == queue[a + b + k] by {
        assert(left[k] == middle[b + k]);
        assert(middle[b + k] == queue[a + (b + k)]);
    }
    if left.len() > 0 && b > 0 {
        assert(middle[b] == queue[a + b]);
    }
}

/// No order is passed over: a taker leaves at every price the line from some
/// place on, only the first of it smaller than before; and where it traded, no
/// better price is left at all.
pub proof fn law_no_order_is_passed_over(
    levels: Levels,
    side: Side,
    id: u64,
    limit: Option<i64>,
    qty: nat,
)
    requires
        levels_wf(levels),
    ensures
        ({
            let outcome = sweep(levels, side, id, limit, qty);
            let makers = if side == Side::Bid {
                Side::Ask
            } else {
                Side::Bid
            };
            &&& forall|price: i64|
                lost_from_the_front(
                    #[trigger] line_at(outcome.levels, price),
                    line_at(levels, price),
                )
            &&& forall|i: int, price: i64|
                0 <= i < outcome.fills.len() && #[trigger] outcome.levels.contains_key(price)
                    ==> !better(makers, price, (#[trigger] outcome.fills[i]).price)
        }),
    decreases qty,
{
    let outcome = sweep(levels, side, id, limit, qty);
    let makers = if side == Side::Bid {
        Side::Ask
    } else {
        Side::Bid
    };
    match next_maker(levels, side, limit, qty) {
        None => {
            assert forall|price: i64|
                lost_from_the_front(
                    #[trigger] line_at(outcome.levels, price),
                    line_at(levels, price),
                ) by {
                let line = line_at(levels, price);
                if levels.contains_key(price) {
                    assert(line[0].qty > 0);
                }
                assert(is_rest_of(line, line, 0));
            }
        },
        Some(best) => {
            assert(is_best(levels, side.spec_opposite(), best));
            let part = least(levels[best][0].qty as nat, qty);
            let next = front_filled(levels[best], part);
            let after = with_queue(levels, best, next);
            let left = (qty - part) as nat;
            let rest = sweep(after, side, id, limit, left);
            lemma_level_filled_wf(levels, best, part);
            law_no_order_is_passed_over(after, side, id, limit, left);
            lemma_sweep_shape(after, side, id, limit, left);
            assert(outcome.levels == rest.levels);
            assert forall|price: i64|
                lost_from_the_front(
                    #[trigger] line_at(outcome.levels, price),
                    line_at(levels, price),
                ) by {
                let (a, b, c) = (
                    line_at(levels, price),
                    line_at(after, price),
                    line_at(rest.levels, price),
                );
                assert(lost_from_the_front(c, b));
                let gone = choose|gone: int| #[trigger] is_rest_of(c, b, gone);
                if price == best {
                    assert(b =~= next);
                    let first = if part == levels[best][0].qty {
                        1int
                    } else {
                        0
                    };
                    assert(is_rest_of(b, a, first)) by {
                        if first == 1 && b.len() > 0 {
                            assert(a[1].qty > 0);
                        }
                    }
                    lemma_rest_of_rest(c, b, a, first, gone);
                } else {
                    assert(b == a);
                    assert(is_rest_of(c, a, gone));
                }
            }
            assert forall|i: int, price: i64|
                0 <= i < outcome.fills.len() && #[trigger] outcome.levels.contains_key(
                    price,
                ) implies !better(makers, price, (#[trigger] outcome.fills[i]).price) by {
                if i == 0 {
                    assert(levels.contains_key(price));
                } else {
                    assert(outcome.fills[i] == rest.fills[i - 1]);
                }
            }
        },
    }
}

/// An order that rests at this price has this id and this quantity.
pub open spec fn stands_with(levels: Levels, price: i64, id: u64, qty: u64) -> bool {
    levels.contains_key(price) && exists|k: int|
        0 <= k < levels[price].len() && (#[trigger] levels[price][k]).id == id
            && levels[price][k].qty == qty
}

/// A fill is of an order that rested at its price, for no more than that had,
/// and for all of it where that is asked.
pub open spec fn filled_from(levels: Levels, fill: Fill, all: bool) -> bool {
    exists|whole: u64| #[trigger]
        stands_with(levels, fill.price, fill.maker_order_id, whole) && fill.qty <= whole && (all
            ==> fill.qty == whole)
}

/// Every fill is of an order that rested at its price, and takes all of it;
/// only the last may take a part.
pub proof fn law_makers_fill_whole_but_the_last(
    levels: Levels,
    side: Side,
    id: u64,
    limit: Option<i64>,
    qty: nat,
)
    requires
        levels_wf(levels),
    ensures
        ({
            let fills = sweep(levels, side, id, limit, qty).fills;
            forall|i: int|
                0 <= i < fills.len() ==> filled_from(
                    levels,
                    #[trigger] fills[i],
                    i < fills.len() - 1,
                )
        }),
    decreases qty,
{
    let fills = sweep(levels, side, id, limit, qty).fills;
    match next_maker(levels, side, limit, qty) {
        None => {},
        Some(best) => {
            assert(is_best(levels, side.spec_opposite(), best));
            let front = levels[best][0];
            let part = least(front.qty as nat, qty);
            let next = front_filled(levels[best], part);
            let after = with_queue(levels, best, next);
            let left = (qty - part) as nat;
            let rest = sweep(after, side, id, limit, left).fills;
            lemma_level_filled_wf(levels, best, part);
            law_makers_fill_whole_but_the_last(after, side, id, limit, left);
            assert forall|i: int| 0 <= i < fills.len() implies filled_from(
                levels,
                #[trigger] fills[i],
                i < fills.len() - 1,
            ) by {
                if i == 0 {
                    assert(levels[best][0].id == fills[0].maker_order_id);
                    assert(stands_with(levels, best, front.id, front.qty));
                    if part < front.qty {
                        assert(left == 0);
                        assert(rest.len() == 0);
                        assert(fills.len() == 1);
                    } else {
                        assert(fills[0].qty == front.qty);
                    }
                    assert(stands_with(
                        levels,
                        fills[i].price,
                        fills[i].maker_order_id,
                        front.qty,
                    ));
                } else {
                    assert(fills[i] == rest[i - 1]);
                    let price = fills[i].price;
                    assert(filled_from(after, rest[i - 1], i - 1 < rest.len() - 1));
                    let whole = choose|whole: u64| #[trigger]
                        stands_with(after, price, fills[i].maker_order_id, whole) && fills[i].qty
                            <= whole && (i < fills.len() - 1 ==> fills[i].qty == whole);
                    assert(part == front.qty) by {
                        if part < front.qty {
                            assert(left == 0);
                            assert(rest.len() == 0);
                        }
                    }
                    let k = choose|k: int|
                        0 <= k < after[price].len() && (#[trigger] after[price][k]).id
                            == fills[i].maker_order_id && after[price][k].qty == whole;
                    if price == best {
                        assert(after[price][k] == levels[price][k + 1]);
                        assert(levels[price][k + 1].id == fills[i].maker_order_id);
                    } else {
                        assert(levels[price][k].id == fills[i].maker_order_id);
                    }
                    assert(stands_with(levels, price, fills[i].maker_order_id, whole));
                }
            }
        },
    }
}

/// What is left of a limit order stands last in line at its price, with the
/// quantity that found no maker and its own id and time; its own side is else
/// as it was, and the other side is as matching left it.
pub proof fn law_the_remainder_stands_last(book: BookView, order: LimitOrder)
    requires
        book.wf(),
    ensures
        ({
            let left = limit_sweep(book, order).remaining;
            let after = after_limit(book, order);
            let other = if order.side == Side::Bid {
                Side::Ask
            } else {
                Side::Bid
            };
            let own = |b: BookView| match order.side {
                Side::Bid => b.bids,
                Side::Ask => b.asks,
            };
            &&& left <= order.qty
            &&& left == 0 ==> own(after) == own(book)
            &&& left > 0 ==> {
                &&& line_at(own(after), order.price) == line_at(own(book), order.price).push(
                    RestingOrder {
                        id: order.id,
                        qty: left as u64,
                        timestamp: order.timestamp,
                    },
                )
                &&& forall|price: i64|
                    price != order.price ==> #[trigger] line_at(own(after), price) == line_at(
                        own(book),
                        price,
                    )
            }
            &&& after.side(other) == sweep(
                book.side(other),
                order.side,
                order.id,
                Some(order.price),
                order.qty as nat,
            ).levels
            &&& limit_sweep(book, order) == sweep(
                book.side(other),
                order.side,
                order.id,
                Some(order.price),
                order.qty as nat,
            )
        }),
{
    let other = order.side.spec_opposite();
    lemma_sweep_shape(
        book.side(other),
        order.side,
        order.id,
        Some(order.price),
        order.qty as nat,
    );
    let left = limit_sweep(book, order).remaining;
    if left > 0 {
        let rest = RestingOrder {
            id: order.id,
            qty: left as u64,
            timestamp: order.timestamp,
        };
        assert(line_at(after_limit(book, order).side(order.side), order.price) =~= line_at(
            book.side(order.side),
            order.price,
        ).push(rest));
    }
}

/// A market order takes from the other side without a limit, and leaves its
/// own side alone.
pub proof fn law_a_market_order_only_takes(book: BookView, order: MarketOrder)
    ensures
        ({
            let after = after_market(book, order);
            let taken = market_sweep(book, order);
            match order.side {
                Side::Bid => {
                    &&& after.bids == book.bids
                    &&& after.asks == taken.levels
                    &&& taken == sweep(book.asks, Side::Bid, order.id, None, order.qty as nat)
                },
                Side::Ask => {
                    &&& after.asks == book.asks
                    &&& after.bids == taken.levels
                    &&& taken == sweep(book.bids, Side::Ask, order.id, None, order.qty as nat)
                },
            }
        }),
{
}

/// The status tells what became of an order: a limit order is filled if
/// nothing is left, placed if all is, and else rests with the remainder; a
/// market order is filled if nothing is left, and else cancelled, with what it
/// filled.
pub proof fn law_the_status_tells_what_became_of_the_order(qty: u64, left: nat)
    requires
        0 < qty,
        left <= qty,
    ensures
        left == 0 ==> limit_status(qty as nat, left) == OrderStatus::Filled,
        left == qty ==> limit_status(qty as nat, left) == OrderStatus::Placed,
        0 < left < qty ==> limit_status(qty as nat, left) == (OrderStatus::Resting {
            remaining_qty: left as u64,
        }),
        left == 0 ==> market_status(qty as nat, left) == OrderStatus::Filled,
        left > 0 ==> market_status(qty as nat, left) == (OrderStatus::Cancelled {
            filled_qty: (qty - left) as u64,
        }),
{
}

/// A cancel takes the order out of its line; the others stay in their order,
/// each with its quantity, and a line without orders is no level.
pub proof fn law_a_cancel_leaves_the_others_in_line(book: BookView, id: u64)
    requires
        book.wf(),
    ensures
        forall|price: i64| #[trigger]
            line_at(after_cancel(book, id).bids, price) == line_at(book.bids, price).filter(
                |order: RestingOrder| order.id != id,
            ),
        forall|price: i64| #[trigger]
            line_at(after_cancel(book, id).asks, price) == line_at(book.asks, price).filter(
                |order: RestingOrder| order.id != id,
            ),
        forall|price: i64|
            after_cancel(book, id).bids.contains_key(price) ==> (
            #[trigger] after_cancel(book, id).bids[price]).len() > 0,
        forall|price: i64|
            after_cancel(book, id).asks.contains_key(price) ==> (
            #[trigger] after_cancel(book, id).asks[price]).len() > 0,
{
    reveal(Seq::filter);
    let keep = |order: RestingOrder| order.id != id;
    assert forall|price: i64| #[trigger]
        line_at(after_cancel(book, id).bids, price) == line_at(book.bids, price).filter(keep) by {
        assert(line_at(after_cancel(book, id).bids, price) =~= line_at(book.bids, price).filter(
            keep,
        ));
    }
    assert forall|price: i64| #[trigger]
        line_at(after_cancel(book, id).asks, price) == line_at(book.asks, price).filter(keep) by {
        assert(line_at(after_cancel(book, id).asks, price) =~= line_at(book.asks, price).filter(
            keep,
        ));
    }
}

/// Depth counts every level that a taker may trade at, and no other: a level
/// more adds its quantity, and its price times that, if the taker may trade
/// there, and nothing if not. An empty side has none.
pub proof fn law_depth_adds_up_level_by_level(
    levels: Levels,
    side: Side,
    limit: Option<i64>,
    price: i64,
    queue: Seq<RestingOrder>,
)
    requires
        levels.dom().finite(),
        !levels.contains_key(price),
        price >= 0,
    ensures
        depth_qty(Map::empty(), side, limit) == 0,
        depth_notional(Map::empty(), side, limit) == 0,
        depth_qty(levels.insert(price, queue), side, limit) == depth_qty(levels, side, limit)
            + if may_trade_at(side, limit, price) {
            line_qty(queue)
        } else {
            0
        },
        depth_notional(levels.insert(price, queue), side, limit) == depth_notional(
            levels,
            side,
            limit,
        ) + if may_trade_at(side, limit, price) {
            price * line_qty(queue)
        } else {
            0
        },
{
    let more = levels.insert(price, queue);
    let none = Map::<i64, Seq<RestingOrder>>::empty();
    assert(reachable(none, side, limit) =~= Set::<i64>::empty());
    lemma_sum_of_empty(|p: i64| volume(none[p]));
    lemma_sum_of_empty(|p: i64| (p * volume(none[p])) as nat);
    let members = reachable(levels, side, limit);
    vstd::set_lib::lemma_set_subset_finite(levels.dom(), members);
    let (fa, fb) = (|p: i64| volume(levels[p]), |p: i64| volume(more[p]));
    let (ga, gb) = (
        |p: i64| (p * volume(levels[p])) as nat,
        |p: i64| (p * volume(more[p])) as nat,
    );
    lemma_line_volume(queue);
    assert(price * line_qty(queue) >= 0) by (nonlinear_arith)
        requires
            price >= 0,
            line_qty(queue) >= 0,
    ;
    lemma_sum_of_cong(members, fa, fb);
    lemma_sum_of_cong(members, ga, gb);
    if may_trade_at(side, limit, price) {
        assert(reachable(more, side, limit) =~= members.insert(price));
        lemma_sum_of_insert(members, fb, price);
        lemma_sum_of_insert(members, gb, price);
    } else {
        assert(reachable(more, side, limit) =~= members);
    }
}

} // verus!
