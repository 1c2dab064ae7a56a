//! What holds of every book and every order.

use crate::book_lemmas::{
    lemma_best_exists, lemma_filter_distinct, lemma_filter_keeps, lemma_filter_member,
    lemma_filter_push, lemma_front_filled_wf, lemma_level_filled_wf, lemma_sum_of_empty,
    lemma_sum_of_insert, lemma_sweep_shape, lemma_volume_front_filled, lemma_volume_push,
    lemma_without_absent,
};
use crate::book_model::{
    after_cancel, after_limit, after_market, ahead, best_price, depth_qty, front_filled, is_best,
    least, levels_wf, levels_without, limit_status, limit_sweep, market_status, market_sweep,
    next_maker, queue_wf, queued, reachable, sum_of, sweep, volume, volume_at, with_queue,
    with_resting, within, without, BookView, Levels,
};
use crate::exchange_lemmas::lemma_sweep_conserves;
use crate::fills::{filled_qty, Fill};
use crate::order::{LimitOrder, MarketOrder, RestingOrder, Side};
use vstd::prelude::*;

verus! {

/// Quantity traded at a price by a run of fills.
pub open spec fn filled_at(fills: Seq<Fill>, price: i64) -> nat
    decreases fills.len(),
{
    if fills.len() == 0 {
        0
    } else {
        filled_at(fills.drop_last(), price) + if fills.last().price == price {
            fills.last().qty as nat
        } else {
            0
        }
    }
}

/// A fill in front of others adds to what trades at its price.
proof fn lemma_filled_at_front(fill: Fill, rest: Seq<Fill>, price: i64)
    ensures
        filled_at(seq![fill] + rest, price) == filled_at(rest, price) + if fill.price == price {
            fill.qty as nat
        } else {
            0
        },
    decreases rest.len(),
{
    let all = seq![fill] + rest;
    if rest.len() == 0 {
        assert(all.drop_last() =~= Seq::<Fill>::empty());
        assert(all.last() == fill);
        assert(filled_at(all.drop_last(), price) == 0);
    } else {
        assert(all.drop_last() =~= seq![fill] + rest.drop_last());
        assert(all.last() == rest.last());
        lemma_filled_at_front(fill, rest.drop_last(), price);
    }
}

/// No quantity is lost or made: an order's quantity is what filled and what
/// remains, and every price loses exactly the volume that filled there.
pub proof fn law_no_quantity_is_lost(
    levels: Levels,
    taker_side: Side,
    taker_id: u64,
    limit: Option<i64>,
    qty: nat,
)
    requires
        levels_wf(levels),
    ensures
        ({
            let outcome = sweep(levels, taker_side, taker_id, limit, qty);
            &&& filled_qty(outcome.fills) + outcome.remaining == qty
            &&& forall|price: i64| #[trigger]
                volume_at(outcome.levels, price) + filled_at(outcome.fills, price) == volume_at(
                    levels,
                    price,
                )
        }),
    decreases qty,
{
    lemma_sweep_conserves(levels, taker_side, taker_id, limit, qty);
    match next_maker(levels, taker_side, limit, qty) {
        None => {},
        Some(price) => {
            let part = least(levels[price][0].qty as nat, qty);
            let after = with_queue(levels, price, front_filled(levels[price], part));
            let left = (qty - part) as nat;
            assert(is_best(levels, taker_side.spec_opposite(), price));
            lemma_level_filled_wf(levels, price, part);
            law_no_quantity_is_lost(after, taker_side, taker_id, limit, left);
            lemma_volume_front_filled(levels[price], part);
            let rest = sweep(after, taker_side, taker_id, limit, left);
            let whole = sweep(levels, taker_side, taker_id, limit, qty);
            assert forall|p: i64| #[trigger]
                volume_at(whole.levels, p) + filled_at(whole.fills, p) == volume_at(levels, p) by {
                lemma_filled_at_front(whole.fills[0], rest.fills, p);
                assert(volume_at(rest.levels, p) + filled_at(rest.fills, p) == volume_at(after, p));
            }
        },
    }
}

/// The limit is respected: every fill is at a price within it, at which an
/// order rested, and names the taker.
pub proof fn law_fills_respect_the_limit(
    levels: Levels,
    taker_side: Side,
    taker_id: u64,
    limit: Option<i64>,
    qty: nat,
)
    requires
        levels_wf(levels),
    ensures
        ({
            let fills = sweep(levels, taker_side, taker_id, limit, qty).fills;
            forall|i: int|
                0 <= i < fills.len() ==> {
                    let fill = #[trigger] fills[i];
                    &&& fill.qty > 0
                    &&& fill.taker_side == taker_side
                    &&& fill.taker_order_id == taker_id
                    &&& within(taker_side, limit, fill.price)
                    &&& levels.contains_key(fill.price)
                }
        }),
{
    lemma_sweep_conserves(levels, taker_side, taker_id, limit, qty);
}

/// Price priority: no fill is at a better price than one before it.
pub proof fn law_best_prices_fill_first(
    levels: Levels,
    taker_side: Side,
    taker_id: u64,
    limit: Option<i64>,
    qty: nat,
)
    requires
        levels_wf(levels),
    ensures
        ({
            let fills = sweep(levels, taker_side, taker_id, limit, qty).fills;
            forall|i: int, j: int|
                0 <= i < j < fills.len() ==> (#[trigger] fills[i]).price == (
                #[trigger] fills[j]).price || ahead(
                    taker_side.spec_opposite(),
                    fills[i].price,
                    fills[j].price,
                )
        }),
    decreases qty,
{
    match next_maker(levels, taker_side, limit, qty) {
        None => {},
        Some(price) => {
            let part = least(levels[price][0].qty as nat, qty);
            let after = with_queue(levels, price, front_filled(levels[price], part));
            let left = (qty - part) as nat;
            assert(is_best(levels, taker_side.spec_opposite(), price));
            lemma_level_filled_wf(levels, price, part);
            law_best_prices_fill_first(after, taker_side, taker_id, limit, left);
            lemma_sweep_conserves(after, taker_side, taker_id, limit, left);
            let rest = sweep(after, taker_side, taker_id, limit, left).fills;
            let fills = sweep(levels, taker_side, taker_id, limit, qty).fills;
            assert forall|i: int, j: int| 0 <= i < j < fills.len() implies (
            #[trigger] fills[i]).price == (#[trigger] fills[j]).price || ahead(
                taker_side.spec_opposite(),
                fills[i].price,
                fills[j].price,
            ) by {
                assert(fills[j] == rest[j - 1]);
                assert(after.contains_key(rest[j - 1].price));
                assert(levels.contains_key(fills[j].price));
                if i > 0 {
                    assert(fills[i] == rest[i - 1]);
                }
            }
        },
    }
}

/// The order `id` stands at this place in the line.
pub open spec fn stands(queue: Seq<RestingOrder>, id: u64, place: int) -> bool {
    0 <= place < queue.len() && queue[place].id == id
}

/// In the line, order `first` stands before order `second`.
pub open spec fn stands_before(queue: Seq<RestingOrder>, first: u64, second: u64) -> bool {
    exists|a: int, b: int| a < b && #[trigger] stands(queue, first, a) && #[trigger] stands(
        queue,
        second,
        b,
    )
}

/// Every fill names an order that stood in the line at its price.
proof fn lemma_makers_stood(
    levels: Levels,
    taker_side: Side,
    taker_id: u64,
    limit: Option<i64>,
    qty: nat,
)
    requires
        levels_wf(levels),
    ensures
        ({
            let fills = sweep(levels, taker_side, taker_id, limit, qty).fills;
            forall|i: int|
                0 <= i < fills.len() ==> levels.contains_key((#[trigger] fills[i]).price) && queued(
                    levels[fills[i].price],
                    fills[i].maker_order_id,
                )
        }),
    decreases qty,
{
    match next_maker(levels, taker_side, limit, qty) {
        None => {},
        Some(price) => {
            let part = least(levels[price][0].qty as nat, qty);
            let next = front_filled(levels[price], part);
            let after = with_queue(levels, price, next);
            let left = (qty - part) as nat;
            assert(is_best(levels, taker_side.spec_opposite(), price));
            lemma_level_filled_wf(levels, price, part);
            lemma_makers_stood(after, taker_side, taker_id, limit, left);
            let rest = sweep(after, taker_side, taker_id, limit, left).fills;
            let fills = sweep(levels, taker_side, taker_id, limit, qty).fills;
            assert forall|i: int| 0 <= i < fills.len() implies levels.contains_key(
                (#[trigger] fills[i]).price,
            ) && queued(levels[fills[i].price], fills[i].maker_order_id) by {
                if i == 0 {
                    assert(levels[price][0].id == fills[0].maker_order_id);
                } else {
                    assert(fills[i] == rest[i - 1]);
                    if fills[i].price == price {
                        lemma_front_filled_wf(levels[price], part);
                    }
                }
            }
        },
    }
}

/// Time priority: of two fills at one price, the first is that of the order
/// that came first.
pub proof fn law_earlier_orders_fill_first(
    levels: Levels,
    taker_side: Side,
    taker_id: u64,
    limit: Option<i64>,
    qty: nat,
)
    requires
        levels_wf(levels),
    ensures
        ({
            let fills = sweep(levels, taker_side, taker_id, limit, qty).fills;
            forall|i: int, j: int|
                0 <= i < j < fills.len() && (#[trigger] fills[i]).price == (
                #[trigger] fills[j]).price ==> stands_before(
                    levels[fills[i].price],
                    fills[i].maker_order_id,
                    fills[j].maker_order_id,
                )
        }),
    decreases qty,
{
    match next_maker(levels, taker_side, limit, qty) {
        None => {},
        Some(price) => {
            let queue = levels[price];
            let part = least(queue[0].qty as nat, qty);
            let next = front_filled(queue, part);
            let after = with_queue(levels, price, next);
            let left = (qty - part) as nat;
            assert(is_best(levels, taker_side.spec_opposite(), price));
            lemma_level_filled_wf(levels, price, part);
            law_earlier_orders_fill_first(after, taker_side, taker_id, limit, left);
            lemma_makers_stood(after, taker_side, taker_id, limit, left);
            let rest = sweep(after, taker_side, taker_id, limit, left).fills;
            let fills = sweep(levels, taker_side, taker_id, limit, qty).fills;
            assert forall|i: int, j: int|
                0 <= i < j < fills.len() && (#[trigger] fills[i]).price == (
                #[trigger] fills[j]).price implies stands_before(
                levels[fills[i].price],
                fills[i].maker_order_id,
                fills[j].maker_order_id,
            ) by {
                assert(fills[j] == rest[j - 1]);
                assert(left > 0);
                if fills[j].price == price {
                    assert(next == queue.drop_first());
                    if i == 0 {
                        let b = choose|b: int|
                            0 <= b < next.len() && (#[trigger] next[b]).id
                                == fills[j].maker_order_id;
                        assert(stands(queue, fills[i].maker_order_id, 0));
                        assert(stands(queue, fills[j].maker_order_id, b + 1));
                    } else {
                        assert(fills[i] == rest[i - 1]);
                        assert(after[price] == next);
                        let (a, b) = choose|a: int, b: int|
                            a < b && #[trigger] stands(next, fills[i].maker_order_id, a)
                                && #[trigger] stands(next, fills[j].maker_order_id, b);
                        assert(stands(queue, fills[i].maker_order_id, a + 1));
                        assert(stands(queue, fills[j].maker_order_id, b + 1));
                    }
                } else {
                    assert(fills[i] == rest[i - 1]);
                }
            }
        },
    }
}

/// A taker leaves quantity over only when no price within its limit is left.
pub proof fn law_a_remainder_finds_no_maker(
    levels: Levels,
    taker_side: Side,
    taker_id: u64,
    limit: Option<i64>,
    qty: nat,
)
    requires
        levels_wf(levels),
        sweep(levels, taker_side, taker_id, limit, qty).remaining > 0,
    ensures
        forall|price: i64|
            sweep(levels, taker_side, taker_id, limit, qty).levels.contains_key(price)
                ==> !#[trigger] within(taker_side, limit, price),
{
    lemma_sweep_shape(levels, taker_side, taker_id, limit, qty);
}

/// A sum depends only on the values of its members.
proof fn lemma_sum_of_same<A>(members: Set<A>, f: spec_fn(A) -> nat, g: spec_fn(A) -> nat)
    requires
        members.finite(),
        forall|member: A| #[trigger] members.contains(member) ==> f(member) == g(member),
    ensures
        sum_of(members, f) == sum_of(members, g),
    decreases members.len(),
{
    if members.len() == 0 {
        assert(members =~= Set::empty());
        lemma_sum_of_empty(f);
        lemma_sum_of_empty(g);
    } else {
        let member = members.choose();
        let others = members.remove(member);
        assert(others.insert(member) =~= members);
        lemma_sum_of_same(others, f, g);
        lemma_sum_of_insert(others, f, member);
        lemma_sum_of_insert(others, g, member);
    }
}

/// A fill takes its quantity out of the depth.
proof fn lemma_depth_falls(levels: Levels, side: Side, limit: Option<i64>, price: i64, part: nat)
    requires
        levels_wf(levels),
        levels.contains_key(price),
        within(side, limit, price),
        0 < part <= levels[price][0].qty,
    ensures
        depth_qty(with_queue(levels, price, front_filled(levels[price], part)), side, limit) + part
            == depth_qty(levels, side, limit),
{
    let next = front_filled(levels[price], part);
    let after = with_queue(levels, price, next);
    let before_value = |p: i64| volume(levels[p]);
    let after_value = |p: i64| volume(after[p]);
    let reach = reachable(levels, side, limit);
    let others = reach.remove(price);
    lemma_volume_front_filled(levels[price], part);
    assert(levels.dom().finite());
    assert(reach.finite());
    assert(others.insert(price) =~= reach);
    lemma_sum_of_insert(others, before_value, price);
    lemma_sum_of_same(others, before_value, after_value);
    if next.len() == 0 {
        assert(reachable(after, side, limit) =~= others);
        assert(volume(next) == 0);
    } else {
        assert(reachable(after, side, limit) =~= reach);
        lemma_sum_of_insert(others, after_value, price);
    }
}

/// The executable depth is what a taker gets: all of its quantity, or all that
/// it can reach.
pub proof fn law_a_taker_gets_the_executable_depth(
    levels: Levels,
    taker_side: Side,
    taker_id: u64,
    limit: Option<i64>,
    qty: nat,
)
    requires
        levels_wf(levels),
    ensures
        filled_qty(sweep(levels, taker_side, taker_id, limit, qty).fills) == least(
            qty,
            depth_qty(levels, taker_side, limit),
        ),
    decreases qty,
{
    let side = taker_side.spec_opposite();
    lemma_sweep_conserves(levels, taker_side, taker_id, limit, qty);
    match next_maker(levels, taker_side, limit, qty) {
        None => {
            if qty > 0 {
                if exists|price: i64| levels.contains_key(price) {
                    lemma_best_exists(levels, side);
                    let best = best_price(levels, side)->0;
                    assert(levels.contains_key(best));
                    assert(levels[best][0].qty > 0);
                    assert(!within(taker_side, limit, best));
                }
                assert(reachable(levels, taker_side, limit) =~= Set::<i64>::empty());
                lemma_sum_of_empty(|price: i64| volume(levels[price]));
            }
        },
        Some(price) => {
            let part = least(levels[price][0].qty as nat, qty);
            let after = with_queue(levels, price, front_filled(levels[price], part));
            let left = (qty - part) as nat;
            assert(is_best(levels, side, price));
            lemma_level_filled_wf(levels, price, part);
            lemma_depth_falls(levels, taker_side, limit, price, part);
            law_a_taker_gets_the_executable_depth(after, taker_side, taker_id, limit, left);
            lemma_sweep_conserves(after, taker_side, taker_id, limit, left);
        },
    }
}

/// Matching leaves every order that it does not take where it was.
pub proof fn lemma_sweep_adds_no_order(
    levels: Levels,
    taker_side: Side,
    taker_id: u64,
    limit: Option<i64>,
    qty: nat,
)
    requires
        levels_wf(levels),
    ensures
        ({
            let after = sweep(levels, taker_side, taker_id, limit, qty).levels;
            forall|price: i64, id: u64|
                after.contains_key(price) && #[trigger] queued(after[price], id)
                    ==> levels.contains_key(price) && queued(levels[price], id)
        }),
    decreases qty,
{
    match next_maker(levels, taker_side, limit, qty) {
        None => {},
        Some(price) => {
            let part = least(levels[price][0].qty as nat, qty);
            let next = front_filled(levels[price], part);
            let after = with_queue(levels, price, next);
            let left = (qty - part) as nat;
            assert(is_best(levels, taker_side.spec_opposite(), price));
            lemma_level_filled_wf(levels, price, part);
            lemma_sweep_adds_no_order(after, taker_side, taker_id, limit, left);
            let rest = sweep(after, taker_side, taker_id, limit, left).levels;
            let whole = sweep(levels, taker_side, taker_id, limit, qty).levels;
            assert forall|p: i64, id: u64|
                whole.contains_key(p) && #[trigger] queued(whole[p], id) implies levels.contains_key(
                p,
            ) && queued(levels[p], id) by {
                assert(queued(rest[p], id));
                assert(after.contains_key(p) && queued(after[p], id));
                if p == price {
                    lemma_front_filled_wf(levels[price], part);
                }
            }
        },
    }
}

/// The book after the matching of an order, before a remainder rests.
proof fn lemma_swept_wf(book: BookView, side: Side, id: u64, limit: Option<i64>, qty: nat)
    requires
        book.wf(),
    ensures
        ({
            let maker = side.spec_opposite();
            let swept = book.with_side(maker, sweep(book.side(maker), side, id, limit, qty).levels);
            &&& swept.wf()
            &&& forall|other: u64, s: Side, p: i64| #[trigger]
                swept.rests_at(other, s, p) ==> book.rests_at(other, s, p)
        }),
{
    let maker = side.spec_opposite();
    let outcome = sweep(book.side(maker), side, id, limit, qty);
    let swept = book.with_side(maker, outcome.levels);
    lemma_sweep_shape(book.side(maker), side, id, limit, qty);
    lemma_sweep_adds_no_order(book.side(maker), side, id, limit, qty);
    assert forall|other: u64, s: Side, p: i64| #[trigger] swept.rests_at(
        other,
        s,
        p,
    ) implies book.rests_at(other, s, p) by {
        if s == maker {
            assert(queued(outcome.levels[p], other));
        }
    }
    assert forall|other: u64, s1: Side, p1: i64, s2: Side, p2: i64| #[trigger]
        swept.rests_at(other, s1, p1) && #[trigger] swept.rests_at(other, s2, p2) implies s1 == s2
        && p1 == p2 by {
        assert(book.rests_at(other, s1, p1) && book.rests_at(other, s2, p2));
    }
    assert forall|bid: i64, ask: i64| #[trigger]
        swept.bids.contains_key(bid) && #[trigger] swept.asks.contains_key(ask) implies bid < ask by {
        assert(book.bids.contains_key(bid) && book.asks.contains_key(ask));
    }
}

/// A limit order leaves a sound book: never crossed, every order in one place.
pub proof fn law_a_limit_order_leaves_a_sound_book(book: BookView, order: LimitOrder)
    requires
        book.wf(),
        order.price >= 0,
        !book.rests(order.id),
        volume_at(book.side(order.side), order.price) + order.qty <= u64::MAX,
    ensures
        after_limit(book, order).wf(),
{
    let maker = order.side.spec_opposite();
    let limit = Some(order.price);
    let outcome = limit_sweep(book, order);
    let swept = book.with_side(maker, outcome.levels);
    lemma_swept_wf(book, order.side, order.id, limit, order.qty as nat);
    lemma_sweep_shape(book.side(maker), order.side, order.id, limit, order.qty as nat);
    if outcome.remaining > 0 {
        let levels = book.side(order.side);
        let rest = RestingOrder {
            id: order.id,
            qty: outcome.remaining as u64,
            timestamp: order.timestamp,
        };
        let placed = with_resting(levels, order.price, rest);
        let after = after_limit(book, order);
        lemma_placed_wf(levels, order.price, rest, book, order.side);
        assert(after.side(order.side) == placed);
        assert(after.side(maker) == outcome.levels);
        assert forall|id: u64, s: Side, p: i64| #[trigger] after.rests_at(id, s, p) implies (
        book.rests_at(id, s, p) || (id == order.id && s == order.side && p == order.price)) by {
            if s == order.side {
                if p == order.price {
                    let queue = placed[p];
                    let i = choose|i: int| 0 <= i < queue.len() && (#[trigger] queue[i]).id == id;
                    if levels.contains_key(p) && i < levels[p].len() {
                        assert(levels[p][i].id == id);
                        assert(queued(levels[p], id));
                    } else {
                        assert(queue[i] == rest);
                    }
                } else {
                    assert(queued(levels[p], id));
                }
            } else {
                assert(swept.rests_at(id, s, p));
            }
        }
        assert forall|id: u64, s1: Side, p1: i64, s2: Side, p2: i64| #[trigger]
            after.rests_at(id, s1, p1) && #[trigger] after.rests_at(id, s2, p2) implies s1 == s2
            && p1 == p2 by {
            if id == order.id {
                assert(!book.rests_at(id, s1, p1) && !book.rests_at(id, s2, p2));
            }
        }
        assert(after.uncrossed()) by {
            assert forall|bid: i64, ask: i64| #[trigger]
                after.bids.contains_key(bid) && #[trigger] after.asks.contains_key(ask) implies bid
                < ask by {
                let (own, other) = match order.side {
                    Side::Bid => (bid, ask),
                    Side::Ask => (ask, bid),
                };
                assert(outcome.levels.contains_key(other));
                assert(!within(order.side, limit, other));
                if own != order.price {
                    assert(levels.contains_key(own));
                    assert(book.side(maker).contains_key(other));
                    assert(book.bids.contains_key(bid) && book.asks.contains_key(ask));
                }
            }
        }
    }
}

/// A new order at the end of a line leaves a sound side.
proof fn lemma_placed_wf(
    levels: Levels,
    price: i64,
    rest: RestingOrder,
    book: BookView,
    side: Side,
)
    requires
        book.wf(),
        levels == book.side(side),
        price >= 0,
        rest.qty > 0,
        !book.rests(rest.id),
        volume_at(levels, price) + rest.qty <= u64::MAX,
    ensures
        levels_wf(with_resting(levels, price, rest)),
{
    let after = with_resting(levels, price, rest);
    let queue = after[price];
    if levels.contains_key(price) {
        let line = levels[price];
        lemma_volume_push(line, rest);
        assert forall|i: int, j: int| 0 <= i < j < queue.len() implies (#[trigger] queue[i]).id != (
        #[trigger] queue[j]).id by {
            assert(queue[i] == line[i]);
            if j == line.len() {
                assert(queued(line, line[i].id));
                assert(book.rests_at(line[i].id, side, price));
            } else {
                assert(queue[j] == line[j]);
            }
        }
        assert forall|i: int| 0 <= i < queue.len() implies (#[trigger] queue[i]).qty > 0 by {
            if i < line.len() {
                assert(queue[i] == line[i]);
            }
        }
    } else {
        assert(queue.drop_last() =~= Seq::<RestingOrder>::empty());
        assert(volume(queue.drop_last()) == 0);
        assert(volume(queue) == rest.qty);
    }
    assert(queue_wf(queue));
    assert(after.dom() =~= levels.dom().insert(price));
}

/// A market order leaves a sound book, and never rests.
pub proof fn law_a_market_order_leaves_a_sound_book(book: BookView, order: MarketOrder)
    requires
        book.wf(),
    ensures
        after_market(book, order).wf(),
        !book.rests(order.id) ==> !after_market(book, order).rests(order.id),
{
    lemma_swept_wf(book, order.side, order.id, None, order.qty as nat);
    let after = after_market(book, order);
    if after.rests(order.id) {
        let (s, p) = choose|s: Side, p: i64| #[trigger] after.rests_at(order.id, s, p);
        assert(book.rests_at(order.id, s, p));
    }
}

/// A limit order rests exactly if some of it found no maker. A filled order
/// can no longer be cancelled.
pub proof fn law_only_a_remainder_rests(book: BookView, order: LimitOrder)
    requires
        book.wf(),
        !book.rests(order.id),
    ensures
        after_limit(book, order).rests(order.id) <==> limit_sweep(book, order).remaining > 0,
{
    let maker = order.side.spec_opposite();
    let outcome = limit_sweep(book, order);
    let after = after_limit(book, order);
    lemma_swept_wf(book, order.side, order.id, Some(order.price), order.qty as nat);
    if outcome.remaining > 0 {
        let queue = after.side(order.side)[order.price];
        assert(queue.last().id == order.id);
        assert(queued(queue, order.id)) by {
            assert(queue[queue.len() - 1].id == order.id);
        }
        assert(after.rests_at(order.id, order.side, order.price));
    } else if after.rests(order.id) {
        let (s, p) = choose|s: Side, p: i64| #[trigger] after.rests_at(order.id, s, p);
        assert(book.rests_at(order.id, s, p));
    }
}

/// A queue without an order that stands in it lacks exactly that order.
proof fn lemma_without_queued(queue: Seq<RestingOrder>, id: u64, other: u64)
    ensures
        queued(without(queue, id), other) <==> other != id && queued(queue, other),
{
    let pred = |order: RestingOrder| order.id != id;
    let less = without(queue, id);
    if queued(less, other) {
        let i = choose|i: int| 0 <= i < less.len() && (#[trigger] less[i]).id == other;
        lemma_filter_member(queue, pred, i);
        let j = choose|j: int| 0 <= j < queue.len() && #[trigger] queue[j] == less[i];
        assert(queue[j].id == other);
    }
    if other != id && queued(queue, other) {
        let j = choose|j: int| 0 <= j < queue.len() && (#[trigger] queue[j]).id == other;
        lemma_filter_keeps(queue, pred, j);
        let i = choose|i: int| 0 <= i < less.len() && #[trigger] less[i] == queue[j];
        assert(less[i].id == other);
    }
}

/// A cancelled order is gone, and every other order rests where it did.
pub proof fn law_a_cancel_takes_one_order(book: BookView, id: u64)
    requires
        book.wf(),
    ensures
        forall|other: u64, side: Side, price: i64| #[trigger]
            after_cancel(book, id).rests_at(other, side, price) <==> other != id && book.rests_at(
                other,
                side,
                price,
            ),
{
    let after = after_cancel(book, id);
    assert forall|other: u64, side: Side, price: i64| #[trigger]
        after.rests_at(other, side, price) <==> other != id && book.rests_at(
            other,
            side,
            price,
        ) by {
        let levels = book.side(side);
        if levels.contains_key(price) {
            lemma_without_queued(levels[price], id, other);
            if queued(without(levels[price], id), other) {
                let i = choose|i: int|
                    0 <= i < without(levels[price], id).len() && (#[trigger] without(
                        levels[price],
                        id,
                    )[i]).id == other;
                assert(without(levels[price], id).len() > 0);
            }
        }
    }
}

/// A side stays sound when an order is cancelled.
proof fn lemma_levels_without_wf(levels: Levels, id: u64)
    requires
        levels_wf(levels),
    ensures
        levels_wf(levels_without(levels, id)),
{
    let after = levels_without(levels, id);
    let pred = |order: RestingOrder| order.id != id;
    assert forall|price: i64| #[trigger] after.contains_key(price) implies price >= 0 && queue_wf(
        after[price],
    ) by {
        let queue = levels[price];
        assert(levels.contains_key(price));
        lemma_filter_distinct(queue, pred);
        lemma_filter_volume(queue, pred);
        assert forall|i: int| 0 <= i < after[price].len() implies (#[trigger] after[price][i]).qty
            > 0 by {
            lemma_filter_member(queue, pred, i);
        }
    }
    assert(after.dom().subset_of(levels.dom()));
}

/// A part of a queue has no more volume than the queue.
proof fn lemma_filter_volume(queue: Seq<RestingOrder>, pred: spec_fn(RestingOrder) -> bool)
    ensures
        volume(queue.filter(pred)) <= volume(queue),
    decreases queue.len(),
{
    reveal(Seq::filter);
    if queue.len() > 0 {
        let before = queue.drop_last();
        lemma_filter_volume(before, pred);
        if pred(queue.last()) {
            lemma_volume_push(before.filter(pred), queue.last());
        }
    }
}

/// A cancel leaves a sound book.
pub proof fn law_a_cancel_leaves_a_sound_book(book: BookView, id: u64)
    requires
        book.wf(),
    ensures
        after_cancel(book, id).wf(),
{
    let after = after_cancel(book, id);
    lemma_levels_without_wf(book.bids, id);
    lemma_levels_without_wf(book.asks, id);
    law_a_cancel_takes_one_order(book, id);
    assert forall|other: u64, s1: Side, p1: i64, s2: Side, p2: i64| #[trigger]
        after.rests_at(other, s1, p1) && #[trigger] after.rests_at(other, s2, p2) implies s1 == s2
        && p1 == p2 by {
        assert(book.rests_at(other, s1, p1) && book.rests_at(other, s2, p2));
    }
    assert forall|bid: i64, ask: i64| #[trigger]
        after.bids.contains_key(bid) && #[trigger] after.asks.contains_key(ask) implies bid < ask by {
        assert(book.bids.contains_key(bid) && book.asks.contains_key(ask));
    }
}

/// A side without an order it never had is the side itself.
pub proof fn lemma_levels_without_absent(levels: Levels, id: u64)
    requires
        levels_wf(levels),
        forall|price: i64| #[trigger] levels.contains_key(price) ==> !queued(levels[price], id),
    ensures
        levels_without(levels, id) == levels,
{
    assert forall|price: i64| #[trigger] levels.contains_key(price) implies without(
        levels[price],
        id,
    ) == levels[price] by {
        lemma_without_absent(levels[price], id);
    }
    assert(levels_without(levels, id) =~= levels);
}

/// Cancelling an order that does not rest changes nothing.
pub proof fn law_an_unknown_cancel_changes_nothing(book: BookView, id: u64)
    requires
        book.wf(),
        !book.rests(id),
    ensures
        after_cancel(book, id) == book,
{
    assert forall|price: i64| #[trigger] book.bids.contains_key(price) implies !queued(
        book.bids[price],
        id,
    ) by {
        assert(!book.rests_at(id, Side::Bid, price));
    }
    assert forall|price: i64| #[trigger] book.asks.contains_key(price) implies !queued(
        book.asks[price],
        id,
    ) by {
        assert(!book.rests_at(id, Side::Ask, price));
    }
    lemma_levels_without_absent(book.bids, id);
    lemma_levels_without_absent(book.asks, id);
}

/// An order whose remainder is cancelled leaves the book without its makers,
/// and otherwise as it was.
proof fn lemma_cancelled_remainder(book: BookView, order: LimitOrder)
    requires
        book.wf(),
        !book.rests(order.id),
        limit_sweep(book, order).remaining > 0,
    ensures
        after_cancel(after_limit(book, order), order.id) == book.with_side(
            order.side.spec_opposite(),
            limit_sweep(book, order).levels,
        ),
{
    let side = order.side;
    let maker = side.spec_opposite();
    let limit = Some(order.price);
    let outcome = limit_sweep(book, order);
    let levels = book.side(side);
    let placed = after_limit(book, order);
    let after = after_cancel(placed, order.id);
    lemma_sweep_adds_no_order(book.side(maker), side, order.id, limit, order.qty as nat);
    assert forall|p: i64| #[trigger] levels.contains_key(p) implies without(levels[p], order.id)
        == levels[p] by {
        assert(!book.rests_at(order.id, side, p));
        lemma_without_absent(levels[p], order.id);
    }
    assert forall|p: i64| #[trigger] outcome.levels.contains_key(p) implies without(
        outcome.levels[p],
        order.id,
    ) == outcome.levels[p] && outcome.levels[p].len() > 0 by {
        assert(!book.rests_at(order.id, maker, p));
        lemma_sweep_shape(book.side(maker), side, order.id, limit, order.qty as nat);
        lemma_without_absent(outcome.levels[p], order.id);
    }
    assert(levels_without(outcome.levels, order.id) =~= outcome.levels);
    let rest = RestingOrder {
        id: order.id,
        qty: outcome.remaining as u64,
        timestamp: order.timestamp,
    };
    let pred = |o: RestingOrder| o.id != order.id;
    let own = with_resting(levels, order.price, rest);
    let line = if levels.contains_key(order.price) {
        levels[order.price]
    } else {
        Seq::empty()
    };
    assert(own[order.price] =~= line.push(rest));
    lemma_filter_push(line, rest, pred);
    if !levels.contains_key(order.price) {
        reveal(Seq::filter);
        assert(line.filter(pred) =~= Seq::<RestingOrder>::empty());
    }
    assert(levels_without(own, order.id) =~= levels) by {
        assert forall|p: i64| #[trigger] levels_without(own, order.id).contains_key(p)
            == levels.contains_key(p) by {
            if levels.contains_key(p) {
                assert(without(levels[p], order.id) == levels[p]);
            }
        }
        assert forall|p: i64| #[trigger] levels.contains_key(p) implies levels_without(
            own,
            order.id,
        )[p] == levels[p] by {
            assert(without(levels[p], order.id) == levels[p]);
        }
    }
    assert(after =~= book.with_side(maker, outcome.levels));
}

/// A cancel undoes a placement: an order that found no maker and is cancelled
/// leaves the book as it was.
pub proof fn law_a_cancel_undoes_a_placement(book: BookView, order: LimitOrder)
    requires
        book.wf(),
        order.qty > 0,
        !book.rests(order.id),
        limit_sweep(book, order).remaining == order.qty,
    ensures
        after_limit(book, order).rests(order.id),
        after_cancel(after_limit(book, order), order.id) == book,
{
    let side = order.side;
    let maker = side.spec_opposite();
    let limit = Some(order.price);
    let outcome = limit_sweep(book, order);
    assert(outcome.levels == book.side(maker)) by {
        match next_maker(book.side(maker), side, limit, order.qty as nat) {
            None => {},
            Some(price) => {
                lemma_best_exists(book.side(maker), maker);
                let part = least(book.side(maker)[price][0].qty as nat, order.qty as nat);
                lemma_level_filled_wf(book.side(maker), price, part);
                lemma_sweep_shape(
                    with_queue(
                        book.side(maker),
                        price,
                        front_filled(book.side(maker)[price], part),
                    ),
                    side,
                    order.id,
                    limit,
                    (order.qty - part) as nat,
                );
            },
        }
    }
    law_only_a_remainder_rests(book, order);
    lemma_cancelled_remainder(book, order);
    assert(book.with_side(maker, outcome.levels) =~= book);
}

/// The price at which a limit order of `side` takes any maker.
pub open spec fn extreme_price(side: Side) -> i64 {
    match side {
        Side::Bid => i64::MAX,
        Side::Ask => 0,
    }
}

/// A limit that every price is within bounds nothing.
proof fn lemma_unbounded_sweep(levels: Levels, taker_side: Side, taker_id: u64, remaining: nat)
    requires
        levels_wf(levels),
    ensures
        sweep(levels, taker_side, taker_id, None, remaining) == sweep(
            levels,
            taker_side,
            taker_id,
            Some(extreme_price(taker_side)),
            remaining,
        ),
    decreases remaining,
{
    let limit = Some(extreme_price(taker_side));
    match best_price(levels, taker_side.spec_opposite()) {
        Some(price) => {
            assert(is_best(levels, taker_side.spec_opposite(), price));
            assert(within(taker_side, limit, price));
        },
        None => {},
    }
    match next_maker(levels, taker_side, None, remaining) {
        Some(price) => {
            let part = least(levels[price][0].qty as nat, remaining);
            lemma_level_filled_wf(levels, price, part);
            lemma_unbounded_sweep(
                with_queue(levels, price, front_filled(levels[price], part)),
                taker_side,
                taker_id,
                (remaining - part) as nat,
            );
        },
        None => {},
    }
}

/// A market order does what a limit order at the extreme price does whose
/// remainder is cancelled at once: the same fills, filled or not alike, and
/// the same book.
pub proof fn law_a_market_order_is_an_extreme_limit_order(
    book: BookView,
    order: MarketOrder,
    timestamp: u64,
)
    requires
        book.wf(),
        !book.rests(order.id),
        order.qty > 0,
    ensures
        ({
            let limit = LimitOrder {
                id: order.id,
                side: order.side,
                price: extreme_price(order.side),
                qty: order.qty,
                timestamp,
            };
            let taken = market_sweep(book, order);
            let status = limit_status(order.qty as nat, limit_sweep(book, limit).remaining);
            &&& taken == limit_sweep(book, limit)
            &&& market_status(order.qty as nat, taken.remaining) is Filled <==> status is Filled
            &&& status is Filled ==> after_limit(book, limit) == after_market(book, order)
            &&& status !is Filled ==> {
                &&& after_limit(book, limit).rests(order.id)
                &&& after_cancel(after_limit(book, limit), order.id) == after_market(book, order)
            }
        }),
{
    let limit = LimitOrder {
        id: order.id,
        side: order.side,
        price: extreme_price(order.side),
        qty: order.qty,
        timestamp,
    };
    lemma_unbounded_sweep(
        book.side(order.side.spec_opposite()),
        order.side,
        order.id,
        order.qty as nat,
    );
    if limit_sweep(book, limit).remaining > 0 {
        law_only_a_remainder_rests(book, limit);
        lemma_cancelled_remainder(book, limit);
    }
}

} // verus!
