//! How the number of resting orders moves with each request.

use crate::book_laws::{
    law_a_cancel_takes_one_order, law_only_a_remainder_rests, lemma_sweep_adds_no_order,
};
use crate::book_lemmas::{
    lemma_best_exists, lemma_best_of_empty, lemma_filter_front, lemma_level_filled_wf,
    lemma_sweep_shape,
};
use crate::book_model::{
    after_cancel, after_limit, after_market, best_price, front_filled, is_best, least, levels_wf,
    limit_sweep, market_sweep, next_maker, queued, sweep, with_queue, with_resting, BookView,
    Levels,
};
use crate::exchange_lemmas::single;
use crate::fills::Fill;
use crate::order::{LimitOrder, MarketOrder, RestingOrder, Side};
use vstd::prelude::*;

verus! {

/// Some order of the side has this id.
pub open spec fn stands_in(levels: Levels, id: u64) -> bool {
    exists|price: i64| levels.contains_key(price) && #[trigger] queued(levels[price], id)
}

/// The ids of the orders of a side.
pub open spec fn side_ids(levels: Levels) -> Set<u64> {
    Set::new(|id: u64| stands_in(levels, id))
}

/// The number of makers among these fills that nothing is left of: they are
/// not on their side any more.
pub open spec fn makers_gone(fills: Seq<Fill>, levels: Levels) -> nat {
    fills.filter(|fill: Fill| !stands_in(levels, fill.maker_order_id)).len()
}

/// A side has finitely many orders.
proof fn lemma_side_ids_finite(levels: Levels)
    requires
        levels.dom().finite(),
    ensures
        side_ids(levels).finite(),
    decreases levels.dom().len(),
{
    if levels.dom().len() == 0 {
        assert forall|id: u64| !#[trigger] side_ids(levels).contains(id) by {
            if stands_in(levels, id) {
                let price = choose|price: i64|
                    levels.contains_key(price) && #[trigger] queued(levels[price], id);
                assert(levels.dom().contains(price));
            }
        }
        assert(side_ids(levels) =~= Set::<u64>::empty());
    } else {
        let price = levels.dom().choose();
        let less = levels.remove(price);
        let ids = levels[price].map_values(|order: RestingOrder| order.id);
        lemma_side_ids_finite(less);
        vstd::seq_lib::seq_to_set_is_finite(ids);
        assert(side_ids(levels).subset_of(side_ids(less).union(ids.to_set()))) by {
            assert forall|id: u64| #[trigger] side_ids(levels).contains(id) implies side_ids(
                less,
            ).union(ids.to_set()).contains(id) by {
                let at = choose|at: i64|
                    levels.contains_key(at) && #[trigger] queued(levels[at], id);
                if at == price {
                    let i = choose|i: int|
                        0 <= i < levels[at].len() && (#[trigger] levels[at][i]).id == id;
                    assert(ids[i] == id);
                    assert(ids.contains(id));
                } else {
                    assert(less.contains_key(at) && queued(less[at], id));
                }
            }
        }
        vstd::set_lib::lemma_set_subset_finite(side_ids(less).union(ids.to_set()), side_ids(levels));
    }
}

/// Filling the first order in line takes it away if that was all of it, and
/// no order otherwise.
pub proof fn lemma_front_filled_ids(levels: Levels, price: i64, part: nat)
    requires
        levels_wf(levels),
        single(levels),
        levels.contains_key(price),
        0 < part <= levels[price][0].qty,
    ensures
        ({
            let front = levels[price][0];
            let after = with_queue(levels, price, front_filled(levels[price], part));
            &&& stands_in(levels, front.id)
            &&& single(after)
            &&& side_ids(after) == if part == front.qty {
                side_ids(levels).remove(front.id)
            } else {
                side_ids(levels)
            }
        }),
{
    let queue = levels[price];
    let front = queue[0];
    let next = front_filled(queue, part);
    let after = with_queue(levels, price, next);
    assert(queued(queue, front.id));
    assert forall|id: u64| #[trigger] queued(next, id) <==> queued(queue, id) && (part < front.qty
        || id != front.id) by {
        if queued(next, id) {
            let i = choose|i: int| 0 <= i < next.len() && (#[trigger] next[i]).id == id;
            if part < front.qty {
                assert(queue[i].id == id);
            } else {
                assert(queue[i + 1].id == id);
                assert(queue[0].id != queue[i + 1].id);
            }
        }
        if queued(queue, id) && (part < front.qty || id != front.id) {
            let i = choose|i: int| 0 <= i < queue.len() && (#[trigger] queue[i]).id == id;
            if part < front.qty {
                assert(next[i].id == id);
            } else {
                assert(next[i - 1].id == id);
            }
        }
    }
    assert forall|p: i64, id: u64|
        after.contains_key(p) && #[trigger] queued(after[p], id) implies levels.contains_key(p)
        && queued(levels[p], id) by {
        if p == price {
            assert(queued(next, id));
        }
    }
    let then = if part == front.qty {
        side_ids(levels).remove(front.id)
    } else {
        side_ids(levels)
    };
    assert forall|id: u64| #[trigger] side_ids(after).contains(id) <==> then.contains(id) by {
        if stands_in(after, id) {
            let p = choose|p: i64| after.contains_key(p) && #[trigger] queued(after[p], id);
            assert(queued(levels[p], id));
            if p == price {
                assert(queued(next, id));
            } else if id == front.id {
                assert(queued(levels[price], id));
            }
        }
        if then.contains(id) {
            let p = choose|p: i64| levels.contains_key(p) && #[trigger] queued(levels[p], id);
            if p == price {
                assert(queued(next, id));
                assert(next.len() > 0);
                assert(queued(after[p], id));
            } else {
                assert(queued(after[p], id));
            }
        }
    }
    assert(side_ids(after) =~= then);
}

/// Matching takes away as many orders as it leaves nothing of.
proof fn lemma_sweep_count(
    levels: Levels,
    taker_side: Side,
    taker_id: u64,
    limit: Option<i64>,
    qty: nat,
)
    requires
        levels_wf(levels),
        single(levels),
    ensures
        ({
            let outcome = sweep(levels, taker_side, taker_id, limit, qty);
            side_ids(levels).len() == side_ids(outcome.levels).len() + makers_gone(
                outcome.fills,
                outcome.levels,
            )
        }),
    decreases qty,
{
    let outcome = sweep(levels, taker_side, taker_id, limit, qty);
    let gone = |fill: Fill| !stands_in(outcome.levels, fill.maker_order_id);
    match next_maker(levels, taker_side, limit, qty) {
        None => {
            reveal(Seq::filter);
            assert(outcome.fills.filter(gone) =~= Seq::<Fill>::empty());
        },
        Some(price) => {
            assert(is_best(levels, taker_side.spec_opposite(), price));
            let front = levels[price][0];
            let part = least(front.qty as nat, qty);
            let after = with_queue(levels, price, front_filled(levels[price], part));
            let left = (qty - part) as nat;
            let rest = sweep(after, taker_side, taker_id, limit, left);
            lemma_level_filled_wf(levels, price, part);
            lemma_front_filled_ids(levels, price, part);
            lemma_side_ids_finite(levels);
            lemma_sweep_count(after, taker_side, taker_id, limit, left);
            assert(outcome.levels == rest.levels);
            assert(outcome.fills.drop_first() =~= rest.fills);
            assert(outcome.fills[0].maker_order_id == front.id);
            lemma_filter_front(outcome.fills, gone);
            if part == front.qty {
                assert(!side_ids(after).contains(front.id));
                lemma_sweep_adds_no_order(after, taker_side, taker_id, limit, left);
                if stands_in(rest.levels, front.id) {
                    let p = choose|p: i64|
                        rest.levels.contains_key(p) && #[trigger] queued(rest.levels[p], front.id);
                    assert(queued(after[p], front.id));
                    assert(stands_in(after, front.id));
                }
                assert(side_ids(levels).contains(front.id));
            } else {
                assert(left == 0);
                assert(rest.levels == after);
                assert(side_ids(after).contains(front.id));
            }
        },
    }
}

/// The orders of a book are those of its sides.
proof fn lemma_live_ids_of_sides(book: BookView, side: Side)
    requires
        levels_wf(book.bids),
        levels_wf(book.asks),
        forall|id: u64| !(stands_in(book.bids, id) && stands_in(book.asks, id)),
    ensures
        book.live_ids().finite(),
        book.live_ids().len() == side_ids(book.side(side)).len() + side_ids(
            book.side(side.spec_opposite()),
        ).len(),
{
    let bids = side_ids(book.bids);
    let asks = side_ids(book.asks);
    lemma_side_ids_finite(book.bids);
    lemma_side_ids_finite(book.asks);
    assert forall|id: u64| #[trigger] book.live_ids().contains(id) <==> bids.union(asks).contains(
        id,
    ) by {
        if book.rests(id) {
            let (s, p) = choose|s: Side, p: i64| #[trigger] book.rests_at(id, s, p);
            assert(queued(book.side(s)[p], id));
        }
        if stands_in(book.bids, id) {
            let p = choose|p: i64| book.bids.contains_key(p) && #[trigger] queued(book.bids[p], id);
            assert(book.rests_at(id, Side::Bid, p));
        }
        if stands_in(book.asks, id) {
            let p = choose|p: i64| book.asks.contains_key(p) && #[trigger] queued(book.asks[p], id);
            assert(book.rests_at(id, Side::Ask, p));
        }
    }
    assert(book.live_ids() =~= bids.union(asks));
    assert(bids.disjoint(asks)) by {
        assert forall|id: u64| !(#[trigger] bids.contains(id) && asks.contains(id)) by {
            assert(!(stands_in(book.bids, id) && stands_in(book.asks, id)));
        }
    }
    vstd::set_lib::lemma_set_disjoint_lens(bids, asks);
}

/// No order of a sound book stands on both sides, or at two prices of one.
pub proof fn lemma_sides_apart(book: BookView)
    requires
        book.wf(),
    ensures
        single(book.bids),
        single(book.asks),
        forall|id: u64| !(stands_in(book.bids, id) && stands_in(book.asks, id)),
{
    assert forall|a: i64, b: i64, id: u64|
        book.bids.contains_key(a) && book.bids.contains_key(b) && #[trigger] queued(
            book.bids[a],
            id,
        ) && #[trigger] queued(book.bids[b], id) implies a == b by {
        assert(book.rests_at(id, Side::Bid, a) && book.rests_at(id, Side::Bid, b));
    }
    assert forall|a: i64, b: i64, id: u64|
        book.asks.contains_key(a) && book.asks.contains_key(b) && #[trigger] queued(
            book.asks[a],
            id,
        ) && #[trigger] queued(book.asks[b], id) implies a == b by {
        assert(book.rests_at(id, Side::Ask, a) && book.rests_at(id, Side::Ask, b));
    }
    assert forall|id: u64| !(stands_in(book.bids, id) && stands_in(book.asks, id)) by {
        if stands_in(book.bids, id) && stands_in(book.asks, id) {
            let a = choose|a: i64| book.bids.contains_key(a) && #[trigger] queued(book.bids[a], id);
            let b = choose|b: i64| book.asks.contains_key(b) && #[trigger] queued(book.asks[b], id);
            assert(book.rests_at(id, Side::Bid, a) && book.rests_at(id, Side::Ask, b));
        }
    }
}

/// Matching takes away from the number of resting orders the makers that it
/// leaves nothing of.
proof fn lemma_swept_count(book: BookView, side: Side, id: u64, limit: Option<i64>, qty: nat)
    requires
        book.wf(),
    ensures
        ({
            let maker = side.spec_opposite();
            let outcome = sweep(book.side(maker), side, id, limit, qty);
            let swept = book.with_side(maker, outcome.levels);
            &&& swept.live_ids().finite()
            &&& swept.live_ids().len() + makers_gone(outcome.fills, outcome.levels)
                == book.live_ids().len()
        }),
{
    let maker = side.spec_opposite();
    let outcome = sweep(book.side(maker), side, id, limit, qty);
    let swept = book.with_side(maker, outcome.levels);
    lemma_sides_apart(book);
    lemma_sweep_shape(book.side(maker), side, id, limit, qty);
    lemma_sweep_adds_no_order(book.side(maker), side, id, limit, qty);
    lemma_sweep_count(book.side(maker), side, id, limit, qty);
    assert forall|x: u64| stands_in(outcome.levels, x) implies stands_in(book.side(maker), x) by {
        let p = choose|p: i64|
            outcome.levels.contains_key(p) && #[trigger] queued(outcome.levels[p], x);
        assert(queued(book.side(maker)[p], x));
    }
    lemma_live_ids_of_sides(book, side);
    lemma_live_ids_of_sides(swept, side);
}

/// A limit order takes away from the number of resting orders the makers that
/// it leaves nothing of, and adds itself if some of it rests.
pub proof fn law_a_limit_order_moves_the_count(book: BookView, order: LimitOrder)
    requires
        book.wf(),
        !book.rests(order.id),
    ensures
        ({
            let outcome = limit_sweep(book, order);
            let after = after_limit(book, order);
            let gone = makers_gone(outcome.fills, after.side(order.side.spec_opposite()));
            &&& after.live_ids().finite()
            &&& after.live_ids().len() == book.live_ids().len() - gone + if outcome.remaining > 0 {
                1int
            } else {
                0
            }
        }),
{
    let side = order.side;
    let maker = side.spec_opposite();
    let outcome = limit_sweep(book, order);
    let swept = book.with_side(maker, outcome.levels);
    let after = after_limit(book, order);
    lemma_swept_count(book, side, order.id, Some(order.price), order.qty as nat);
    lemma_sweep_adds_no_order(
        book.side(maker),
        side,
        order.id,
        Some(order.price),
        order.qty as nat,
    );
    if outcome.remaining > 0 {
        law_only_a_remainder_rests(book, order);
        let rest = RestingOrder {
            id: order.id,
            qty: outcome.remaining as u64,
            timestamp: order.timestamp,
        };
        let levels = book.side(side);
        let placed = with_resting(levels, order.price, rest);
        assert forall|id: u64| #[trigger] after.live_ids().contains(id)
            <==> swept.live_ids().insert(order.id).contains(id) by {
            if after.rests(id) && id != order.id {
                let (s, p) = choose|s: Side, p: i64| #[trigger] after.rests_at(id, s, p);
                if s == side && p == order.price {
                    let i = choose|i: int|
                        0 <= i < placed[p].len() && (#[trigger] placed[p][i]).id == id;
                    assert(levels.contains_key(p) && i < levels[p].len());
                    assert(levels[p][i].id == id);
                    assert(queued(levels[p], id));
                }
                assert(swept.rests_at(id, s, p));
            }
            if swept.rests(id) {
                let (s, p) = choose|s: Side, p: i64| #[trigger] swept.rests_at(id, s, p);
                if s == side && p == order.price {
                    let i = choose|i: int|
                        0 <= i < levels[p].len() && (#[trigger] levels[p][i]).id == id;
                    assert(placed[p][i].id == id);
                    assert(queued(placed[p], id));
                }
                assert(after.rests_at(id, s, p));
            }
        }
        assert(after.live_ids() =~= swept.live_ids().insert(order.id));
        if swept.rests(order.id) {
            let (s, p) = choose|s: Side, p: i64| #[trigger] swept.rests_at(order.id, s, p);
            if s == maker {
                assert(queued(outcome.levels[p], order.id));
            }
            assert(book.rests_at(order.id, s, p));
        }
        assert(!swept.live_ids().contains(order.id));
    } else {
        assert(after =~= swept);
    }
}

/// A market order takes away from the number of resting orders the makers that
/// it leaves nothing of.
pub proof fn law_a_market_order_moves_the_count(book: BookView, order: MarketOrder)
    requires
        book.wf(),
    ensures
        ({
            let outcome = market_sweep(book, order);
            let after = after_market(book, order);
            let gone = makers_gone(outcome.fills, after.side(order.side.spec_opposite()));
            &&& after.live_ids().finite()
            &&& after.live_ids().len() == book.live_ids().len() - gone
        }),
{
    lemma_swept_count(book, order.side, order.id, None, order.qty as nat);
}

/// A cancel that finds its order takes one away from the number of resting
/// orders, and one that does not takes none.
pub proof fn law_a_cancel_moves_the_count(book: BookView, id: u64)
    requires
        book.wf(),
    ensures
        after_cancel(book, id).live_ids().len() == book.live_ids().len() - if book.rests(id) {
            1int
        } else {
            0
        },
{
    let after = after_cancel(book, id);
    law_a_cancel_takes_one_order(book, id);
    lemma_sides_apart(book);
    lemma_live_ids_of_sides(book, Side::Bid);
    assert forall|other: u64| #[trigger] after.live_ids().contains(other)
        <==> book.live_ids().remove(id).contains(other) by {
        if after.rests(other) {
            let (s, p) = choose|s: Side, p: i64| #[trigger] after.rests_at(other, s, p);
            assert(book.rests_at(other, s, p));
        }
        if other != id && book.rests(other) {
            let (s, p) = choose|s: Side, p: i64| #[trigger] book.rests_at(other, s, p);
            assert(after.rests_at(other, s, p));
        }
    }
    assert(after.live_ids() =~= book.live_ids().remove(id));
    assert(book.live_ids().contains(id) == book.rests(id));
}

/// No order rests exactly if there is no best price on either side.
pub proof fn law_no_orders_no_best_prices(book: BookView)
    requires
        book.wf(),
    ensures
        book.live_ids().len() == 0 <==> best_price(book.bids, Side::Bid) is None && best_price(
            book.asks,
            Side::Ask,
        ) is None,
{
    lemma_sides_apart(book);
    lemma_live_ids_of_sides(book, Side::Bid);
    if book.live_ids().len() == 0 {
        assert forall|s: Side, p: i64| !#[trigger] book.side(s).contains_key(p) by {
            if book.side(s).contains_key(p) {
                let queue = book.side(s)[p];
                assert(queued(queue, queue[0].id));
                assert(book.rests_at(queue[0].id, s, p));
                assert(book.live_ids().contains(queue[0].id));
            }
        }
        assert forall|p: i64| !book.bids.contains_key(p) by {
            assert(!book.side(Side::Bid).contains_key(p));
        }
        assert forall|p: i64| !book.asks.contains_key(p) by {
            assert(!book.side(Side::Ask).contains_key(p));
        }
        lemma_best_of_empty(book.bids, Side::Bid);
        lemma_best_of_empty(book.asks, Side::Ask);
    } else {
        let id = book.live_ids().choose();
        assert(book.live_ids().contains(id));
        let (s, p) = choose|s: Side, p: i64| #[trigger] book.rests_at(id, s, p);
        lemma_best_exists(book.side(s), s);
    }
}

} // verus!
