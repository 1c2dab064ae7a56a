//! The mathematical order book: what each operation of [`crate::orderbook`]
//! does, stated on maps from price to the queue of orders resting there.

use crate::fills::{Fill, OrderStatus};
use crate::order::{LimitOrder, MarketOrder, RestingOrder, Side};
use vstd::prelude::*;

verus! {

/// One side of a book: each price with orders at it, and those orders in
/// time priority, first in line first.
pub type Levels = Map<i64, Seq<RestingOrder>>;

/// The orders that rest on a book.
#[verifier::ext_equal]
pub struct BookView {
    pub bids: Levels,
    pub asks: Levels,
}

impl BookView {
    /// A book with no orders.
    pub open spec fn empty() -> BookView {
        BookView { bids: Map::empty(), asks: Map::empty() }
    }

    pub open spec fn side(self, side: Side) -> Levels {
        match side {
            Side::Bid => self.bids,
            Side::Ask => self.asks,
        }
    }

    pub open spec fn with_side(self, side: Side, levels: Levels) -> BookView {
        match side {
            Side::Bid => BookView { bids: levels, ..self },
            Side::Ask => BookView { asks: levels, ..self },
        }
    }

    /// The order `id` rests on `side` at `price`.
    pub open spec fn rests_at(self, id: u64, side: Side, price: i64) -> bool {
        self.side(side).contains_key(price) && queued(self.side(side)[price], id)
    }

    /// The order `id` rests somewhere on the book.
    pub open spec fn rests(self, id: u64) -> bool {
        exists|side: Side, price: i64| #[trigger] self.rests_at(id, side, price)
    }

    /// Levels are sound, every order rests in one place, and no bid reaches
    /// an ask.
    pub open spec fn wf(self) -> bool {
        &&& levels_wf(self.bids)
        &&& levels_wf(self.asks)
        &&& forall|id: u64, s1: Side, p1: i64, s2: Side, p2: i64| #[trigger]
            self.rests_at(id, s1, p1) && #[trigger] self.rests_at(id, s2, p2) ==> s1 == s2 && p1
                == p2
        &&& self.uncrossed()
    }

    /// Levels are sound and no bid reaches an ask, whatever the ids of the
    /// orders.
    pub open spec fn sound(self) -> bool {
        &&& levels_sound(self.bids)
        &&& levels_sound(self.asks)
        &&& self.uncrossed()
    }

    /// Every bid is below every ask.
    pub open spec fn uncrossed(self) -> bool {
        forall|bid: i64, ask: i64| #[trigger]
            self.bids.contains_key(bid) && #[trigger] self.asks.contains_key(ask) ==> bid < ask
    }

    /// The ids of all resting orders.
    pub open spec fn live_ids(self) -> Set<u64> {
        Set::new(|id: u64| self.rests(id))
    }
}

/// Some order of the queue has this id.
pub open spec fn queued(queue: Seq<RestingOrder>, id: u64) -> bool {
    exists|i: int| 0 <= i < queue.len() && (#[trigger] queue[i]).id == id
}

/// Orders of a queue have different ids.
pub open spec fn distinct(queue: Seq<RestingOrder>) -> bool {
    forall|i: int, j: int|
        0 <= i < j < queue.len() ==> (#[trigger] queue[i]).id != (#[trigger] queue[j]).id
}

/// Total quantity of a queue.
pub open spec fn volume(queue: Seq<RestingOrder>) -> nat
    decreases queue.len(),
{
    if queue.len() == 0 {
        0
    } else {
        volume(queue.drop_last()) + queue.last().qty as nat
    }
}

/// A queue with orders, all of them with quantity, whose volume can be
/// counted.
pub open spec fn queue_sound(queue: Seq<RestingOrder>) -> bool {
    &&& queue.len() > 0
    &&& volume(queue) <= u64::MAX
    &&& forall|i: int| 0 <= i < queue.len() ==> (#[trigger] queue[i]).qty > 0
}

/// A sound queue whose orders have different ids.
pub open spec fn queue_wf(queue: Seq<RestingOrder>) -> bool {
    &&& queue_sound(queue)
    &&& distinct(queue)
}

/// A side with finitely many levels, none of them empty.
pub open spec fn levels_sound(levels: Levels) -> bool {
    &&& levels.dom().finite()
    &&& forall|price: i64| #[trigger]
        levels.contains_key(price) ==> price >= 0 && queue_sound(levels[price])
}

/// A sound side whose orders have different ids at each price.
pub open spec fn levels_wf(levels: Levels) -> bool {
    &&& levels.dom().finite()
    &&& forall|price: i64| #[trigger]
        levels.contains_key(price) ==> price >= 0 && queue_wf(levels[price])
}

/// Volume resting at a price: none where there is no level.
pub open spec fn volume_at(levels: Levels, price: i64) -> nat {
    if levels.contains_key(price) {
        volume(levels[price])
    } else {
        0
    }
}

/// A resting order of `side` at price `a` trades before one at price `b`.
pub open spec fn ahead(side: Side, a: i64, b: i64) -> bool {
    match side {
        Side::Bid => a > b,
        Side::Ask => a < b,
    }
}

/// `price` is the best price of a side: highest bid, lowest ask.
pub open spec fn is_best(levels: Levels, side: Side, price: i64) -> bool {
    &&& levels.contains_key(price)
    &&& forall|other: i64| #[trigger]
        levels.contains_key(other) ==> other == price || ahead(side, price, other)
}

/// Best price of a side, if it has orders.
pub open spec fn best_price(levels: Levels, side: Side) -> Option<i64> {
    if exists|price: i64| is_best(levels, side, price) {
        Some(choose|price: i64| is_best(levels, side, price))
    } else {
        None
    }
}

/// Best price of a side with the volume resting there.
pub open spec fn best_level(levels: Levels, side: Side) -> Option<(i64, u64)> {
    match best_price(levels, side) {
        Some(price) => Some((price, volume(levels[price]) as u64)),
        None => None,
    }
}

/// A taker of `side` bound by `limit` may trade at `price`; without a limit
/// it takes any price.
pub open spec fn within(side: Side, limit: Option<i64>, price: i64) -> bool {
    match limit {
        Some(bound) => match side {
            Side::Bid => price <= bound,
            Side::Ask => price >= bound,
        },
        None => true,
    }
}

/// Smaller of two quantities.
pub open spec fn least(a: nat, b: nat) -> nat {
    if a <= b {
        a
    } else {
        b
    }
}

/// The level at `price` replaced by `queue`, or removed when `queue` is empty.
pub open spec fn with_queue(levels: Levels, price: i64, queue: Seq<RestingOrder>) -> Levels {
    if queue.len() == 0 {
        levels.remove(price)
    } else {
        levels.insert(price, queue)
    }
}

/// A queue whose first order has lost `qty`, and is gone if that was all.
pub open spec fn front_filled(queue: Seq<RestingOrder>, qty: nat) -> Seq<RestingOrder> {
    let front = queue[0];
    if qty >= front.qty {
        queue.drop_first()
    } else {
        queue.update(0, RestingOrder { qty: (front.qty - qty) as u64, ..front })
    }
}

/// What matching leaves behind: the maker side, the fills, and the quantity
/// that found no maker.
#[verifier::ext_equal]
pub struct Sweep {
    pub levels: Levels,
    pub fills: Seq<Fill>,
    pub remaining: nat,
}

/// The next maker for a taker of `taker_side`: the best price within `limit`.
pub open spec fn next_maker(
    levels: Levels,
    taker_side: Side,
    limit: Option<i64>,
    remaining: nat,
) -> Option<i64> {
    match best_price(levels, taker_side.spec_opposite()) {
        Some(price) => if remaining > 0 && within(taker_side, limit, price)
            && levels[price].len() > 0 && levels[price][0].qty > 0 {
            Some(price)
        } else {
            None
        },
        None => None,
    }
}

/// Price-time priority. As long as quantity remains and the best maker price
/// is within the limit, the first order in line at that price fills next.
pub open spec fn sweep(
    levels: Levels,
    taker_side: Side,
    taker_id: u64,
    limit: Option<i64>,
    remaining: nat,
) -> Sweep
    decreases remaining,
{
    match next_maker(levels, taker_side, limit, remaining) {
        Some(price) => {
            let front = levels[price][0];
            let qty = least(front.qty as nat, remaining);
            let fill = Fill {
                maker_order_id: front.id,
                taker_order_id: taker_id,
                price,
                qty: qty as u64,
                taker_side,
            };
            let rest = sweep(
                with_queue(levels, price, front_filled(levels[price], qty)),
                taker_side,
                taker_id,
                limit,
                (remaining - qty) as nat,
            );
            Sweep { fills: seq![fill] + rest.fills, ..rest }
        },
        None => Sweep { levels, fills: Seq::empty(), remaining },
    }
}

/// Matching of a limit order against the opposing side.
pub open spec fn limit_sweep(book: BookView, order: LimitOrder) -> Sweep {
    sweep(
        book.side(order.side.spec_opposite()),
        order.side,
        order.id,
        Some(order.price),
        order.qty as nat,
    )
}

/// Matching of a market order against the opposing side.
pub open spec fn market_sweep(book: BookView, order: MarketOrder) -> Sweep {
    sweep(
        book.side(order.side.spec_opposite()),
        order.side,
        order.id,
        None,
        order.qty as nat,
    )
}

/// A side with `order` added at the end of the line at `price`.
pub open spec fn with_resting(levels: Levels, price: i64, order: RestingOrder) -> Levels {
    if levels.contains_key(price) {
        levels.insert(price, levels[price].push(order))
    } else {
        levels.insert(price, seq![order])
    }
}

/// The book after a limit order: the makers it took are gone, and what found
/// no maker rests.
pub open spec fn after_limit(book: BookView, order: LimitOrder) -> BookView {
    let outcome = limit_sweep(book, order);
    let matched = book.with_side(order.side.spec_opposite(), outcome.levels);
    if outcome.remaining == 0 {
        matched
    } else {
        matched.with_side(
            order.side,
            with_resting(
                book.side(order.side),
                order.price,
                RestingOrder {
                    id: order.id,
                    qty: outcome.remaining as u64,
                    timestamp: order.timestamp,
                },
            ),
        )
    }
}

/// The book after a market order: only the makers it took are gone.
pub open spec fn after_market(book: BookView, order: MarketOrder) -> BookView {
    book.with_side(order.side.spec_opposite(), market_sweep(book, order).levels)
}

/// Status of a limit order of `qty` of which `remaining` found no maker.
pub open spec fn limit_status(qty: nat, remaining: nat) -> OrderStatus {
    if remaining == 0 {
        OrderStatus::Filled
    } else if remaining == qty {
        OrderStatus::Placed
    } else {
        OrderStatus::Resting { remaining_qty: remaining as u64 }
    }
}

/// Status of a market order of `qty` of which `remaining` found no maker.
pub open spec fn market_status(qty: nat, remaining: nat) -> OrderStatus {
    if remaining == 0 {
        OrderStatus::Filled
    } else {
        OrderStatus::Cancelled { filled_qty: (qty - remaining) as u64 }
    }
}

/// A queue without the order `id`.
pub open spec fn without(queue: Seq<RestingOrder>, id: u64) -> Seq<RestingOrder> {
    queue.filter(|order: RestingOrder| order.id != id)
}

/// A side without the order `id`; a level that loses its last order is gone.
pub open spec fn levels_without(levels: Levels, id: u64) -> Levels {
    Map::new(
        |price: i64| levels.contains_key(price) && without(levels[price], id).len() > 0,
        |price: i64| without(levels[price], id),
    )
}

/// The book after the cancellation of `id`.
pub open spec fn after_cancel(book: BookView, id: u64) -> BookView {
    BookView { bids: levels_without(book.bids, id), asks: levels_without(book.asks, id) }
}

/// Sum of `value` over a set.
pub open spec fn sum_of<A>(members: Set<A>, value: spec_fn(A) -> nat) -> nat {
    members.fold(0, |sum: nat, member: A| sum + value(member))
}

/// The prices of a maker side that a taker of `side` bound by `limit` can
/// reach.
pub open spec fn reachable(levels: Levels, side: Side, limit: Option<i64>) -> Set<i64> {
    levels.dom().filter(|price: i64| within(side, limit, price))
}

/// Quantity that such a taker could trade.
pub open spec fn depth_qty(levels: Levels, side: Side, limit: Option<i64>) -> nat {
    sum_of(reachable(levels, side, limit), |price: i64| volume(levels[price]))
}

/// Price times quantity over all that such a taker could trade.
pub open spec fn depth_notional(levels: Levels, side: Side, limit: Option<i64>) -> nat {
    sum_of(
        reachable(levels, side, limit),
        |price: i64| (price * volume(levels[price])) as nat,
    )
}

} // verus!
