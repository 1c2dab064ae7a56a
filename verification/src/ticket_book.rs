//! An order book whose orders have tickets: ids that no two orders share.

use crate::book_laws::{law_an_unknown_cancel_changes_nothing, lemma_levels_without_absent};
use crate::book_lemmas::{
    lemma_best_exists, lemma_best_of_empty, lemma_best_unique, lemma_sweep_shape,
    lemma_without_absent,
};
use crate::book_model::{
    after_cancel, after_limit, after_market, ahead, best_level, best_price, depth_notional,
    depth_qty, is_best, levels_wf, levels_without, limit_status, limit_sweep, market_status,
    market_sweep, queued, sweep, volume, volume_at, with_resting, BookView, Levels,
};
use crate::fills::{Fill, OrderStatus};
use crate::ladder::{
    best_of, cancel, depth_of, ladder_agrees, ladder_complete, lemma_ladder_untouched,
    lemma_ladder_view, live_levels, match_against, place, Homes, Lookup, PriceLevel,
};
use crate::order::{LimitOrder, MarketOrder, RestingOrder, Side};
use std::collections::{BTreeMap, HashMap};
use vstd::prelude::*;

verus! {

broadcast use {
    vstd::std_specs::hash::group_hash_axioms,
    vstd::std_specs::btree::group_btree_axioms,
};

/// An order book whose orders have tickets: ids that no two orders share, not
/// even over time.
///
/// Cancellation is lazy: a cancelled order stays queued at its price level and
/// is skipped when matching reaches it. The lookup is the authority on what is
/// live, so a queue entry that it does not hold is a tombstone.
pub struct TicketBook {
    bids: BTreeMap<i64, PriceLevel>,
    asks: BTreeMap<i64, PriceLevel>,
    /// Order id to (side, price, remaining quantity). Holds exactly the live
    /// resting orders.
    orders: HashMap<u64, (Side, i64, u64)>,
    /// Cached best bid as (price, live volume), kept in step with `bids` so
    /// that reading the best prices costs no tree walk.
    best_bid_cache: Option<(i64, u64)>,
    /// Cached best ask as (price, live volume).
    best_ask_cache: Option<(i64, u64)>,
    /// Where each queue entry is, tombstones included.
    homes: Ghost<Homes>,
}

impl View for TicketBook {
    type V = BookView;

    closed spec fn view(&self) -> BookView {
        BookView {
            bids: live_levels(self.bids@, self.orders@),
            asks: live_levels(self.asks@, self.orders@),
        }
    }
}

/// The trees, the lookup and the queue entries agree.
spec fn stores_agree(
    bids: Map<i64, PriceLevel>,
    asks: Map<i64, PriceLevel>,
    lookup: Lookup,
    homes: Homes,
) -> bool {
    &&& bids.dom().finite()
    &&& asks.dom().finite()
    &&& ladder_agrees(bids, Side::Bid, lookup, homes)
    &&& ladder_agrees(asks, Side::Ask, lookup, homes)
    &&& ladder_complete(bids, Side::Bid, lookup, homes)
    &&& ladder_complete(asks, Side::Ask, lookup, homes)
}

impl TicketBook {
    /// The ids for which the book still stores something, cancelled orders
    /// that wait to be skipped included.
    pub closed spec fn held_ids(&self) -> Set<u64> {
        self.homes@.dom()
    }

    /// The ids of these that are stored with the level at a price.
    pub closed spec fn held_at(&self, side: Side, price: i64) -> Set<u64> {
        Set::new(|id: u64| self.homes@.contains_key(id) && self.homes@[id] == (side, price))
    }

    /// The stored form of the book is in order.
    pub closed spec fn stored_wf(&self) -> bool {
        &&& stores_agree(self.bids@, self.asks@, self.orders@, self.homes@)
        &&& self.best_bid_cache == best_level(self@.bids, Side::Bid)
        &&& self.best_ask_cache == best_level(self@.asks, Side::Ask)
    }

    /// The book is valid: sound levels, each order in one place, no bid at or
    /// above an ask.
    pub open spec fn wf(&self) -> bool {
        &&& self.stored_wf()
        &&& self@.wf()
        &&& self@.live_ids().subset_of(self.held_ids())
    }

    /// Create an empty order book.
    #[must_use]
    pub fn new() -> (book: Self)
        ensures
            book.wf(),
            book@ == BookView::empty(),
            book.held_ids() == Set::<u64>::empty(),
    {
        let book = TicketBook {
            bids: BTreeMap::new(),
            asks: BTreeMap::new(),
            orders: HashMap::new(),
            best_bid_cache: None,
            best_ask_cache: None,
            homes: Ghost(Map::empty()),
        };
        proof {
            lemma_best_of_empty(book@.bids, Side::Bid);
            lemma_best_of_empty(book@.asks, Side::Ask);
            lemma_stored_view(book.bids@, book.asks@, book.orders@, book.homes@);
            assert(book@ =~= BookView::empty());
            assert(book.held_ids() =~= Set::<u64>::empty());
        }
        book
    }

    /// Best bid as (price, live volume at that price), or `None` if the bid
    /// side is empty. Reads the cache: no tree walk.
    #[must_use]
    pub fn best_bid_level(&self) -> (level: Option<(i64, u64)>)
        requires
            self.wf(),
        ensures
            level == best_level(self@.bids, Side::Bid),
    {
        self.best_bid_cache
    }

    /// Best ask as (price, live volume at that price), or `None` if the ask
    /// side is empty. Reads the cache: no tree walk.
    #[must_use]
    pub fn best_ask_level(&self) -> (level: Option<(i64, u64)>)
        requires
            self.wf(),
        ensures
            level == best_level(self@.asks, Side::Ask),
    {
        self.best_ask_cache
    }

    /// Total resting volume at a given price level and side.
    #[must_use]
    pub fn volume_at(&self, price: i64, side: Side) -> (qty: u64)
        requires
            self.wf(),
        ensures
            qty == volume_at(self@.side(side), price),
    {
        let found = match side {
            Side::Bid => self.bids.get(&price),
            Side::Ask => self.asks.get(&price),
        };
        match found {
            Some(level) => level.total_qty,
            None => 0,
        }
    }

    /// Total number of resting orders on the book.
    #[must_use]
    pub fn order_count(&self) -> (count: usize)
        requires
            self.wf(),
        ensures
            self@.live_ids().finite(),
            count == self@.live_ids().len(),
    {
        proof {
            lemma_stored_view(self.bids@, self.asks@, self.orders@, self.homes@);
            assert(self@.live_ids() =~= self.orders@.dom());
        }
        self.orders.len()
    }

    /// Whether an order rests.
    #[must_use]
    pub fn is_live(&self, ticket: u64) -> (live: bool)
        requires
            self.wf(),
        ensures
            live == self@.rests(ticket),
    {
        proof {
            lemma_stored_view(self.bids@, self.asks@, self.orders@, self.homes@);
        }
        self.orders.contains_key(&ticket)
    }

    /// Quantity and notional (price times quantity) that an incoming order of
    /// `side` could trade at prices within `limit`; without a limit, against
    /// the whole opposing side. `None` if the notional does not fit.
    #[must_use]
    pub fn try_executable_depth(&self, side: Side, limit: Option<i64>) -> (depth: Option<
        (u128, u128),
    >)
        requires
            self.wf(),
        ensures
            match depth {
                Some((qty, notional)) => {
                    &&& qty == depth_qty(self@.side(side.spec_opposite()), side, limit)
                    &&& notional == depth_notional(self@.side(side.spec_opposite()), side, limit)
                },
                None => depth_notional(self@.side(side.spec_opposite()), side, limit) > u128::MAX,
            },
    {
        let levels = match side {
            Side::Bid => &self.asks,
            Side::Ask => &self.bids,
        };
        depth_of(levels, side, limit, Ghost(self.orders@), Ghost(self.homes@))
    }

    /// Recompute one side's cache from its tree.
    fn refresh_best(&mut self, side: Side)
        requires
            stores_agree(old(self).bids@, old(self).asks@, old(self).orders@, old(self).homes@),
        ensures
            final(self).bids == old(self).bids,
            final(self).asks == old(self).asks,
            final(self).orders == old(self).orders,
            final(self).homes == old(self).homes,
            side is Bid ==> {
                &&& final(self).best_bid_cache == best_level(old(self)@.bids, Side::Bid)
                &&& final(self).best_ask_cache == old(self).best_ask_cache
            },
            side is Ask ==> {
                &&& final(self).best_ask_cache == best_level(old(self)@.asks, Side::Ask)
                &&& final(self).best_bid_cache == old(self).best_bid_cache
            },
    {
        match side {
            Side::Bid => {
                let best = best_of(&self.bids, side);
                proof {
                    lemma_best_shown(self.bids@, side, self.orders@, self.homes@, best);
                }
                self.best_bid_cache = best;
            },
            Side::Ask => {
                let best = best_of(&self.asks, side);
                proof {
                    lemma_best_shown(self.asks@, side, self.orders@, self.homes@, best);
                }
                self.best_ask_cache = best;
            },
        }
    }

    /// True when `price` is at least as good as the side's cached best.
    fn reaches_best(&self, side: Side, price: i64) -> (reaches: bool)
        ensures
            reaches == match side {
                Side::Bid => match self.best_bid_cache {
                    Some((best, _)) => price >= best,
                    None => true,
                },
                Side::Ask => match self.best_ask_cache {
                    Some((best, _)) => price <= best,
                    None => true,
                },
            },
    {
        match side {
            Side::Bid => match self.best_bid_cache {
                Some((best, _)) => price >= best,
                None => true,
            },
            Side::Ask => match self.best_ask_cache {
                Some((best, _)) => price <= best,
                None => true,
            },
        }
    }
}

impl TicketBook {
    /// Match an incoming order of `side` against the opposing side at prices
    /// within `limit`.
    #[verifier::rlimit(60)]
    fn match_taker(
        &mut self,
        side: Side,
        taker_id: u64,
        limit: Option<i64>,
        remaining: &mut u64,
        fills: &mut Vec<Fill>,
    )
        requires
            old(self).wf(),
        ensures
            final(self).wf(),
            final(self).held_ids().subset_of(old(self).held_ids()),
            ({
                let opposing = side.spec_opposite();
                let outcome = sweep(
                    old(self)@.side(opposing),
                    side,
                    taker_id,
                    limit,
                    *old(remaining) as nat,
                );
                &&& final(self)@ == old(self)@.with_side(opposing, outcome.levels)
                &&& final(fills)@ == old(fills)@ + outcome.fills
                &&& *final(remaining) == outcome.remaining
            }),
    {
        let ghost before = *self;
        let ghost remaining0 = *remaining as nat;
        match side {
            Side::Bid => {
                self.homes =
                match_against(
                    &mut self.asks,
                    &mut self.orders,
                    side,
                    taker_id,
                    limit,
                    remaining,
                    fills,
                    self.homes,
                );
                proof {
                    lemma_ladder_untouched(
                        self.bids@,
                        side,
                        before.orders@,
                        self.orders@,
                        before.homes@,
                        self.homes@,
                    );
                }
            },
            Side::Ask => {
                self.homes =
                match_against(
                    &mut self.bids,
                    &mut self.orders,
                    side,
                    taker_id,
                    limit,
                    remaining,
                    fills,
                    self.homes,
                );
                proof {
                    lemma_ladder_untouched(
                        self.asks@,
                        side,
                        before.orders@,
                        self.orders@,
                        before.homes@,
                        self.homes@,
                    );
                }
            },
        }
        self.refresh_best(side.opposite());
        proof {
            lemma_stored_view(self.bids@, self.asks@, self.orders@, self.homes@);
            lemma_sweep_shape(
                before@.side(side.spec_opposite()),
                side,
                taker_id,
                limit,
                remaining0,
            );
        }
    }

    /// Insert a resting order into the appropriate side and register it in
    /// the lookup.
    #[verifier::rlimit(60)]
    fn place_resting(&mut self, side: Side, price: i64, order: RestingOrder)
        requires
            old(self).wf(),
            !old(self).held_ids().contains(order.id),
            order.qty > 0,
            price >= 0,
            volume_at(old(self)@.side(side), price) + order.qty <= u64::MAX,
            old(self)@.with_side(
                side,
                with_resting(old(self)@.side(side), price, order),
            ).uncrossed(),
        ensures
            final(self).wf(),
            final(self).held_ids() == old(self).held_ids().insert(order.id),
            final(self)@ == old(self)@.with_side(
                side,
                with_resting(old(self)@.side(side), price, order),
            ),
    {
        let ghost before = *self;
        proof {
            lemma_stored_view(self.bids@, self.asks@, self.orders@, self.homes@);
        }
        let reaches = self.reaches_best(side, price);
        match side {
            Side::Bid => {
                let total = place(
                    &mut self.bids,
                    &mut self.orders,
                    side,
                    price,
                    order,
                    self.homes,
                );
                proof {
                    self.homes@ = self.homes@.insert(order.id, (side, price));
                    lemma_ladder_untouched(
                        self.asks@,
                        Side::Ask,
                        before.orders@,
                        self.orders@,
                        before.homes@,
                        self.homes@,
                    );
                    lemma_best_after_placing(before@.bids, side, price, order);
                }
                if reaches {
                    self.best_bid_cache = Some((price, total));
                }
            },
            Side::Ask => {
                let total = place(
                    &mut self.asks,
                    &mut self.orders,
                    side,
                    price,
                    order,
                    self.homes,
                );
                proof {
                    self.homes@ = self.homes@.insert(order.id, (side, price));
                    lemma_ladder_untouched(
                        self.bids@,
                        Side::Bid,
                        before.orders@,
                        self.orders@,
                        before.homes@,
                        self.homes@,
                    );
                    lemma_best_after_placing(before@.asks, side, price, order);
                }
                if reaches {
                    self.best_ask_cache = Some((price, total));
                }
            },
        }
        proof {
            lemma_stored_view(self.bids@, self.asks@, self.orders@, self.homes@);
            assert(self.held_ids() =~= before.held_ids().insert(order.id));
        }
    }

    /// Submit a limit order: it trades while it crosses, and what is left of
    /// it rests. Its fills are appended to `fills`.
    pub fn add_limit_order_into(&mut self, order: LimitOrder, fills: &mut Vec<Fill>) -> (status:
        OrderStatus)
        requires
            old(self).wf(),
            order.qty > 0,
            order.price >= 0,
            !old(self).held_ids().contains(order.id),
            volume_at(old(self)@.side(order.side), order.price) + order.qty <= u64::MAX,
        ensures
            final(self).wf(),
            final(self)@ == after_limit(old(self)@, order),
            final(self).held_ids().subset_of(old(self).held_ids().insert(order.id)),
            final(fills)@ == old(fills)@ + limit_sweep(old(self)@, order).fills,
            status == limit_status(
                order.qty as nat,
                limit_sweep(old(self)@, order).remaining,
            ),
    {
        let ghost before = *self;
        let mut remaining: u64 = order.qty;
        proof {
            lemma_sweep_shape(
                before@.side(order.side.spec_opposite()),
                order.side,
                order.id,
                Some(order.price),
                order.qty as nat,
            );
        }
        self.match_taker(order.side, order.id, Some(order.price), &mut remaining, fills);
        if remaining == 0 {
            return OrderStatus::Filled;
        }
        let resting = RestingOrder { id: order.id, qty: remaining, timestamp: order.timestamp };
        self.place_resting(order.side, order.price, resting);
        if remaining == order.qty {
            OrderStatus::Placed
        } else {
            OrderStatus::Resting { remaining_qty: remaining }
        }
    }

    /// Submit a market order: it trades against whatever rests on the
    /// opposing side. Its fills are appended to `fills`.
    pub fn add_market_order_into(&mut self, order: MarketOrder, fills: &mut Vec<Fill>) -> (status:
        OrderStatus)
        requires
            old(self).wf(),
            order.qty > 0,
        ensures
            final(self).wf(),
            final(self)@ == after_market(old(self)@, order),
            final(self).held_ids().subset_of(old(self).held_ids()),
            final(fills)@ == old(fills)@ + market_sweep(old(self)@, order).fills,
            status == market_status(
                order.qty as nat,
                market_sweep(old(self)@, order).remaining,
            ),
    {
        let mut remaining: u64 = order.qty;
        proof {
            lemma_sweep_shape(
                self@.side(order.side.spec_opposite()),
                order.side,
                order.id,
                None,
                order.qty as nat,
            );
        }
        self.match_taker(order.side, order.id, None, &mut remaining, fills);
        if remaining == 0 {
            OrderStatus::Filled
        } else {
            OrderStatus::Cancelled { filled_qty: order.qty - remaining }
        }
    }

    /// Drop a live order from the lookup and its quantity from its level.
    #[verifier::rlimit(60)]
    fn remove_live(&mut self, order_id: u64, side: Side, price: i64, remaining_qty: u64)
        requires
            old(self).wf(),
            old(self).orders@.contains_key(order_id),
            old(self).orders@[order_id] == (side, price, remaining_qty),
        ensures
            stores_agree(
                final(self).bids@,
                final(self).asks@,
                final(self).orders@,
                final(self).homes@,
            ),
            final(self)@.bids == levels_without(old(self)@.bids, order_id),
            final(self)@.asks == levels_without(old(self)@.asks, order_id),
            final(self).held_ids().subset_of(old(self).held_ids()),
            final(self).best_bid_cache == old(self).best_bid_cache,
            final(self).best_ask_cache == old(self).best_ask_cache,
    {
        let ghost before = *self;
        proof {
            lemma_stored_view(self.bids@, self.asks@, self.orders@, self.homes@);
            assert(self@.rests_at(order_id, side, price));
        }
        match side {
            Side::Bid => {
                self.homes =
                cancel(
                    &mut self.bids,
                    &mut self.orders,
                    order_id,
                    side,
                    price,
                    remaining_qty,
                    self.homes,
                );
                proof {
                    lemma_ladder_untouched(
                        self.asks@,
                        Side::Ask,
                        before.orders@,
                        self.orders@,
                        before.homes@,
                        self.homes@,
                    );
                    assert forall|p: i64| #[trigger] before@.asks.contains_key(p) implies !queued(
                        before@.asks[p],
                        order_id,
                    ) by {
                        assert(!before@.rests_at(order_id, Side::Ask, p));
                    }
                    lemma_levels_without_absent(before@.asks, order_id);
                }
            },
            Side::Ask => {
                self.homes =
                cancel(
                    &mut self.asks,
                    &mut self.orders,
                    order_id,
                    side,
                    price,
                    remaining_qty,
                    self.homes,
                );
                proof {
                    lemma_ladder_untouched(
                        self.bids@,
                        Side::Bid,
                        before.orders@,
                        self.orders@,
                        before.homes@,
                        self.homes@,
                    );
                    assert forall|p: i64| #[trigger] before@.bids.contains_key(p) implies !queued(
                        before@.bids[p],
                        order_id,
                    ) by {
                        assert(!before@.rests_at(order_id, Side::Bid, p));
                    }
                    lemma_levels_without_absent(before@.bids, order_id);
                }
            },
        }
    }

    /// Cancel a resting order by id. Returns `true` if the order was found
    /// and removed.
    #[verifier::rlimit(60)]
    pub fn cancel_order(&mut self, order_id: u64) -> (found: bool)
        requires
            old(self).wf(),
        ensures
            final(self).wf(),
            found == old(self)@.rests(order_id),
            final(self)@ == after_cancel(old(self)@, order_id),
            final(self).held_ids().subset_of(old(self).held_ids()),
    {
        let ghost before = *self;
        proof {
            lemma_stored_view(self.bids@, self.asks@, self.orders@, self.homes@);
        }
        let (side, price, remaining_qty) = match self.orders.get(&order_id) {
            Some(found) => *found,
            None => {
                proof {
                    law_an_unknown_cancel_changes_nothing(self@, order_id);
                }
                return false;
            },
        };
        let reaches = self.reaches_best(side, price);
        proof {
            lemma_cancel_leaves_other_side(self@, order_id, side, price);
            if !reaches {
                let best = best_price(self@.side(side), side)->0;
                assert(!self@.rests_at(order_id, side, best));
                lemma_best_after_cancelling(self@.side(side), side, order_id);
            }
        }
        self.remove_live(order_id, side, price, remaining_qty);
        assert(self@ == after_cancel(before@, order_id));
        if reaches {
            self.refresh_best(side);
        }
        assert(self.stored_wf());
        proof {
            lemma_stored_view(self.bids@, self.asks@, self.orders@, self.homes@);
            assert(self@.uncrossed());
            assert(self@.live_ids().subset_of(self.held_ids()));
        }
        true
    }
}

/// What the book stores, it stores with a level that still has orders. A book
/// without orders stores nothing.
pub proof fn lemma_levels_hold_orders(book: TicketBook)
    requires
        book.wf(),
    ensures
        forall|id: u64| #[trigger]
            book.held_ids().contains(id) ==> exists|side: Side, price: i64|
                book@.side(side).contains_key(price) && #[trigger] book.held_at(
                    side,
                    price,
                ).contains(id),
        forall|side: Side, price: i64|
            !book@.side(side).contains_key(price) ==> #[trigger] book.held_at(side, price)
                == Set::<u64>::empty(),
        book@ == BookView::empty() ==> book.held_ids() == Set::<u64>::empty(),
{
    assert forall|id: u64| #[trigger] book.held_ids().contains(id) implies exists|
        side: Side,
        price: i64,
    | book@.side(side).contains_key(price) && #[trigger] book.held_at(side, price).contains(id) by {
        let (side, price) = book.homes@[id];
        assert(book@.side(side).contains_key(price));
        assert(book.held_at(side, price).contains(id));
    }
    assert forall|side: Side, price: i64|
        !book@.side(side).contains_key(price) implies #[trigger] book.held_at(side, price)
        == Set::<u64>::empty() by {
        assert forall|id: u64| !#[trigger] book.held_at(side, price).contains(id) by {
            if book.held_at(side, price).contains(id) {
                assert(book.homes@.contains_key(id));
            }
        }
        assert(book.held_at(side, price) =~= Set::<u64>::empty());
    }
    if book@ == BookView::empty() {
        assert forall|id: u64| !#[trigger] book.held_ids().contains(id) by {
            if book.held_ids().contains(id) {
                let (side, price) = choose|side: Side, price: i64|
                    book@.side(side).contains_key(price) && #[trigger] book.held_at(
                        side,
                        price,
                    ).contains(id);
            }
        }
        assert(book.held_ids() =~= Set::<u64>::empty());
    }
}

/// The best stored level is the best level shown.
proof fn lemma_best_shown(
    levels: Map<i64, PriceLevel>,
    side: Side,
    lookup: Lookup,
    homes: Homes,
    best: Option<(i64, u64)>,
)
    requires
        ladder_agrees(levels, side, lookup, homes),
        match best {
            Some((price, qty)) => {
                &&& levels.contains_key(price)
                &&& levels[price].total_qty == qty
                &&& forall|other: i64| #[trigger]
                    levels.contains_key(other) ==> other == price || ahead(side, price, other)
            },
            None => levels == Map::<i64, PriceLevel>::empty(),
        },
    ensures
        best == best_level(live_levels(levels, lookup), side),
{
    let view = live_levels(levels, lookup);
    match best {
        Some((price, qty)) => {
            assert(is_best(view, side, price)) by {
                assert forall|other: i64| #[trigger] view.contains_key(other) implies other == price
                    || ahead(side, price, other) by {
                    assert(levels.contains_key(other));
                }
            }
            lemma_best_unique(view, side, price);
        },
        None => {
            lemma_best_of_empty(view, side);
        },
    }
}

/// What the stored book shows is a sound book, but for crossing.
proof fn lemma_stored_view(
    bids: Map<i64, PriceLevel>,
    asks: Map<i64, PriceLevel>,
    lookup: Lookup,
    homes: Homes,
)
    requires
        stores_agree(bids, asks, lookup, homes),
    ensures
        ({
            let view = BookView {
                bids: live_levels(bids, lookup),
                asks: live_levels(asks, lookup),
            };
            &&& levels_wf(view.bids)
            &&& levels_wf(view.asks)
            &&& forall|id: u64, s1: Side, p1: i64, s2: Side, p2: i64| #[trigger]
                view.rests_at(id, s1, p1) && #[trigger] view.rests_at(id, s2, p2) ==> s1 == s2 && p1
                    == p2
            &&& forall|id: u64| view.rests(id) <==> lookup.contains_key(id)
            &&& forall|id: u64| #[trigger]
                lookup.contains_key(id) ==> homes.contains_key(id) && view.rests_at(
                    id,
                    lookup[id].0,
                    lookup[id].1,
                )
        }),
{
    let view = BookView { bids: live_levels(bids, lookup), asks: live_levels(asks, lookup) };
    lemma_ladder_view(bids, Side::Bid, lookup, homes);
    lemma_ladder_view(asks, Side::Ask, lookup, homes);
    assert forall|id: u64, side: Side, price: i64|
        #[trigger] view.rests_at(id, side, price) implies {
        &&& lookup.contains_key(id)
        &&& lookup[id].0 == side
        &&& lookup[id].1 == price
    } by {
        match side {
            Side::Bid => assert(queued(view.bids[price], id)),
            Side::Ask => assert(queued(view.asks[price], id)),
        }
    }
    assert forall|id: u64|
        lookup.contains_key(id) implies view.rests(id) && homes.contains_key(id) by {
        assert(view.rests_at(id, lookup[id].0, lookup[id].1));
    }
}

/// Placing an order moves the best level only if it reaches the best price.
proof fn lemma_best_after_placing(levels: Levels, side: Side, price: i64, order: RestingOrder)
    requires
        levels_wf(levels),
        volume_at(levels, price) + order.qty <= u64::MAX,
    ensures
        ({
            let after = with_resting(levels, price, order);
            match best_price(levels, side) {
                Some(best) => if ahead(side, best, price) {
                    best_level(after, side) == best_level(levels, side)
                } else {
                    best_level(after, side) == Some((price, volume(after[price]) as u64))
                },
                None => best_level(after, side) == Some((price, volume(after[price]) as u64)),
            }
        }),
{
    let after = with_resting(levels, price, order);
    if exists|p: i64| levels.contains_key(p) {
        lemma_best_exists(levels, side);
    } else {
        lemma_best_of_empty(levels, side);
    }
    let best = match best_price(levels, side) {
        Some(best) => if ahead(side, best, price) {
            best
        } else {
            price
        },
        None => price,
    };
    assert(is_best(after, side, best)) by {
        assert forall|other: i64|
            #[trigger] after.contains_key(other) implies other == best || ahead(
            side,
            best,
            other,
        ) by {
            if other != price {
                assert(levels.contains_key(other));
            }
        }
    }
    lemma_best_unique(after, side, best);
}

/// Cancelling an order away from the best price leaves the best level.
proof fn lemma_best_after_cancelling(levels: Levels, side: Side, id: u64)
    requires
        levels_wf(levels),
        best_price(levels, side) is Some,
        !queued(levels[best_price(levels, side)->0], id),
    ensures
        best_level(levels_without(levels, id), side) == best_level(levels, side),
{
    let best = best_price(levels, side)->0;
    let after = levels_without(levels, id);
    assert(is_best(levels, side, best));
    lemma_without_absent(levels[best], id);
    assert(is_best(after, side, best)) by {
        assert forall|other: i64|
            #[trigger] after.contains_key(other) implies other == best || ahead(
            side,
            best,
            other,
        ) by {
            assert(levels.contains_key(other));
        }
    }
    lemma_best_unique(after, side, best);
}

/// Cancelling an order of one side leaves the other side alone.
proof fn lemma_cancel_leaves_other_side(book: BookView, id: u64, side: Side, price: i64)
    requires
        book.wf(),
        book.rests_at(id, side, price),
    ensures
        levels_without(book.side(side.spec_opposite()), id) == book.side(side.spec_opposite()),
{
    let other = side.spec_opposite();
    assert forall|p: i64| #[trigger] book.side(other).contains_key(p) implies !queued(
        book.side(other)[p],
        id,
    ) by {
        assert(!book.rests_at(id, other, p));
    }
    lemma_levels_without_absent(book.side(other), id);
}

} // verus!
