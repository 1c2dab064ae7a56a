//! A continuous double-auction order book with price-time (FIFO) priority.

use crate::book_laws::{
    law_a_cancel_leaves_a_sound_book, law_a_cancel_takes_one_order,
    law_a_cancel_undoes_a_placement, law_a_limit_order_leaves_a_sound_book,
    law_a_market_order_leaves_a_sound_book,
};
use crate::book_model::{
    after_cancel, after_limit, after_market, best_level, best_price, depth_notional, depth_qty,
    is_best, limit_status, limit_sweep, market_status, market_sweep, volume_at, BookView,
};
use crate::fills::{Fill, OrderResult, OrderStatus};
use crate::order::{LimitOrder, MarketOrder, Side};
use crate::ticket_book::{lemma_levels_hold_orders, TicketBook};
use crate::ticket_lemmas::{
    is_maker, lemma_limit_live, lemma_market_live, lemma_named_best, lemma_named_cancel,
    lemma_named_depth, lemma_named_limit, lemma_named_market, lemma_named_rests, lemma_named_sound,
    lemma_named_volume_at, lemma_sizes_agree,
};
use crate::ticket_model::{named_book, named_fill, named_fills, still_found};
use std::collections::HashMap;
use vstd::prelude::*;

verus! {

broadcast use vstd::std_specs::hash::group_hash_axioms;

/// A continuous double-auction order book with price-time (FIFO) priority.
///
/// Every limit order that comes in gets a ticket of its own. Callers are expected to
/// give every order an id of its own as well. Where two orders rest under one
/// id, the id finds the newer one; the older keeps its place and its volume
/// and trades as before, but can no longer be cancelled.
pub struct OrderBook {
    core: TicketBook,
    /// The ticket of the next limit order.
    next: u64,
    /// The id of each resting order, by its ticket.
    ids: HashMap<u64, u64>,
    /// The ticket of the order that an id finds.
    tickets: HashMap<u64, u64>,
}

impl View for OrderBook {
    type V = BookView;

    closed spec fn view(&self) -> BookView {
        named_book(self.core@, self.ids@)
    }
}

impl OrderBook {
    /// The book with tickets in place of ids.
    pub closed spec fn by_ticket(&self) -> BookView {
        self.core@
    }

    /// The ids of the resting orders, by ticket.
    pub closed spec fn names(&self) -> Map<u64, u64> {
        self.ids@
    }

    /// The tickets of the orders that ids find.
    pub closed spec fn lookup(&self) -> Map<u64, u64> {
        self.tickets@
    }

    /// The ticket of the next limit order: as many came in before it.
    pub closed spec fn next_ticket(&self) -> u64 {
        self.next
    }

    /// The tickets for which the book still stores something, those of
    /// cancelled orders that wait to be skipped included.
    pub closed spec fn held_tickets(&self) -> Set<u64> {
        self.core.held_ids()
    }

    /// The tickets of these that are stored with the level at a price.
    pub closed spec fn held_at(&self, side: Side, price: i64) -> Set<u64> {
        self.core.held_at(side, price)
    }

    /// The stored form of the book is in order.
    pub closed spec fn stored_wf(&self) -> bool {
        &&& self.core.wf()
        &&& forall|ticket: u64| #[trigger]
            self.core.held_ids().contains(ticket) ==> ticket < self.next
    }

    /// The book is valid: sound levels, each ticket in one place, no bid at or
    /// above an ask. What an id finds rests, under that id.
    pub open spec fn wf(&self) -> bool {
        &&& self.stored_wf()
        &&& self.by_ticket().wf()
        &&& self@ == named_book(self.by_ticket(), self.names())
        &&& self@.sound()
        &&& self.names().dom() == self.by_ticket().live_ids()
        &&& forall|id: u64| #[trigger]
            self.lookup().contains_key(id) ==> self.names().contains_key(self.lookup()[id])
                && self.names()[self.lookup()[id]] == id
    }

    /// No two orders rest under one id: every order is found by its id.
    pub open spec fn unique(&self) -> bool {
        &&& self@.wf()
        &&& forall|ticket: u64| #[trigger]
            self.names().contains_key(ticket) ==> self.lookup().contains_key(self.names()[ticket])
                && self.lookup()[self.names()[ticket]] == ticket
    }

    /// The book is `before` with a limit order taken: it has the next ticket,
    /// makers that nothing is left of are forgotten, and if some of the order
    /// rests its id finds it.
    pub open spec fn took_limit(&self, before: OrderBook, order: LimitOrder) -> bool {
        let ticket = before.next_ticket();
        let ticketed = LimitOrder { id: ticket, ..order };
        let after = after_limit(before.by_ticket(), ticketed);
        let found = still_found(before.lookup(), after);
        &&& self.next_ticket() == ticket + 1
        &&& self.by_ticket() == after
        &&& self.names() == before.names().insert(ticket, order.id).restrict(after.live_ids())
        &&& self.lookup() == if limit_sweep(before.by_ticket(), ticketed).remaining > 0 {
            found.insert(order.id, ticket)
        } else {
            found
        }
    }

    /// The book is `before` with a market order taken: makers that nothing is
    /// left of are forgotten.
    pub open spec fn took_market(&self, before: OrderBook, order: MarketOrder) -> bool {
        let after = after_market(before.by_ticket(), order);
        &&& self.next_ticket() == before.next_ticket()
        &&& self.by_ticket() == after
        &&& self.names() == before.names().restrict(after.live_ids())
        &&& self.lookup() == still_found(before.lookup(), after)
    }

    /// The book is `before` without the order that `id` finds.
    pub open spec fn dropped(&self, before: OrderBook, id: u64) -> bool {
        let ticket = before.lookup()[id];
        &&& self.next_ticket() == before.next_ticket()
        &&& self.by_ticket() == after_cancel(before.by_ticket(), ticket)
        &&& self.names() == before.names().remove(ticket)
        &&& self.lookup() == before.lookup().remove(id)
    }

    /// Create an empty order book.
    #[must_use]
    pub fn new() -> (book: Self)
        ensures
            book.wf(),
            book.unique(),
            book@ == BookView::empty(),
            book.by_ticket() == BookView::empty(),
            book.names() == Map::<u64, u64>::empty(),
            book.lookup() == Map::<u64, u64>::empty(),
            book.next_ticket() == 0,
    {
        let book = OrderBook {
            core: TicketBook::new(),
            next: 0,
            ids: HashMap::new(),
            tickets: HashMap::new(),
        };
        proof {
            assert(book@ =~= BookView::empty());
            assert(book.by_ticket().live_ids() =~= Set::<u64>::empty());
            assert(book.names().dom() =~= book.by_ticket().live_ids());
            lemma_named_sound(book.by_ticket(), book.names());
        }
        book
    }

    /// Best (highest) bid price, or `None` if the bid side is empty.
    #[must_use]
    pub fn best_bid(&self) -> (price: Option<i64>)
        requires
            self.wf(),
        ensures
            price == best_price(self@.bids, Side::Bid),
    {
        match self.best_bid_level() {
            Some((price, _)) => Some(price),
            None => None,
        }
    }

    /// Best (lowest) ask price, or `None` if the ask side is empty.
    #[must_use]
    pub fn best_ask(&self) -> (price: Option<i64>)
        requires
            self.wf(),
        ensures
            price == best_price(self@.asks, Side::Ask),
    {
        match self.best_ask_level() {
            Some((price, _)) => Some(price),
            None => None,
        }
    }

    /// Best bid as (price, live volume at that price), or `None` if the bid
    /// side is empty. Reads the cache: no tree walk.
    #[must_use]
    pub fn best_bid_level(&self) -> (level: Option<(i64, u64)>)
        requires
            self.wf(),
        ensures
            level == best_level(self@.bids, Side::Bid),
    {
        proof {
            lemma_named_best(self.core@.bids, self.ids@, Side::Bid);
        }
        self.core.best_bid_level()
    }

    /// Best ask as (price, live volume at that price), or `None` if the ask
    /// side is empty. Reads the cache: no tree walk.
    #[must_use]
    pub fn best_ask_level(&self) -> (level: Option<(i64, u64)>)
        requires
            self.wf(),
        ensures
            level == best_level(self@.asks, Side::Ask),
    {
        proof {
            lemma_named_best(self.core@.asks, self.ids@, Side::Ask);
        }
        self.core.best_ask_level()
    }

    /// Spread (best ask minus best bid), or `None` if either side is empty.
    #[must_use]
    pub fn spread(&self) -> (spread: Option<i64>)
        requires
            self.wf(),
        ensures
            spread == match (best_price(self@.asks, Side::Ask), best_price(self@.bids, Side::Bid)) {
                (Some(ask), Some(bid)) => Some((ask - bid) as i64),
                _ => None,
            },
            spread is Some ==> spread->0 > 0,
    {
        match (self.best_ask(), self.best_bid()) {
            (Some(ask), Some(bid)) => {
                proof {
                    assert(self@.asks.contains_key(ask) && self@.bids.contains_key(bid));
                }
                Some(ask - bid)
            },
            _ => None,
        }
    }

    /// Total resting volume at a given price level and side.
    #[must_use]
    pub fn volume_at(&self, price: i64, side: Side) -> (qty: u64)
        requires
            self.wf(),
        ensures
            qty == volume_at(self@.side(side), price),
    {
        proof {
            lemma_named_volume_at(self.core@.side(side), self.ids@, price);
        }
        self.core.volume_at(price, side)
    }

    /// Total number of resting orders on the book.
    #[must_use]
    pub fn order_count(&self) -> (count: usize)
        requires
            self.wf(),
        ensures
            self.by_ticket().live_ids().finite(),
            count == self.by_ticket().live_ids().len(),
            self.unique() ==> self@.live_ids().finite() && count == self@.live_ids().len(),
    {
        let count: usize = self.core.order_count();
        proof {
            if self.unique() {
                lemma_sizes_agree(self.core@, self.ids@, self.tickets@);
            }
        }
        count
    }

    /// Quantity and notional (price times quantity) that an incoming order of
    /// `side` could trade at prices within `limit`; without a limit, against
    /// the whole opposing side. `None` if the notional does not fit.
    #[must_use]
    pub fn try_executable_depth(&self, side: Side, limit: Option<i64>) -> (depth: Option<
        (u128, u128),
    >)
        requires
            self.wf(),
        ensures
            match depth {
                Some((qty, notional)) => {
                    &&& qty == depth_qty(self@.side(side.spec_opposite()), side, limit)
                    &&& notional == depth_notional(self@.side(side.spec_opposite()), side, limit)
                },
                None => depth_notional(self@.side(side.spec_opposite()), side, limit) > u128::MAX,
            },
    {
        proof {
            lemma_named_depth(self.core@.side(side.spec_opposite()), self.ids@, side, limit);
        }
        self.core.try_executable_depth(side, limit)
    }

    /// Quantity and notional (price times quantity) that an incoming order of
    /// `side` could trade at prices within `limit`; without a limit, against
    /// the whole opposing side.
    #[must_use]
    pub fn executable_depth(&self, side: Side, limit: Option<i64>) -> (depth: (u128, u128))
        requires
            self.wf(),
            depth_notional(self@.side(side.spec_opposite()), side, limit) <= u128::MAX,
        ensures
            depth.0 == depth_qty(self@.side(side.spec_opposite()), side, limit),
            depth.1 == depth_notional(self@.side(side.spec_opposite()), side, limit),
    {
        match self.try_executable_depth(side, limit) {
            Some(depth) => depth,
            None => (0, 0),
        }
    }
}

/// What an id finds rests under it, and where ids are unique every order is
/// found by its id.
proof fn lemma_found(book: OrderBook)
    requires
        book.wf(),
    ensures
        forall|id: u64| #[trigger]
            book.tickets@.contains_key(id) ==> book.ids@.contains_key(book.tickets@[id])
                && book.ids@[book.tickets@[id]] == id,
        book.ids@.dom() == book.core@.live_ids(),
        book.unique() ==> forall|ticket: u64| #[trigger]
            book.ids@.contains_key(ticket) ==> book.tickets@.contains_key(book.ids@[ticket])
                && book.tickets@[book.ids@[ticket]] == ticket,
{
    assert forall|id: u64| #[trigger] book.tickets@.contains_key(id) implies book.ids@.contains_key(
        book.tickets@[id],
    ) && book.ids@[book.tickets@[id]] == id by {
        assert(book.lookup().contains_key(id));
    }
    if book.unique() {
        assert forall|ticket: u64| #[trigger] book.ids@.contains_key(
            ticket,
        ) implies book.tickets@.contains_key(book.ids@[ticket]) && book.tickets@[book.ids@[ticket]]
            == ticket by {
            assert(book.names().contains_key(ticket));
        }
    }
}

/// Writes fills by ticket as fills by id.
fn name_fills(ids: &HashMap<u64, u64>, taker_id: u64, taken: &Vec<Fill>, fills: &mut Vec<Fill>)
    requires
        forall|i: int| 0 <= i < taken@.len() ==> ids@.contains_key(
            (#[trigger] taken@[i]).maker_order_id,
        ),
    ensures
        final(fills)@ == old(fills)@ + named_fills(taken@, ids@, taker_id),
{
    let ghost before = fills@;
    for i in 0..taken.len()
        invariant
            forall|i: int| 0 <= i < taken@.len() ==> ids@.contains_key(
                (#[trigger] taken@[i]).maker_order_id,
            ),
            fills@ == before + named_fills(taken@.take(i as int), ids@, taker_id),
    {
        let fill: Fill = taken[i];
        assert(ids@.contains_key(taken@[i as int].maker_order_id));
        let maker_order_id: u64 = match ids.get(&fill.maker_order_id) {
            Some(id) => *id,
            None => 0,
        };
        let named = Fill { maker_order_id, taker_order_id: taker_id, ..fill };
        fills.push(named);
        proof {
            assert(named == named_fill(fill, ids@, taker_id));
            assert(fills@ =~= before + named_fills(taken@.take(i + 1), ids@, taker_id));
        }
    }
    assert(taken@.take(taken@.len() as int) =~= taken@);
}

impl OrderBook {
    /// Forget the makers that nothing is left of.
    fn forget_makers(&mut self, taken: &Vec<Fill>)
        requires
            old(self).core.wf(),
            forall|ticket: u64| #[trigger]
                old(self).ids@.contains_key(ticket) && !old(self).core@.rests(ticket)
                    ==> is_maker(taken@, ticket),
            forall|id: u64| #[trigger]
                old(self).tickets@.contains_key(id) ==> old(self).ids@.contains_key(
                    old(self).tickets@[id],
                ) && old(self).ids@[old(self).tickets@[id]] == id,
        ensures
            final(self).core == old(self).core,
            final(self).next == old(self).next,
            final(self).ids@ == old(self).ids@.restrict(old(self).core@.live_ids()),
            final(self).tickets@ == still_found(old(self).tickets@, old(self).core@),
    {
        let ghost book = self.core@;
        let ghost ids = self.ids@;
        let ghost tickets = self.tickets@;
        for i in 0..taken.len()
            invariant
                self.core == old(self).core,
                self.next == old(self).next,
                self.core.wf(),
                book == self.core@,
                ids == old(self).ids@,
                tickets == old(self).tickets@,
                forall|id: u64| #[trigger]
                    tickets.contains_key(id) ==> ids.contains_key(tickets[id]) && ids[tickets[id]]
                        == id,
                forall|ticket: u64| #[trigger]
                    self.ids@.contains_key(ticket) ==> ids.contains_key(ticket)
                        && self.ids@[ticket] == ids[ticket],
                forall|ticket: u64| #[trigger]
                    ids.contains_key(ticket) && book.rests(ticket) ==> self.ids@.contains_key(
                        ticket,
                    ),
                forall|j: int|
                    0 <= j < i && !book.rests((#[trigger] taken@[j]).maker_order_id)
                        ==> !self.ids@.contains_key(taken@[j].maker_order_id),
                forall|id: u64| #[trigger]
                    self.tickets@.contains_key(id) <==> tickets.contains_key(id)
                        && self.ids@.contains_key(tickets[id]),
                forall|id: u64| #[trigger]
                    self.tickets@.contains_key(id) ==> self.tickets@[id] == tickets[id],
        {
            let ticket: u64 = taken[i].maker_order_id;
            if !self.core.is_live(ticket) {
                let known = match self.ids.get(&ticket) {
                    Some(id) => Some(*id),
                    None => None,
                };
                if let Some(id) = known {
                    self.ids.remove(&ticket);
                    let found = match self.tickets.get(&id) {
                        Some(at) => *at == ticket,
                        None => false,
                    };
                    if found {
                        self.tickets.remove(&id);
                    }
                }
            }
        }
        proof {
            assert forall|ticket: u64| self.ids@.contains_key(ticket) <==> ids.contains_key(ticket)
                && book.live_ids().contains(ticket) by {
                if self.ids@.contains_key(ticket) && !book.rests(ticket) {
                    assert(ids.contains_key(ticket));
                    assert(is_maker(taken@, ticket));
                    let i = choose|i: int|
                        0 <= i < taken@.len() && (#[trigger] taken@[i]).maker_order_id == ticket;
                    assert(!self.ids@.contains_key(taken@[i].maker_order_id));
                }
            }
            assert(self.ids@ =~= ids.restrict(book.live_ids()));
            assert(self.tickets@ =~= still_found(tickets, book));
        }
    }

    /// Submit a limit order: it trades while it crosses, and what is left of
    /// it rests. Its fills are appended to `fills`. Where an order rests under
    /// its id, the id finds the new one from now on.
    #[verifier::rlimit(60)]
    pub fn add_limit_order_into(&mut self, order: LimitOrder, fills: &mut Vec<Fill>) -> (status:
        OrderStatus)
        requires
            old(self).wf(),
            order.qty > 0,
            order.price >= 0,
            volume_at(old(self)@.side(order.side), order.price) + order.qty <= u64::MAX,
            old(self).next_ticket() < u64::MAX,
        ensures
            final(self).wf(),
            final(self)@ == after_limit(old(self)@, order),
            final(fills)@ == old(fills)@ + limit_sweep(old(self)@, order).fills,
            status == limit_status(
                order.qty as nat,
                limit_sweep(old(self)@, order).remaining,
            ),
            final(self).took_limit(*old(self), order),
            old(self).unique() && !old(self)@.rests(order.id) ==> final(self).unique(),
    {
        let ghost before = *self;
        let ticket: u64 = self.next;
        let ghost ticketed = LimitOrder { id: ticket, ..order };
        let mut taken: Vec<Fill> = Vec::new();
        proof {
            lemma_found(before);
            lemma_named_volume_at(before.core@.side(order.side), before.ids@, order.price);
            assert(!before.core@.live_ids().contains(ticket));
            lemma_limit_live(before.core@, ticketed);
            lemma_named_limit(before.core@, before.ids@, ticketed, order.id);
        }
        let status = self.core.add_limit_order_into(LimitOrder { id: ticket, ..order }, &mut taken);
        self.next = ticket + 1;
        assert(taken@ =~= limit_sweep(before.core@, ticketed).fills);
        proof {
            assert forall|i: int| 0 <= i < taken@.len() implies self.ids@.contains_key(
                (#[trigger] taken@[i]).maker_order_id,
            ) by {
                assert(before.core@.live_ids().contains(taken@[i].maker_order_id));
            }
        }
        name_fills(&self.ids, order.id, &taken, fills);
        let ghost after = self.core@;
        proof {
            assert forall|t: u64| #[trigger] before.ids@.contains_key(t) && !after.rests(
                t,
            ) implies is_maker(taken@, t) by {
                assert(before.core@.live_ids().contains(t));
            }
        }
        self.forget_makers(&taken);
        let rests = match status {
            OrderStatus::Filled => false,
            _ => true,
        };
        if rests {
            self.ids.insert(ticket, order.id);
            self.tickets.insert(order.id, ticket);
        }
        proof {
            let ids = before.ids@.insert(ticket, order.id).restrict(after.live_ids());
            assert(self.ids@ =~= ids);
            assert(self.ids@.dom() =~= after.live_ids());
            lemma_named_sound(after, self.ids@);
            assert(self.wf());
            if before.unique() && !before@.rests(order.id) {
                law_a_limit_order_leaves_a_sound_book(before@, order);
                assert forall|t: u64| #[trigger]
                    self.names().contains_key(t) implies self.lookup().contains_key(self.names()[t])
                    && self.lookup()[self.names()[t]] == t by {
                    if t != ticket {
                        assert(before.names().contains_key(t));
                        lemma_named_rests(before.core@, before.ids@, t);
                    }
                }
            }
        }
        status
    }

    /// Submit a limit order. Returns fills (if crossing) and the order's
    /// final status.
    pub fn add_limit_order(&mut self, order: LimitOrder) -> (result: OrderResult)
        requires
            old(self).wf(),
            order.qty > 0,
            order.price >= 0,
            volume_at(old(self)@.side(order.side), order.price) + order.qty <= u64::MAX,
            old(self).next_ticket() < u64::MAX,
        ensures
            final(self).wf(),
            final(self)@ == after_limit(old(self)@, order),
            result.fills@ == limit_sweep(old(self)@, order).fills,
            result.status == limit_status(
                order.qty as nat,
                limit_sweep(old(self)@, order).remaining,
            ),
            final(self).took_limit(*old(self), order),
            old(self).unique() && !old(self)@.rests(order.id) ==> final(self).unique(),
    {
        let mut fills: Vec<Fill> = Vec::new();
        let status = self.add_limit_order_into(order, &mut fills);
        OrderResult { fills, status }
    }

    /// Submit a market order: it trades against whatever rests on the
    /// opposing side. Its fills are appended to `fills`.
    #[verifier::rlimit(60)]
    pub fn add_market_order_into(&mut self, order: MarketOrder, fills: &mut Vec<Fill>) -> (status:
        OrderStatus)
        requires
            old(self).wf(),
            order.qty > 0,
        ensures
            final(self).wf(),
            final(self)@ == after_market(old(self)@, order),
            final(fills)@ == old(fills)@ + market_sweep(old(self)@, order).fills,
            status == market_status(
                order.qty as nat,
                market_sweep(old(self)@, order).remaining,
            ),
            final(self).took_market(*old(self), order),
            old(self).unique() ==> final(self).unique(),
    {
        let ghost before = *self;
        let mut taken: Vec<Fill> = Vec::new();
        proof {
            lemma_found(before);
            lemma_market_live(before.core@, order);
            lemma_named_market(before.core@, before.ids@, order);
        }
        let status = self.core.add_market_order_into(order, &mut taken);
        assert(taken@ =~= market_sweep(before.core@, order).fills);
        proof {
            assert forall|i: int| 0 <= i < taken@.len() implies self.ids@.contains_key(
                (#[trigger] taken@[i]).maker_order_id,
            ) by {
                assert(before.core@.live_ids().contains(taken@[i].maker_order_id));
            }
        }
        name_fills(&self.ids, order.id, &taken, fills);
        let ghost after = self.core@;
        proof {
            assert forall|t: u64| #[trigger] before.ids@.contains_key(t) && !after.rests(
                t,
            ) implies is_maker(taken@, t) by {
                assert(before.core@.live_ids().contains(t));
            }
        }
        self.forget_makers(&taken);
        proof {
            assert(self.ids@.dom() =~= after.live_ids()) by {
                assert forall|t: u64| after.live_ids().contains(t) implies before.ids@.contains_key(
                    t,
                ) by {
                    assert(before.core@.live_ids().contains(t));
                }
            }
            lemma_named_sound(after, self.ids@);
            assert(self.wf());
            if before.unique() {
                law_a_market_order_leaves_a_sound_book(before@, order);
                assert forall|t: u64| #[trigger]
                    self.names().contains_key(t) implies self.lookup().contains_key(self.names()[t])
                    && self.lookup()[self.names()[t]] == t by {
                    assert(before.names().contains_key(t));
                }
            }
        }
        status
    }

    /// Submit a market order. Returns fills. Unfilled remainder is cancelled.
    pub fn add_market_order(&mut self, order: MarketOrder) -> (result: OrderResult)
        requires
            old(self).wf(),
            order.qty > 0,
        ensures
            final(self).wf(),
            final(self)@ == after_market(old(self)@, order),
            result.fills@ == market_sweep(old(self)@, order).fills,
            result.status == market_status(
                order.qty as nat,
                market_sweep(old(self)@, order).remaining,
            ),
            final(self).took_market(*old(self), order),
            old(self).unique() ==> final(self).unique(),
    {
        let mut fills: Vec<Fill> = Vec::new();
        let status = self.add_market_order_into(order, &mut fills);
        OrderResult { fills, status }
    }

    /// Cancel the resting order that an id finds. Returns `true` if there is
    /// one; it is removed, and the id finds nothing from now on.
    #[verifier::rlimit(60)]
    pub fn cancel_order(&mut self, order_id: u64) -> (found: bool)
        requires
            old(self).wf(),
        ensures
            final(self).wf(),
            found == old(self).lookup().contains_key(order_id),
            found ==> final(self).dropped(*old(self), order_id),
            !found ==> *final(self) == *old(self),
            old(self).unique() ==> {
                &&& found == old(self)@.rests(order_id)
                &&& final(self)@ == after_cancel(old(self)@, order_id)
                &&& final(self).unique()
            },
    {
        let ghost before = *self;
        proof {
            lemma_found(before);
        }
        let ticket: u64 = match self.tickets.get(&order_id) {
            Some(ticket) => *ticket,
            None => {
                proof {
                    if before.unique() {
                        lemma_named_cancel(before.core@, before.ids@, before.tickets@, order_id);
                    }
                }
                return false;
            },
        };
        assert(before.core@.live_ids().contains(ticket));
        self.core.cancel_order(ticket);
        self.ids.remove(&ticket);
        self.tickets.remove(&order_id);
        proof {
            let after = self.core@;
            law_a_cancel_takes_one_order(before.core@, ticket);
            assert forall|t: u64| after.live_ids().contains(t) <==> t != ticket
                && before.core@.live_ids().contains(t) by {
                if after.rests(t) {
                    let (s, p) = choose|s: Side, p: i64| #[trigger] after.rests_at(t, s, p);
                    assert(before.core@.rests_at(t, s, p));
                }
                if t != ticket && before.core@.rests(t) {
                    let (s, p) = choose|s: Side, p: i64| #[trigger] before.core@.rests_at(t, s, p);
                    assert(after.rests_at(t, s, p));
                }
            }
            assert(self.ids@ =~= before.ids@.remove(ticket));
            assert(self.tickets@ =~= before.tickets@.remove(order_id));
            assert(self.ids@.dom() =~= after.live_ids());
            lemma_named_sound(after, self.ids@);
            assert forall|id: u64| #[trigger]
                self.lookup().contains_key(id) implies self.names().contains_key(self.lookup()[id])
                && self.names()[self.lookup()[id]] == id by {
                assert(before.lookup().contains_key(id));
            }
            assert(self.wf());
            if before.unique() {
                lemma_named_cancel(before.core@, before.ids@, before.tickets@, order_id);
                law_a_cancel_leaves_a_sound_book(before@, order_id);
                assert forall|t: u64| #[trigger]
                    self.names().contains_key(t) implies self.lookup().contains_key(self.names()[t])
                    && self.lookup()[self.names()[t]] == t by {
                    assert(before.names().contains_key(t));
                }
            }
        }
        true
    }
}

impl Default for OrderBook {
    fn default() -> (book: Self)
        ensures
            book.wf(),
            book.unique(),
            book@ == BookView::empty(),
            book.by_ticket() == BookView::empty(),
            book.names() == Map::<u64, u64>::empty(),
            book.lookup() == Map::<u64, u64>::empty(),
            book.next_ticket() == 0,
    {
        OrderBook::new()
    }
}

/// Cancelled orders do not pile up: what the book stores, it stores with a
/// level that still has orders. A book without orders stores nothing.
pub proof fn law_only_live_levels_hold_orders(book: OrderBook)
    requires
        book.wf(),
    ensures
        forall|ticket: u64| #[trigger]
            book.held_tickets().contains(ticket) ==> exists|side: Side, price: i64|
                book@.side(side).contains_key(price) && #[trigger] book.held_at(
                    side,
                    price,
                ).contains(ticket),
        forall|side: Side, price: i64|
            !book@.side(side).contains_key(price) ==> #[trigger] book.held_at(side, price)
                == Set::<u64>::empty(),
        book@ == BookView::empty() ==> {
            &&& book.held_tickets() == Set::<u64>::empty()
            &&& book.names() == Map::<u64, u64>::empty()
            &&& book.lookup() == Map::<u64, u64>::empty()
        },
{
    lemma_levels_hold_orders(book.core);
    let core = book.core;
    assert forall|side: Side, price: i64| #[trigger]
        book@.side(side).contains_key(price) == core@.side(side).contains_key(price) by {}
    assert forall|ticket: u64| #[trigger] book.held_tickets().contains(ticket) implies exists|
        side: Side,
        price: i64,
    |
        book@.side(side).contains_key(price) && #[trigger] book.held_at(side, price).contains(
            ticket,
        ) by {
        let (side, price) = choose|side: Side, price: i64|
            core@.side(side).contains_key(price) && #[trigger] core.held_at(side, price).contains(
                ticket,
            );
        assert(book@.side(side).contains_key(price));
        assert(book.held_at(side, price).contains(ticket));
    }
    assert forall|side: Side, price: i64|
        !book@.side(side).contains_key(price) implies #[trigger] book.held_at(side, price)
        == Set::<u64>::empty() by {
        assert(core.held_at(side, price) == Set::<u64>::empty());
    }
    if book@ == BookView::empty() {
        assert forall|side: Side, price: i64| !#[trigger] core@.side(side).contains_key(price) by {
            assert(!book@.side(side).contains_key(price));
        }
        assert forall|price: i64| !core@.bids.contains_key(price) by {
            assert(!core@.side(Side::Bid).contains_key(price));
        }
        assert forall|price: i64| !core@.asks.contains_key(price) by {
            assert(!core@.side(Side::Ask).contains_key(price));
        }
        assert(core@ =~= BookView::empty());
        assert(core@.live_ids() =~= Set::<u64>::empty());
        assert(book.names() =~= Map::<u64, u64>::empty());
        assert(book.lookup() =~= Map::<u64, u64>::empty());
    }
}

/// The book is never crossed or locked: the best bid is below the best ask.
pub proof fn law_the_book_is_never_crossed(book: OrderBook)
    requires
        book.wf(),
    ensures
        match (best_price(book@.bids, Side::Bid), best_price(book@.asks, Side::Ask)) {
            (Some(bid), Some(ask)) => bid < ask,
            _ => true,
        },
{
    if let (Some(bid), Some(ask)) = (
        best_price(book@.bids, Side::Bid),
        best_price(book@.asks, Side::Ask),
    ) {
        assert(is_best(book@.bids, Side::Bid, bid));
        assert(is_best(book@.asks, Side::Ask, ask));
        assert(book@.bids.contains_key(bid) && book@.asks.contains_key(ask));
    }
}

/// Of two orders under one id the newer is the one that is found and
/// cancelled. An order that found no maker and is cancelled by its id leaves
/// the book as it was, an older order of that id in its place and with its
/// volume included; the id then finds nothing, and every other id what it did.
pub proof fn law_the_newer_order_is_cancelled(
    before: OrderBook,
    placed: OrderBook,
    after: OrderBook,
    order: LimitOrder,
)
    requires
        before.wf(),
        placed.wf(),
        after.wf(),
        order.qty > 0,
        limit_sweep(before@, order).remaining == order.qty,
        placed.took_limit(before, order),
        after.dropped(placed, order.id),
    ensures
        placed.lookup().contains_key(order.id),
        placed.lookup()[order.id] == before.next_ticket(),
        after@ == before@,
        after.by_ticket() == before.by_ticket(),
        after.lookup() == before.lookup().remove(order.id),
{
    let ticket = before.next_ticket();
    let ticketed = LimitOrder { id: ticket, ..order };
    let book = before.by_ticket();
    let between = placed.by_ticket();
    lemma_found(before);
    assert(!before.core@.live_ids().contains(ticket));
    lemma_named_limit(book, before.names(), ticketed, order.id);
    lemma_limit_live(book, ticketed);
    law_a_cancel_undoes_a_placement(book, ticketed);
    assert forall|t: u64| between.live_ids().contains(t) <==> t == ticket
        || book.live_ids().contains(t) by {
        if t != ticket && book.rests(t) && !between.rests(t) {
            assert(after.by_ticket().live_ids().contains(t));
            law_a_cancel_takes_one_order(between, ticket);
            let (s, p) = choose|s: Side, p: i64| #[trigger] book.rests_at(t, s, p);
            assert(after_cancel(between, ticket).rests_at(t, s, p));
        }
    }
    assert(after.names() =~= before.names());
    assert forall|id: u64| #[trigger] before.lookup().contains_key(id) implies between.rests(
        before.lookup()[id],
    ) by {
        assert(book.live_ids().contains(before.lookup()[id]));
        assert(between.live_ids().contains(before.lookup()[id]));
    }
    assert(after.lookup() =~= before.lookup().remove(order.id));
}

} // verus!
