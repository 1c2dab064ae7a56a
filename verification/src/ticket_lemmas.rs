//! Lemmas on books by ticket and books by id.

use crate::book_laws::{
    law_a_cancel_takes_one_order, law_an_unknown_cancel_changes_nothing,
    law_only_a_remainder_rests, lemma_sweep_adds_no_order,
};
use crate::book_lemmas::{
    lemma_best_unique, lemma_filter_push, lemma_level_filled_wf, lemma_sum_of_empty,
    lemma_sum_of_insert,
};
use crate::book_model::{
    after_cancel, after_limit, after_market, ahead, best_level, best_price, depth_notional,
    depth_qty, front_filled, is_best, least, levels_sound, levels_wf, levels_without, limit_sweep,
    market_sweep, next_maker, queue_sound, queued, reachable, sum_of, sweep, volume, volume_at,
    with_queue, with_resting, without, BookView, Levels, Sweep,
};
use crate::count_laws::{lemma_front_filled_ids, lemma_sides_apart, side_ids, stands_in};
use crate::exchange_lemmas::single;
use crate::fills::Fill;
use crate::order::{LimitOrder, MarketOrder, RestingOrder, Side};
use crate::ticket_model::{named_book, named_fills, named_levels, named_order, named_queue};
use vstd::prelude::*;

verus! {

/// Names do not change a volume.
proof fn lemma_named_volume(queue: Seq<RestingOrder>, names: Map<u64, u64>)
    ensures
        volume(named_queue(queue, names)) == volume(queue),
    decreases queue.len(),
{
    if queue.len() > 0 {
        lemma_named_volume(queue.drop_last(), names);
        assert(named_queue(queue, names).drop_last() =~= named_queue(queue.drop_last(), names));
    }
}

/// Names change no volume at a price.
pub proof fn lemma_named_volume_at(levels: Levels, names: Map<u64, u64>, price: i64)
    ensures
        volume_at(named_levels(levels, names), price) == volume_at(levels, price),
{
    if levels.contains_key(price) {
        lemma_named_volume(levels[price], names);
    }
}

/// Names change no best price.
proof fn lemma_named_best_price(levels: Levels, names: Map<u64, u64>, side: Side)
    ensures
        best_price(named_levels(levels, names), side) == best_price(levels, side),
{
    let named = named_levels(levels, names);
    assert(forall|price: i64| named.contains_key(price) == levels.contains_key(price));
    assert forall|price: i64| #[trigger] is_best(named, side, price) <==> is_best(
        levels,
        side,
        price,
    ) by {
        if is_best(levels, side, price) {
            assert(named.contains_key(price));
        }
        if is_best(named, side, price) {
            assert forall|other: i64| #[trigger] levels.contains_key(other) implies other == price
                || ahead(side, price, other) by {
                assert(named.contains_key(other));
            }
        }
    }
    if exists|price: i64| is_best(levels, side, price) {
        let price = choose|price: i64| is_best(levels, side, price);
        assert(is_best(named, side, price));
        lemma_best_unique(levels, side, price);
        lemma_best_unique(named, side, price);
    }
}

/// Names change no best level.
pub proof fn lemma_named_best(levels: Levels, names: Map<u64, u64>, side: Side)
    ensures
        best_price(named_levels(levels, names), side) == best_price(levels, side),
        best_level(named_levels(levels, names), side) == best_level(levels, side),
{
    lemma_named_best_price(levels, names, side);
    match best_price(levels, side) {
        Some(price) => {
            assert(is_best(levels, side, price));
            lemma_named_volume(levels[price], names);
        },
        None => {},
    }
}

/// Values that agree on the members add up to the same.
pub proof fn lemma_sum_of_cong<A>(members: Set<A>, f: spec_fn(A) -> nat, g: spec_fn(A) -> nat)
    requires
        members.finite(),
        forall|member: A| #[trigger] members.contains(member) ==> f(member) == g(member),
    ensures
        sum_of(members, f) == sum_of(members, g),
    decreases members.len(),
{
    if members.len() == 0 {
        assert(members =~= Set::empty());
        lemma_sum_of_empty(f);
        lemma_sum_of_empty(g);
    } else {
        let member = members.choose();
        assert(members.contains(member));
        let less = members.remove(member);
        lemma_sum_of_cong(less, f, g);
        lemma_sum_of_insert(less, f, member);
        lemma_sum_of_insert(less, g, member);
        assert(less.insert(member) =~= members);
    }
}

/// Names change no depth.
pub proof fn lemma_named_depth(
    levels: Levels,
    names: Map<u64, u64>,
    side: Side,
    limit: Option<i64>,
)
    requires
        levels_wf(levels),
    ensures
        depth_qty(named_levels(levels, names), side, limit) == depth_qty(levels, side, limit),
        depth_notional(named_levels(levels, names), side, limit) == depth_notional(
            levels,
            side,
            limit,
        ),
{
    let named = named_levels(levels, names);
    let prices = reachable(levels, side, limit);
    assert(named.dom() =~= levels.dom());
    assert(reachable(named, side, limit) == prices);
    assert(prices.finite()) by {
        vstd::set_lib::lemma_set_subset_finite(levels.dom(), prices);
    }
    assert forall|price: i64| #[trigger] prices.contains(price) implies volume(named[price])
        == volume(levels[price]) by {
        lemma_named_volume(levels[price], names);
    }
    lemma_sum_of_cong(
        prices,
        |price: i64| volume(named[price]),
        |price: i64| volume(levels[price]),
    );
    lemma_sum_of_cong(
        prices,
        |price: i64| (price * volume(named[price])) as nat,
        |price: i64| (price * volume(levels[price])) as nat,
    );
}

/// A side by id is sound.
proof fn lemma_named_levels_sound(levels: Levels, names: Map<u64, u64>)
    requires
        levels_wf(levels),
    ensures
        levels_sound(named_levels(levels, names)),
{
    let named = named_levels(levels, names);
    assert(named.dom() =~= levels.dom());
    assert forall|price: i64| #[trigger] named.contains_key(price) implies price >= 0
        && queue_sound(named[price]) by {
        assert(levels.contains_key(price));
        lemma_named_volume(levels[price], names);
        assert forall|i: int| 0 <= i < named[price].len() implies (#[trigger] named[price][i]).qty
            > 0 by {
            assert(levels[price][i].qty > 0);
        }
    }
}

/// A book by id is sound.
pub proof fn lemma_named_sound(book: BookView, names: Map<u64, u64>)
    requires
        book.wf(),
    ensures
        named_book(book, names).sound(),
{
    let named = named_book(book, names);
    lemma_named_levels_sound(book.bids, names);
    lemma_named_levels_sound(book.asks, names);
    assert forall|bid: i64, ask: i64| #[trigger]
        named.bids.contains_key(bid) && #[trigger] named.asks.contains_key(ask) implies bid < ask by {
        assert(book.bids.contains_key(bid) && book.asks.contains_key(ask));
    }
}

/// Names that agree on the orders of a side show it alike.
proof fn lemma_names_agree(levels: Levels, a: Map<u64, u64>, b: Map<u64, u64>)
    requires
        forall|ticket: u64| #[trigger] stands_in(levels, ticket) ==> a[ticket] == b[ticket],
    ensures
        named_levels(levels, a) == named_levels(levels, b),
{
    assert forall|price: i64| #[trigger] levels.contains_key(price) implies named_queue(
        levels[price],
        a,
    ) == named_queue(levels[price], b) by {
        let queue = levels[price];
        assert forall|i: int| 0 <= i < queue.len() implies named_order(#[trigger] queue[i], a)
            == named_order(queue[i], b) by {
            assert(queued(levels[price], queue[i].id));
            assert(stands_in(levels, queue[i].id));
        }
        assert(named_queue(queue, a) =~= named_queue(queue, b));
    }
    assert(named_levels(levels, a) =~= named_levels(levels, b));
}

/// Filling the first in line is the same by ticket and by id.
proof fn lemma_named_front_filled(levels: Levels, names: Map<u64, u64>, price: i64, part: nat)
    requires
        levels.contains_key(price),
        levels[price].len() > 0,
    ensures
        ({
            let named = named_levels(levels, names);
            with_queue(named, price, front_filled(named[price], part)) == named_levels(
                with_queue(levels, price, front_filled(levels[price], part)),
                names,
            )
        }),
{
    let named = named_levels(levels, names);
    let queue = levels[price];
    let next = front_filled(queue, part);
    assert(named[price] == named_queue(queue, names));
    assert(named[price][0] == named_order(queue[0], names));
    assert(front_filled(named[price], part) =~= named_queue(next, names));
    assert(with_queue(named, price, front_filled(named[price], part)) =~= named_levels(
        with_queue(levels, price, next),
        names,
    ));
}

/// Matching is the same by ticket and by id.
proof fn lemma_named_sweep(
    levels: Levels,
    names: Map<u64, u64>,
    side: Side,
    ticket: u64,
    id: u64,
    limit: Option<i64>,
    qty: nat,
)
    ensures
        ({
            let outcome = sweep(levels, side, ticket, limit, qty);
            sweep(named_levels(levels, names), side, id, limit, qty) == Sweep {
                levels: named_levels(outcome.levels, names),
                fills: named_fills(outcome.fills, names, id),
                remaining: outcome.remaining,
            }
        }),
    decreases qty,
{
    let named = named_levels(levels, names);
    let outcome = sweep(levels, side, ticket, limit, qty);
    let shown = sweep(named, side, id, limit, qty);
    lemma_named_best_price(levels, names, side.spec_opposite());
    match best_price(levels, side.spec_opposite()) {
        Some(price) => {
            assert(is_best(levels, side.spec_opposite(), price));
            assert(named[price] == named_queue(levels[price], names));
            if levels[price].len() > 0 {
                assert(named[price][0] == named_order(levels[price][0], names));
            }
        },
        None => {},
    }
    match next_maker(levels, side, limit, qty) {
        Some(price) => {
            let front = levels[price][0];
            let part = least(front.qty as nat, qty);
            let after = with_queue(levels, price, front_filled(levels[price], part));
            let left = (qty - part) as nat;
            let rest = sweep(after, side, ticket, limit, left);
            lemma_named_front_filled(levels, names, price, part);
            lemma_named_sweep(after, names, side, ticket, id, limit, left);
            assert(outcome.fills =~= seq![outcome.fills[0]] + rest.fills);
            assert(shown.fills =~= named_fills(outcome.fills, names, id));
        },
        None => {
            assert(shown.fills =~= named_fills(outcome.fills, names, id));
        },
    }
}

/// Makers of a sweep stand on the side, and what the sweep takes away is a
/// maker.
proof fn lemma_sweep_makers(
    levels: Levels,
    side: Side,
    ticket: u64,
    limit: Option<i64>,
    qty: nat,
)
    requires
        levels_wf(levels),
        single(levels),
    ensures
        ({
            let outcome = sweep(levels, side, ticket, limit, qty);
            &&& forall|i: int|
                0 <= i < outcome.fills.len() ==> stands_in(
                    levels,
                    (#[trigger] outcome.fills[i]).maker_order_id,
                )
            &&& forall|t: u64|
                stands_in(levels, t) && !#[trigger] stands_in(outcome.levels, t) ==> is_maker(
                    outcome.fills,
                    t,
                )
        }),
    decreases qty,
{
    let outcome = sweep(levels, side, ticket, limit, qty);
    match next_maker(levels, side, limit, qty) {
        None => {},
        Some(price) => {
            assert(is_best(levels, side.spec_opposite(), price));
            let front = levels[price][0];
            let part = least(front.qty as nat, qty);
            let after = with_queue(levels, price, front_filled(levels[price], part));
            let left = (qty - part) as nat;
            let rest = sweep(after, side, ticket, limit, left);
            lemma_level_filled_wf(levels, price, part);
            lemma_front_filled_ids(levels, price, part);
            lemma_sweep_makers(after, side, ticket, limit, left);
            assert(outcome.levels == rest.levels);
            assert(outcome.fills =~= seq![outcome.fills[0]] + rest.fills);
            assert(outcome.fills[0].maker_order_id == front.id);
            let ids = side_ids(levels);
            let ids_after = side_ids(after);
            assert forall|i: int| 0 <= i < outcome.fills.len() implies stands_in(
                levels,
                (#[trigger] outcome.fills[i]).maker_order_id,
            ) by {
                if i > 0 {
                    assert(outcome.fills[i] == rest.fills[i - 1]);
                    assert(ids_after.contains(rest.fills[i - 1].maker_order_id));
                    assert(ids.contains(outcome.fills[i].maker_order_id));
                }
            }
            assert forall|t: u64|
                stands_in(levels, t) && !#[trigger] stands_in(outcome.levels, t) implies is_maker(
                outcome.fills,
                t,
            ) by {
                assert(ids.contains(t));
                if t != front.id {
                    assert(ids_after.contains(t));
                    assert(is_maker(rest.fills, t));
                    let i = choose|i: int|
                        0 <= i < rest.fills.len() && (#[trigger] rest.fills[i]).maker_order_id == t;
                    assert(outcome.fills[i + 1].maker_order_id == t);
                }
            }
        },
    }
}

/// One of the fills is of this maker.
pub open spec fn is_maker(fills: Seq<Fill>, ticket: u64) -> bool {
    exists|i: int| 0 <= i < fills.len() && (#[trigger] fills[i]).maker_order_id == ticket
}

/// An order stands on one of the sides of a book exactly if it rests.
proof fn lemma_rests_on_a_side(book: BookView, ticket: u64)
    ensures
        book.rests(ticket) <==> stands_in(book.bids, ticket) || stands_in(book.asks, ticket),
{
    if book.rests(ticket) {
        let (s, p) = choose|s: Side, p: i64| #[trigger] book.rests_at(ticket, s, p);
        assert(queued(book.side(s)[p], ticket));
    }
    if stands_in(book.bids, ticket) {
        let p = choose|p: i64| book.bids.contains_key(p) && #[trigger] queued(book.bids[p], ticket);
        assert(book.rests_at(ticket, Side::Bid, p));
    }
    if stands_in(book.asks, ticket) {
        let p = choose|p: i64| book.asks.contains_key(p) && #[trigger] queued(book.asks[p], ticket);
        assert(book.rests_at(ticket, Side::Ask, p));
    }
}

/// The orders of a book of which a taker took makers: what is gone is a maker,
/// nothing is new.
proof fn lemma_swept_live(
    book: BookView,
    side: Side,
    ticket: u64,
    limit: Option<i64>,
    qty: nat,
)
    requires
        book.wf(),
    ensures
        ({
            let maker = side.spec_opposite();
            let outcome = sweep(book.side(maker), side, ticket, limit, qty);
            let swept = book.with_side(maker, outcome.levels);
            &&& forall|t: u64| #[trigger] swept.rests(t) ==> book.rests(t)
            &&& forall|t: u64|
                book.rests(t) && !#[trigger] swept.rests(t) ==> is_maker(outcome.fills, t)
            &&& forall|i: int|
                0 <= i < outcome.fills.len() ==> book.rests(
                    (#[trigger] outcome.fills[i]).maker_order_id,
                )
        }),
{
    let maker = side.spec_opposite();
    let outcome = sweep(book.side(maker), side, ticket, limit, qty);
    let swept = book.with_side(maker, outcome.levels);
    lemma_sides_apart(book);
    lemma_sweep_makers(book.side(maker), side, ticket, limit, qty);
    lemma_sweep_adds_no_order(book.side(maker), side, ticket, limit, qty);
    assert forall|t: u64| stands_in(outcome.levels, t) implies #[trigger] stands_in(
        book.side(maker),
        t,
    ) by {
        let p = choose|p: i64|
            outcome.levels.contains_key(p) && #[trigger] queued(outcome.levels[p], t);
        assert(queued(book.side(maker)[p], t));
    }
    assert forall|t: u64| #[trigger] swept.rests(t) implies book.rests(t) by {
        lemma_rests_on_a_side(book, t);
        lemma_rests_on_a_side(swept, t);
        assert(stands_in(outcome.levels, t) ==> stands_in(book.side(maker), t));
    }
    assert forall|t: u64| book.rests(t) && !#[trigger] swept.rests(t) implies is_maker(
        outcome.fills,
        t,
    ) by {
        lemma_rests_on_a_side(book, t);
        lemma_rests_on_a_side(swept, t);
        assert(!stands_in(outcome.levels, t));
    }
    assert forall|i: int| 0 <= i < outcome.fills.len() implies book.rests(
        (#[trigger] outcome.fills[i]).maker_order_id,
    ) by {
        lemma_rests_on_a_side(book, outcome.fills[i].maker_order_id);
    }
}

/// The orders of a book after a limit order: what is gone is a maker, and
/// nothing is new but what rests of the order.
pub proof fn lemma_limit_live(book: BookView, order: LimitOrder)
    requires
        book.wf(),
        !book.rests(order.id),
    ensures
        ({
            let outcome = limit_sweep(book, order);
            let after = after_limit(book, order);
            &&& forall|t: u64| #[trigger] after.rests(t) ==> t == order.id || book.rests(t)
            &&& forall|t: u64|
                book.rests(t) && !#[trigger] after.rests(t) ==> is_maker(outcome.fills, t)
            &&& forall|i: int|
                0 <= i < outcome.fills.len() ==> book.rests(
                    (#[trigger] outcome.fills[i]).maker_order_id,
                )
            &&& after.rests(order.id) <==> outcome.remaining > 0
        }),
{
    let side = order.side;
    let maker = side.spec_opposite();
    let outcome = limit_sweep(book, order);
    let swept = book.with_side(maker, outcome.levels);
    let after = after_limit(book, order);
    lemma_swept_live(book, side, order.id, Some(order.price), order.qty as nat);
    law_only_a_remainder_rests(book, order);
    if outcome.remaining > 0 {
        let rest = RestingOrder {
            id: order.id,
            qty: outcome.remaining as u64,
            timestamp: order.timestamp,
        };
        let levels = book.side(side);
        let placed = with_resting(levels, order.price, rest);
        assert forall|t: u64| t != order.id implies (#[trigger] after.rests(t) <==> swept.rests(
            t,
        )) by {
            if after.rests(t) {
                let (s, p) = choose|s: Side, p: i64| #[trigger] after.rests_at(t, s, p);
                if s == side && p == order.price {
                    let i = choose|i: int|
                        0 <= i < placed[p].len() && (#[trigger] placed[p][i]).id == t;
                    assert(levels.contains_key(p) && i < levels[p].len());
                    assert(levels[p][i].id == t);
                    assert(queued(levels[p], t));
                }
                assert(swept.rests_at(t, s, p));
            }
            if swept.rests(t) {
                let (s, p) = choose|s: Side, p: i64| #[trigger] swept.rests_at(t, s, p);
                if s == side && p == order.price {
                    let i = choose|i: int|
                        0 <= i < levels[p].len() && (#[trigger] levels[p][i]).id == t;
                    assert(placed[p][i].id == t);
                    assert(queued(placed[p], t));
                }
                assert(after.rests_at(t, s, p));
            }
        }
    } else {
        assert(after =~= swept);
    }
}

/// The orders of a book after a market order: what is gone is a maker, and
/// nothing is new.
pub proof fn lemma_market_live(book: BookView, order: MarketOrder)
    requires
        book.wf(),
    ensures
        ({
            let outcome = market_sweep(book, order);
            let after = after_market(book, order);
            &&& forall|t: u64| #[trigger] after.rests(t) ==> book.rests(t)
            &&& forall|t: u64|
                book.rests(t) && !#[trigger] after.rests(t) ==> is_maker(outcome.fills, t)
            &&& forall|i: int|
                0 <= i < outcome.fills.len() ==> book.rests(
                    (#[trigger] outcome.fills[i]).maker_order_id,
                )
        }),
{
    lemma_swept_live(book, order.side, order.id, None, order.qty as nat);
}

/// Books shown by names that agree on their orders are shown alike.
proof fn lemma_books_agree(book: BookView, a: Map<u64, u64>, b: Map<u64, u64>)
    requires
        forall|t: u64| #[trigger] book.rests(t) ==> a[t] == b[t],
    ensures
        named_book(book, a) == named_book(book, b),
{
    assert forall|t: u64| #[trigger] stands_in(book.bids, t) implies a[t] == b[t] by {
        lemma_rests_on_a_side(book, t);
    }
    assert forall|t: u64| #[trigger] stands_in(book.asks, t) implies a[t] == b[t] by {
        lemma_rests_on_a_side(book, t);
    }
    lemma_names_agree(book.bids, a, b);
    lemma_names_agree(book.asks, a, b);
}

/// A limit order is the same by ticket and by id.
pub proof fn lemma_named_limit(
    book: BookView,
    names: Map<u64, u64>,
    ticketed: LimitOrder,
    id: u64,
)
    requires
        book.wf(),
        names.dom() == book.live_ids(),
        !book.rests(ticketed.id),
    ensures
        ({
            let order = LimitOrder { id, ..ticketed };
            let named = named_book(book, names);
            let outcome = limit_sweep(book, ticketed);
            let after = after_limit(book, ticketed);
            &&& limit_sweep(named, order).fills == named_fills(outcome.fills, names, id)
            &&& limit_sweep(named, order).remaining == outcome.remaining
            &&& after_limit(named, order) == named_book(
                after,
                names.insert(ticketed.id, id).restrict(after.live_ids()),
            )
        }),
{
    let side = ticketed.side;
    let maker = side.spec_opposite();
    let order = LimitOrder { id, ..ticketed };
    let named = named_book(book, names);
    let outcome = limit_sweep(book, ticketed);
    let after = after_limit(book, ticketed);
    let more = names.insert(ticketed.id, id);
    let kept = more.restrict(after.live_ids());
    lemma_named_sweep(
        book.side(maker),
        names,
        side,
        ticketed.id,
        id,
        Some(ticketed.price),
        ticketed.qty as nat,
    );
    lemma_limit_live(book, ticketed);
    assert forall|t: u64| #[trigger] after.rests(t) implies more[t] == kept[t] by {
        assert(after.live_ids().contains(t));
        if t != ticketed.id {
            assert(book.live_ids().contains(t));
        }
    }
    lemma_books_agree(after, more, kept);
    assert forall|t: u64| #[trigger] book.rests(t) implies names[t] == more[t] by {}
    lemma_books_agree(book, names, more);
    assert forall|t: u64| #[trigger] stands_in(outcome.levels, t) implies names[t] == more[t] by {
        lemma_sweep_adds_no_order(
            book.side(maker),
            side,
            ticketed.id,
            Some(ticketed.price),
            ticketed.qty as nat,
        );
        let p = choose|p: i64|
            outcome.levels.contains_key(p) && #[trigger] queued(outcome.levels[p], t);
        assert(book.rests_at(t, maker, p));
    }
    lemma_names_agree(outcome.levels, names, more);
    if outcome.remaining > 0 {
        let rest = RestingOrder {
            id: ticketed.id,
            qty: outcome.remaining as u64,
            timestamp: ticketed.timestamp,
        };
        let levels = book.side(side);
        let placed = with_resting(levels, ticketed.price, rest);
        let shown = with_resting(named_levels(levels, more), ticketed.price, named_order(rest, more));
        assert(shown[ticketed.price] =~= named_queue(placed[ticketed.price], more));
        assert(shown =~= named_levels(placed, more));
    }
    assert(after_limit(named, order) =~= named_book(after, more));
}

/// A market order is the same by ticket and by id.
pub proof fn lemma_named_market(book: BookView, names: Map<u64, u64>, order: MarketOrder)
    requires
        book.wf(),
        names.dom() == book.live_ids(),
    ensures
        ({
            let named = named_book(book, names);
            let outcome = market_sweep(book, order);
            let after = after_market(book, order);
            &&& market_sweep(named, order).fills == named_fills(outcome.fills, names, order.id)
            &&& market_sweep(named, order).remaining == outcome.remaining
            &&& after_market(named, order) == named_book(after, names.restrict(after.live_ids()))
        }),
{
    let maker = order.side.spec_opposite();
    let named = named_book(book, names);
    let after = after_market(book, order);
    let kept = names.restrict(after.live_ids());
    lemma_named_sweep(
        book.side(maker),
        names,
        order.side,
        order.id,
        order.id,
        None,
        order.qty as nat,
    );
    lemma_market_live(book, order);
    assert forall|t: u64| #[trigger] after.rests(t) implies names[t] == kept[t] by {
        assert(after.live_ids().contains(t));
        assert(book.live_ids().contains(t));
    }
    lemma_books_agree(after, names, kept);
    assert(after_market(named, order) =~= named_book(after, names));
}

/// An order that rests by ticket rests by its id.
pub proof fn lemma_named_rests(book: BookView, names: Map<u64, u64>, ticket: u64)
    requires
        book.rests(ticket),
    ensures
        named_book(book, names).rests(names[ticket]),
{
    let named = named_book(book, names);
    let (s, p) = choose|s: Side, p: i64| #[trigger] book.rests_at(ticket, s, p);
    let queue = book.side(s)[p];
    let i = choose|i: int| 0 <= i < queue.len() && (#[trigger] queue[i]).id == ticket;
    assert(named.side(s)[p] == named_queue(queue, names));
    assert(named.side(s)[p][i].id == names[ticket]);
    assert(named.rests_at(names[ticket], s, p));
}

/// What rests by id rests by a ticket of that name.
proof fn lemma_rests_by_ticket(book: BookView, names: Map<u64, u64>, id: u64) -> (ticket: u64)
    requires
        named_book(book, names).rests(id),
    ensures
        book.rests(ticket),
        names[ticket] == id,
{
    let named = named_book(book, names);
    let (s, p) = choose|s: Side, p: i64| #[trigger] named.rests_at(id, s, p);
    let queue = book.side(s)[p];
    assert(named.side(s)[p] == named_queue(queue, names));
    let i = choose|i: int|
        0 <= i < named.side(s)[p].len() && (#[trigger] named.side(s)[p][i]).id == id;
    let ticket = queue[i].id;
    assert(queued(queue, ticket));
    assert(book.rests_at(ticket, s, p));
    ticket
}

/// Taking an order out of a queue is the same by ticket and by id.
proof fn lemma_named_without(
    queue: Seq<RestingOrder>,
    names: Map<u64, u64>,
    ticket: u64,
    id: u64,
)
    requires
        forall|i: int| 0 <= i < queue.len() ==> (names[(#[trigger] queue[i]).id] == id
            <==> queue[i].id == ticket),
    ensures
        without(named_queue(queue, names), id) == named_queue(without(queue, ticket), names),
    decreases queue.len(),
{
    reveal(Seq::filter);
    if queue.len() == 0 {
        assert(without(named_queue(queue, names), id) =~= named_queue(
            without(queue, ticket),
            names,
        ));
    } else {
        let init = queue.drop_last();
        let last = queue.last();
        assert forall|i: int| 0 <= i < init.len() implies (names[(#[trigger] init[i]).id] == id
            <==> init[i].id == ticket) by {
            assert(init[i] == queue[i]);
        }
        lemma_named_without(init, names, ticket, id);
        assert(named_queue(queue, names) =~= named_queue(init, names).push(
            named_order(last, names),
        ));
        assert(queue =~= init.push(last));
        assert(names[queue[queue.len() - 1].id] == id <==> last.id == ticket);
        lemma_filter_push(init, last, |order: RestingOrder| order.id != ticket);
        lemma_filter_push(
            named_queue(init, names),
            named_order(last, names),
            |order: RestingOrder| order.id != id,
        );
        assert(without(named_queue(queue, names), id) =~= named_queue(
            without(queue, ticket),
            names,
        ));
    }
}

/// Taking an order out of a side is the same by ticket and by id.
proof fn lemma_named_levels_without(
    levels: Levels,
    names: Map<u64, u64>,
    ticket: u64,
    id: u64,
)
    requires
        forall|t: u64| #[trigger] stands_in(levels, t) ==> (names[t] == id <==> t == ticket),
    ensures
        levels_without(named_levels(levels, names), id) == named_levels(
            levels_without(levels, ticket),
            names,
        ),
{
    let named = named_levels(levels, names);
    assert forall|price: i64| #[trigger] levels.contains_key(price) implies without(
        named[price],
        id,
    ) == named_queue(without(levels[price], ticket), names) by {
        let queue = levels[price];
        assert forall|i: int| 0 <= i < queue.len() implies (names[(#[trigger] queue[i]).id] == id
            <==> queue[i].id == ticket) by {
            assert(queued(levels[price], queue[i].id));
            assert(stands_in(levels, queue[i].id));
        }
        lemma_named_without(queue, names, ticket, id);
    }
    let less = levels_without(named, id);
    let shown = named_levels(levels_without(levels, ticket), names);
    assert forall|price: i64| #[trigger] less.contains_key(price) <==> shown.contains_key(
        price,
    ) by {
        if levels.contains_key(price) {
            assert(without(named[price], id).len() == without(levels[price], ticket).len());
        }
    }
    assert forall|price: i64| #[trigger] less.contains_key(price) implies less[price]
        == shown[price] by {
        assert(levels.contains_key(price));
    }
    assert(less =~= shown);
}

/// Where ids are unique, a cancel is the same by ticket and by id.
pub proof fn lemma_named_cancel(
    book: BookView,
    names: Map<u64, u64>,
    lookup: Map<u64, u64>,
    id: u64,
)
    requires
        book.wf(),
        named_book(book, names).wf(),
        names.dom() == book.live_ids(),
        forall|x: u64| #[trigger]
            lookup.contains_key(x) ==> names.contains_key(lookup[x]) && names[lookup[x]] == x,
        forall|t: u64| #[trigger]
            names.contains_key(t) ==> lookup.contains_key(names[t]) && lookup[names[t]] == t,
    ensures
        named_book(book, names).rests(id) <==> lookup.contains_key(id),
        !lookup.contains_key(id) ==> after_cancel(named_book(book, names), id) == named_book(
            book,
            names,
        ),
        lookup.contains_key(id) ==> after_cancel(named_book(book, names), id) == named_book(
            after_cancel(book, lookup[id]),
            names.remove(lookup[id]),
        ),
{
    let named = named_book(book, names);
    if lookup.contains_key(id) {
        let ticket = lookup[id];
        let after = after_cancel(book, ticket);
        assert(book.live_ids().contains(ticket));
        lemma_named_rests(book, names, ticket);
        assert forall|t: u64| book.rests(t) implies (names[t] == id <==> t == ticket) by {
            assert(book.live_ids().contains(t));
            assert(names.contains_key(t));
        }
        assert forall|t: u64| #[trigger] stands_in(book.bids, t) implies (names[t] == id <==> t
            == ticket) by {
            lemma_rests_on_a_side(book, t);
        }
        assert forall|t: u64| #[trigger] stands_in(book.asks, t) implies (names[t] == id <==> t
            == ticket) by {
            lemma_rests_on_a_side(book, t);
        }
        lemma_named_levels_without(book.bids, names, ticket, id);
        lemma_named_levels_without(book.asks, names, ticket, id);
        law_a_cancel_takes_one_order(book, ticket);
        assert forall|t: u64| #[trigger] after.rests(t) implies names[t] == names.remove(
            ticket,
        )[t] by {
            let (s, p) = choose|s: Side, p: i64| #[trigger] after.rests_at(t, s, p);
            assert(t != ticket);
        }
        lemma_books_agree(after, names, names.remove(ticket));
    } else {
        if named.rests(id) {
            let ticket = lemma_rests_by_ticket(book, names, id);
            assert(book.live_ids().contains(ticket));
            assert(names.contains_key(ticket));
        }
        law_an_unknown_cancel_changes_nothing(named, id);
    }
}

/// Where ids are unique, there are as many as there are tickets.
pub proof fn lemma_sizes_agree(book: BookView, names: Map<u64, u64>, lookup: Map<u64, u64>)
    requires
        names.dom() == book.live_ids(),
        book.live_ids().finite(),
        forall|t: u64| #[trigger]
            names.contains_key(t) ==> lookup.contains_key(names[t]) && lookup[names[t]] == t,
    ensures
        named_book(book, names).live_ids().finite(),
        named_book(book, names).live_ids().len() == book.live_ids().len(),
{
    let named = named_book(book, names);
    let ids = book.live_ids().map(|t: u64| names[t]);
    assert forall|id: u64| #[trigger] named.live_ids().contains(id) <==> ids.contains(id) by {
        if named.rests(id) {
            let t = lemma_rests_by_ticket(book, names, id);
            assert(book.live_ids().contains(t));
        }
        if ids.contains(id) {
            let t = choose|t: u64| book.live_ids().contains(t) && names[t] == id;
            lemma_named_rests(book, names, t);
        }
    }
    assert(named.live_ids() =~= ids);
    book.live_ids().lemma_map_finite(|t: u64| names[t]);
    assert(vstd::relations::injective_on(|t: u64| names[t], book.live_ids())) by {
        assert forall|a: u64, b: u64|
            book.live_ids().contains(a) && book.live_ids().contains(b) && names[a]
                == names[b] implies a == b by {
            assert(names.contains_key(a) && names.contains_key(b));
        }
    }
    vstd::set_lib::lemma_map_size(book.live_ids(), ids, |t: u64| names[t]);
}

} // verus!
