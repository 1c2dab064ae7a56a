//! Facts about the mathematical exchange.

use crate::book_lemmas::{
    lemma_filter_keeps, lemma_filter_member, lemma_front_filled_wf, lemma_level_filled_wf,
};
use crate::book_model::{
    front_filled, is_best, least, levels_wf, levels_without, next_maker, queued, sweep, with_queue,
    with_resting, within, without, BookView, Levels,
};
use crate::exchange_model::{
    ascending, fills_notional, in_order, owned, resting_filled, ExchangeView, NewOrder, OrderInfo,
};
use crate::fills::{filled_qty, Fill, OrderStatus};
use crate::flow_lemmas::lemma_notional_fits;
use crate::order::{RestingOrder, Side};
use vstd::prelude::*;
use vstd::std_specs::cmp::OrdSpec;

verus! {

/// Two ascending sequences of the same members are the same.
pub proof fn lemma_ascending_unique(a: Seq<u64>, b: Seq<u64>)
    requires
        ascending(a),
        ascending(b),
        a.to_set() == b.to_set(),
    ensures
        a == b,
    decreases a.len(),
{
    if a.len() == 0 {
        if b.len() > 0 {
            assert(b.to_set().contains(b[0]));
            assert(a.to_set().contains(b[0]));
        }
        assert(a =~= b);
    } else {
        assert(a.to_set().contains(a.last()));
        assert(b.to_set().contains(a.last()));
        let j = choose|j: int| 0 <= j < b.len() && b[j] == a.last();
        assert(b.to_set().contains(b.last()));
        assert(a.to_set().contains(b.last()));
        let i = choose|i: int| 0 <= i < a.len() && a[i] == b.last();
        assert(a.last() == b.last());
        let a1 = a.drop_last();
        let b1 = b.drop_last();
        assert(a1.to_set() =~= b1.to_set()) by {
            assert forall|x: u64| a1.to_set().contains(x) == b1.to_set().contains(x) by {
                if a1.to_set().contains(x) {
                    let k = choose|k: int| 0 <= k < a1.len() && a1[k] == x;
                    assert(a[k] == x);
                    assert(a.to_set().contains(x));
                    let m = choose|m: int| 0 <= m < b.len() && b[m] == x;
                    assert(m < b.len() - 1);
                    assert(b1[m] == x);
                }
                if b1.to_set().contains(x) {
                    let k = choose|k: int| 0 <= k < b1.len() && b1[k] == x;
                    assert(b[k] == x);
                    assert(b.to_set().contains(x));
                    let m = choose|m: int| 0 <= m < a.len() && a[m] == x;
                    assert(m < a.len() - 1);
                    assert(a1[m] == x);
                }
            }
        }
        lemma_ascending_unique(a1, b1);
        assert(a =~= a1.push(a.last()));
        assert(b =~= b1.push(b.last()));
    }
}

/// A sorted listing of a set is its members in order.
pub proof fn lemma_in_order(ids: Set<u64>, sorted: Seq<u64>)
    requires
        ascending(sorted),
        sorted.to_set() == ids,
    ensures
        in_order(ids) == sorted,
{
    lemma_ascending_unique(in_order(ids), sorted);
}

/// A finite set can be listed in order.
pub proof fn lemma_in_order_exists(ids: Set<u64>)
    requires
        ids.finite(),
    ensures
        ascending(in_order(ids)),
        in_order(ids).to_set() == ids,
    decreases ids.len(),
{
    if ids.len() == 0 {
        let none = Seq::<u64>::empty();
        assert(none.to_set() =~= ids);
        assert(ascending(none) && none.to_set() == ids);
    } else {
        let last = lemma_largest(ids);
        let rest = ids.remove(last);
        lemma_in_order_exists(rest);
        let sorted = in_order(rest).push(last);
        assert forall|i: int, j: int| 0 <= i < j < sorted.len() implies sorted[i] < sorted[j] by {
            if j == sorted.len() - 1 {
                assert(in_order(rest).to_set().contains(sorted[i]));
            }
        }
        assert(sorted.to_set() =~= ids) by {
            assert forall|x: u64| sorted.to_set().contains(x) == ids.contains(x) by {
                if ids.contains(x) {
                    if x == last {
                        assert(sorted[sorted.len() - 1] == x);
                    } else {
                        assert(in_order(rest).to_set().contains(x));
                        let k = choose|k: int|
                            0 <= k < in_order(rest).len() && in_order(rest)[k] == x;
                        assert(sorted[k] == x);
                    }
                }
                if sorted.to_set().contains(x) {
                    let k = choose|k: int| 0 <= k < sorted.len() && sorted[k] == x;
                    if k < in_order(rest).len() {
                        assert(in_order(rest)[k] == x);
                        assert(in_order(rest).to_set().contains(x));
                    }
                }
            }
        }
        assert(ascending(sorted) && sorted.to_set() == ids);
    }
}

/// The largest member of a set.
proof fn lemma_largest(ids: Set<u64>) -> (largest: u64)
    requires
        ids.finite(),
        ids.len() > 0,
    ensures
        ids.contains(largest),
        forall|x: u64| #[trigger] ids.contains(x) ==> x <= largest,
    decreases ids.len(),
{
    let some = ids.choose();
    let rest = ids.remove(some);
    if rest.len() == 0 {
        assert forall|x: u64| #[trigger] ids.contains(x) implies x <= some by {
            if x != some {
                assert(rest.contains(x));
            }
        }
        some
    } else {
        let other = lemma_largest(rest);
        let largest = if other > some {
            other
        } else {
            some
        };
        assert forall|x: u64| #[trigger] ids.contains(x) implies x <= largest by {
            if x != some {
                assert(rest.contains(x));
            }
        }
        largest
    }
}

/// The keys of an ordered map come out in ascending order.
pub proof fn lemma_keys_ascending(keys: Seq<&u64>)
    requires
        vstd::std_specs::btree::increasing_seq(keys),
    ensures
        forall|i: int, j: int| 0 <= i < j < keys.len() ==> *keys[i] < *keys[j],
{
    broadcast use vstd::laws_cmp::group_laws_cmp;
    broadcast use vstd::std_specs::btree::group_btree_axioms;

    assert(vstd::laws_cmp::obeys_cmp::<&u64>());
    assert forall|i: int, j: int| 0 <= i < j < keys.len() implies *keys[i] < *keys[j] by {
        assert(OrdSpec::cmp_spec(&keys[i], &keys[j]) is Less);
    }
}

/// An order rests at one price of a side.
pub open spec fn single(levels: Levels) -> bool {
    forall|a: i64, b: i64, id: u64|
        levels.contains_key(a) && levels.contains_key(b) && #[trigger] queued(levels[a], id)
            && #[trigger] queued(levels[b], id) ==> a == b
}

/// Every record of a side is of an order that rests there.
pub open spec fn listed(levels: Levels, side: Side, resting: Map<u64, OrderInfo>) -> bool {
    forall|id: u64| #[trigger]
        resting.contains_key(id) && resting[id].side == side ==> levels.contains_key(
            resting[id].price,
        ) && queued(levels[resting[id].price], id)
}

/// The resting orders after a run of fills.
pub open spec fn resting_after(resting: Map<u64, OrderInfo>, fills: Seq<Fill>) -> Map<u64, OrderInfo>
    decreases fills.len(),
{
    if fills.len() == 0 {
        resting
    } else {
        resting_filled(resting_after(resting, fills.drop_last()), fills.last())
    }
}

/// A run of fills can be taken from its front as well.
pub proof fn lemma_resting_after_front(resting: Map<u64, OrderInfo>, fill: Fill, rest: Seq<Fill>)
    ensures
        resting_after(resting, seq![fill] + rest) == resting_after(
            resting_filled(resting, fill),
            rest,
        ),
    decreases rest.len(),
{
    let all = seq![fill] + rest;
    if rest.len() == 0 {
        assert(all.drop_last() =~= Seq::<Fill>::empty());
        assert(all.last() == fill);
        assert(resting_after(resting, all.drop_last()) == resting);
    } else {
        assert(all.drop_last() =~= seq![fill] + rest.drop_last());
        lemma_resting_after_front(resting, fill, rest.drop_last());
        assert(all.last() == rest.last());
    }
}

/// Recording fills changes the resting orders by those fills alone.
pub proof fn lemma_recorded_resting(
    v: ExchangeView,
    taker: usize,
    fills: Seq<Fill>,
    time: u64,
    mid2: Option<u64>,
)
    ensures
        ({
            let after = v.recorded(taker, fills, time, mid2).exchange;
            &&& after.resting == resting_after(v.resting, fills)
            &&& after.book == v.book
            &&& after.symbol == v.symbol
            &&& after.is_open == v.is_open
            &&& after.next_order_id == v.next_order_id
            &&& after.l1_bucket_ns == v.l1_bucket_ns
            &&& after.keep_trades == v.keep_trades
        }),
    decreases fills.len(),
{
    if fills.len() > 0 {
        lemma_recorded_resting(v, taker, fills.drop_last(), time, mid2);
    }
}

/// Room for a run of fills is room for each shorter one.
pub proof fn lemma_record_room_prefix(
    v: ExchangeView,
    taker: usize,
    fills: Seq<Fill>,
    time: u64,
    mid2: Option<u64>,
    count: int,
)
    requires
        0 <= count <= fills.len(),
        v.record_room(taker, fills, time, mid2),
    ensures
        v.record_room(taker, fills.take(count), time, mid2),
    decreases fills.len(),
{
    if count == fills.len() {
        assert(fills.take(count) =~= fills);
    } else {
        lemma_record_room_prefix(v, taker, fills.drop_last(), time, mid2, count);
        assert(fills.drop_last().take(count) =~= fills.take(count));
    }
}

/// Records and book agree after a sweep as they did before, and the records
/// of the other side are untouched.
pub proof fn lemma_sweep_owned(
    levels: Levels,
    taker_side: Side,
    taker_id: u64,
    limit: Option<i64>,
    remaining: nat,
    resting: Map<u64, OrderInfo>,
)
    requires
        levels_wf(levels),
        single(levels),
        owned(levels, taker_side.spec_opposite(), resting),
        listed(levels, taker_side.spec_opposite(), resting),
        resting.dom().finite(),
    ensures
        ({
            let outcome = sweep(levels, taker_side, taker_id, limit, remaining);
            let after = resting_after(resting, outcome.fills);
            &&& owned(outcome.levels, taker_side.spec_opposite(), after)
            &&& listed(outcome.levels, taker_side.spec_opposite(), after)
            &&& single(outcome.levels)
            &&& after.dom().finite()
            &&& forall|id: u64| #[trigger]
                after.contains_key(id) ==> resting.contains_key(id) && after[id].side
                    == resting[id].side && after[id].price == resting[id].price
            &&& forall|id: u64| #[trigger]
                resting.contains_key(id) && resting[id].side == taker_side ==> after.contains_key(id)
                    && after[id] == resting[id]
        }),
    decreases remaining,
{
    let side = taker_side.spec_opposite();
    match next_maker(levels, taker_side, limit, remaining) {
        None => {},
        Some(price) => {
            let queue = levels[price];
            let front = queue[0];
            let qty = least(front.qty as nat, remaining);
            let fill = Fill {
                maker_order_id: front.id,
                taker_order_id: taker_id,
                price,
                qty: qty as u64,
                taker_side,
            };
            let next = front_filled(queue, qty);
            let after = with_queue(levels, price, next);
            assert(is_best(levels, side, price));
            lemma_level_filled_wf(levels, price, qty);
            lemma_step_owned(levels, side, price, qty, fill, resting);
            let left = (remaining - qty) as nat;
            lemma_sweep_owned(
                after,
                taker_side,
                taker_id,
                limit,
                left,
                resting_filled(resting, fill),
            );
            let rest = sweep(after, taker_side, taker_id, limit, left);
            lemma_resting_after_front(resting, fill, rest.fills);
        },
    }
}

/// Records and book agree after one fill as they did before.
pub proof fn lemma_step_owned(
    levels: Levels,
    side: Side,
    price: i64,
    qty: nat,
    fill: Fill,
    resting: Map<u64, OrderInfo>,
)
    requires
        levels_wf(levels),
        single(levels),
        owned(levels, side, resting),
        listed(levels, side, resting),
        resting.dom().finite(),
        levels.contains_key(price),
        0 < qty <= levels[price][0].qty,
        fill.maker_order_id == levels[price][0].id,
        fill.qty == qty,
    ensures
        ({
            let after = with_queue(levels, price, front_filled(levels[price], qty));
            let resting2 = resting_filled(resting, fill);
            &&& owned(after, side, resting2)
            &&& listed(after, side, resting2)
            &&& single(after)
            &&& resting2.dom().finite()
            &&& forall|id: u64| #[trigger]
                resting2.contains_key(id) ==> resting.contains_key(id) && resting2[id].side
                    == resting[id].side && resting2[id].price == resting[id].price
            &&& forall|id: u64| #[trigger]
                resting.contains_key(id) && resting[id].side != side ==> resting2.contains_key(id)
                    && resting2[id] == resting[id]
        }),
{
    let queue = levels[price];
    let front = queue[0];
    let next = front_filled(queue, qty);
    let after = with_queue(levels, price, next);
    let resting2 = resting_filled(resting, fill);
    let shift: int = if qty == front.qty {
        1
    } else {
        0
    };
    assert(resting.contains_key(levels[price][0].id));
    assert(resting[front.id].remaining_qty == front.qty);
    assert forall|i: int|
        0 <= i < next.len() implies (#[trigger] next[i]).id == queue[i + shift].id by {}
    assert forall|p: i64, i: int|
        after.contains_key(p) && 0 <= i < after[p].len() implies {
        let order = #[trigger] after[p][i];
        &&& resting2.contains_key(order.id)
        &&& resting2[order.id].side == side
        &&& resting2[order.id].price == p
        &&& resting2[order.id].remaining_qty == order.qty
    } by {
        if p == price {
            assert(next[i].id == queue[i + shift].id);
            let source = levels[price][i + shift];
            assert(resting.contains_key(source.id));
            if i + shift > 0 {
                assert(queue[0].id != queue[i + shift].id);
            }
        } else {
            let order = levels[p][i];
            assert(resting.contains_key(order.id));
            if order.id == front.id {
                assert(queued(levels[p], front.id));
                assert(queued(levels[price], front.id));
            }
        }
    }
    assert forall|id: u64| #[trigger]
        resting2.contains_key(id) && resting2[id].side == side implies after.contains_key(
        resting2[id].price,
    ) && queued(after[resting2[id].price], id) by {
        assert(resting.contains_key(id));
        let p = resting[id].price;
        if p == price {
            let i = choose|i: int| 0 <= i < queue.len() && (#[trigger] queue[i]).id == id;
            assert(next[i - shift].id == id);
        }
    }
    assert forall|a: i64, b: i64, id: u64|
        after.contains_key(a) && after.contains_key(b) && #[trigger] queued(after[a], id)
            && #[trigger] queued(after[b], id) implies a == b by {
        if next.len() > 0 {
            lemma_front_filled_wf(queue, qty);
        }
        assert(queued(levels[a], id));
        assert(queued(levels[b], id));
    }
}

/// Filled quantity adds up over the two parts of a run.
pub proof fn lemma_filled_concat(a: Seq<Fill>, b: Seq<Fill>)
    ensures
        filled_qty(a + b) == filled_qty(a) + filled_qty(b),
    decreases b.len(),
{
    if b.len() == 0 {
        assert(a + b =~= a);
    } else {
        assert((a + b).drop_last() =~= a + b.drop_last());
        lemma_filled_concat(a, b.drop_last());
    }
}

/// A run of fills is worth at most the highest price for each unit.
pub proof fn lemma_fills_notional_bound(fills: Seq<Fill>)
    requires
        forall|i: int| 0 <= i < fills.len() ==> (#[trigger] fills[i]).price >= 0,
    ensures
        fills_notional(fills) <= i64::MAX * filled_qty(fills),
    decreases fills.len(),
{
    if fills.len() > 0 {
        let rest = fills.drop_last();
        let last = fills.last();
        assert(fills[fills.len() - 1].price >= 0);
        assert forall|i: int| 0 <= i < rest.len() implies (#[trigger] rest[i]).price >= 0 by {
            assert(fills[i].price >= 0);
        }
        lemma_fills_notional_bound(rest);
        lemma_notional_fits(last.price, last.qty);
        assert(last.price * last.qty <= i64::MAX * last.qty) by (nonlinear_arith)
            requires
                0 <= last.price <= i64::MAX,
                0 <= last.qty,
        ;
    }
}

/// Matching splits the taker's quantity into what its fills trade and what
/// remains, and every fill is a trade of positive quantity, within the limit,
/// at a price of the maker side.
pub proof fn lemma_sweep_conserves(
    levels: Levels,
    taker_side: Side,
    taker_id: u64,
    limit: Option<i64>,
    remaining: nat,
)
    requires
        levels_wf(levels),
    ensures
        ({
            let outcome = sweep(levels, taker_side, taker_id, limit, remaining);
            &&& filled_qty(outcome.fills) + outcome.remaining == remaining
            &&& forall|i: int|
                0 <= i < outcome.fills.len() ==> {
                    let fill = #[trigger] outcome.fills[i];
                    &&& fill.price >= 0
                    &&& fill.qty > 0
                    &&& fill.taker_side == taker_side
                    &&& fill.taker_order_id == taker_id
                    &&& within(taker_side, limit, fill.price)
                    &&& levels.contains_key(fill.price)
                }
        }),
    decreases remaining,
{
    match next_maker(levels, taker_side, limit, remaining) {
        None => {},
        Some(price) => {
            let front = levels[price][0];
            let qty = least(front.qty as nat, remaining);
            let after = with_queue(levels, price, front_filled(levels[price], qty));
            let left = (remaining - qty) as nat;
            assert(is_best(levels, taker_side.spec_opposite(), price));
            lemma_level_filled_wf(levels, price, qty);
            lemma_sweep_conserves(after, taker_side, taker_id, limit, left);
            let rest = sweep(after, taker_side, taker_id, limit, left);
            let whole = sweep(levels, taker_side, taker_id, limit, remaining);
            let first = seq![whole.fills[0]];
            lemma_filled_concat(first, rest.fills);
            assert(first.drop_last() =~= Seq::<Fill>::empty());
            assert(filled_qty(first.drop_last()) == 0);
            assert(filled_qty(first) == qty);
            assert forall|i: int| 0 <= i < whole.fills.len() implies {
                let fill = #[trigger] whole.fills[i];
                &&& fill.price >= 0
                &&& fill.qty > 0
                &&& fill.taker_side == taker_side
                &&& fill.taker_order_id == taker_id
                &&& within(taker_side, limit, fill.price)
                &&& levels.contains_key(fill.price)
            } by {
                if i > 0 {
                    assert(whole.fills[i] == rest.fills[i - 1]);
                    assert(after.contains_key(rest.fills[i - 1].price));
                }
            }
        },
    }
}

/// The two sides of a valid exchange, each taken by itself.
pub proof fn lemma_wf_sides(v: ExchangeView, side: Side)
    requires
        v.wf(),
    ensures
        levels_wf(v.book.side(side)),
        single(v.book.side(side)),
        owned(v.book.side(side), side, v.resting),
        listed(v.book.side(side), side, v.resting),
{
    let levels = v.book.side(side);
    assert forall|a: i64, b: i64, id: u64|
        levels.contains_key(a) && levels.contains_key(b) && #[trigger] queued(levels[a], id)
            && #[trigger] queued(levels[b], id) implies a == b by {
        assert(v.book.rests_at(id, side, a));
        assert(v.book.rests_at(id, side, b));
    }
    assert forall|id: u64| #[trigger]
        v.resting.contains_key(id) && v.resting[id].side == side implies levels.contains_key(
        v.resting[id].price,
    ) && queued(levels[v.resting[id].price], id) by {
        assert(v.book.rests_at(id, side, v.resting[id].price));
    }
}

/// What is left to rest of a new order of `side`, if anything.
pub open spec fn rest_of(order: NewOrder, remaining: nat, time: u64) -> RestingOrder {
    RestingOrder { id: order.id, qty: remaining as u64, timestamp: time }
}

/// Book and records agree after a new order as they did before.
pub proof fn lemma_executed_wf(
    v: ExchangeView,
    agent_id: usize,
    order: NewOrder,
    limit: Option<i64>,
    book: BookView,
    status: OrderStatus,
    time: u64,
)
    requires
        v.wf(),
        order.id == v.next_order_id,
        v.next_order_id < u64::MAX,
        book.wf(),
        ({
            let maker_side = order.side.spec_opposite();
            let outcome = sweep(
                v.book.side(maker_side),
                order.side,
                order.id,
                limit,
                order.qty as nat,
            );
            let swept = v.book.with_side(maker_side, outcome.levels);
            let after = v.executed(agent_id, order, limit, book, outcome.fills, status, time);
            &&& after.exchange.flow matches Some(flow) ==> flow.wf()
            &&& outcome.remaining <= order.qty
            &&& match status {
                OrderStatus::Filled => book == swept,
                OrderStatus::Cancelled { filled_qty } => book == swept,
                OrderStatus::Placed => {
                    &&& outcome.remaining == order.qty
                    &&& book == swept.with_side(
                        order.side,
                        with_resting(
                            v.book.side(order.side),
                            order.price,
                            rest_of(order, outcome.remaining, time),
                        ),
                    )
                },
                OrderStatus::Resting { remaining_qty } => {
                    &&& outcome.remaining == remaining_qty
                    &&& book == swept.with_side(
                        order.side,
                        with_resting(
                            v.book.side(order.side),
                            order.price,
                            rest_of(order, outcome.remaining, time),
                        ),
                    )
                },
            }
        }),
    ensures
        ({
            let outcome = sweep(
                v.book.side(order.side.spec_opposite()),
                order.side,
                order.id,
                limit,
                order.qty as nat,
            );
            v.executed(agent_id, order, limit, book, outcome.fills, status, time).exchange.wf()
        }),
{
    let side = order.side;
    let maker_side = side.spec_opposite();
    let outcome = sweep(v.book.side(maker_side), side, order.id, limit, order.qty as nat);
    let fills = outcome.fills;
    let matched = ExchangeView { book, ..v.admitted(agent_id, order, limit, time) };
    let after = v.executed(agent_id, order, limit, book, fills, status, time).exchange;
    lemma_wf_sides(v, side);
    lemma_wf_sides(v, maker_side);
    lemma_sweep_owned(
        v.book.side(maker_side),
        side,
        order.id,
        limit,
        order.qty as nat,
        v.resting,
    );
    lemma_recorded_resting(matched, agent_id, fills, time, v.mid2());
    let kept = resting_after(v.resting, fills);
    assert(!v.resting.contains_key(order.id));
    assert(!kept.contains_key(order.id));
    let rests = status is Placed || status is Resting;
    let levels = v.book.side(side);
    assert(owned(levels, side, kept)) by {
        assert forall|price: i64, i: int|
            levels.contains_key(price) && 0 <= i < levels[price].len() implies {
            let o = #[trigger] levels[price][i];
            &&& kept.contains_key(o.id)
            &&& kept[o.id].side == side
            &&& kept[o.id].price == price
            &&& kept[o.id].remaining_qty == o.qty
        } by {
            let o = levels[price][i];
            assert(v.resting.contains_key(o.id));
        }
    }
    assert(listed(levels, side, kept)) by {
        assert forall|id: u64| #[trigger]
            kept.contains_key(id) && kept[id].side == side implies levels.contains_key(
            kept[id].price,
        ) && queued(levels[kept[id].price], id) by {
            assert(v.resting.contains_key(id));
        }
    }
    if !rests {
        assert(after.resting == kept);
        assert(book.side(side) == levels);
        assert(book.side(maker_side) == outcome.levels);
        assert forall|id: u64| #[trigger] after.resting.contains_key(id) implies {
            &&& id < after.next_order_id
            &&& after.book.rests_at(id, after.resting[id].side, after.resting[id].price)
        } by {
            assert(v.resting.contains_key(id));
        }
    } else {
        let resting_order = rest_of(order, outcome.remaining, time);
        lemma_placed_owned(levels, side, order, resting_order, kept, after.resting);
        lemma_insert_other_side(outcome.levels, maker_side, kept, after.resting, order.id);
        assert(book.side(side) == with_resting(levels, order.price, resting_order));
        assert(book.side(maker_side) == outcome.levels);
        assert forall|id: u64| #[trigger] after.resting.contains_key(id) implies {
            &&& id < after.next_order_id
            &&& after.book.rests_at(id, after.resting[id].side, after.resting[id].price)
        } by {
            if id != order.id {
                assert(kept.contains_key(id));
                assert(v.resting.contains_key(id));
            }
        }
    }
}

/// A record of one side does not disturb the other.
proof fn lemma_insert_other_side(
    levels: Levels,
    side: Side,
    before: Map<u64, OrderInfo>,
    after: Map<u64, OrderInfo>,
    id: u64,
)
    requires
        owned(levels, side, before),
        listed(levels, side, before),
        !before.contains_key(id),
        after == before.insert(id, after[id]),
        after[id].side != side,
    ensures
        owned(levels, side, after),
        listed(levels, side, after),
{
    assert forall|price: i64, i: int|
        levels.contains_key(price) && 0 <= i < levels[price].len() implies {
        let o = #[trigger] levels[price][i];
        &&& after.contains_key(o.id)
        &&& after[o.id].side == side
        &&& after[o.id].price == price
        &&& after[o.id].remaining_qty == o.qty
    } by {
        let o = levels[price][i];
        assert(before.contains_key(o.id));
    }
    assert forall|k: u64| #[trigger]
        after.contains_key(k) && after[k].side == side implies levels.contains_key(after[k].price)
        && queued(levels[after[k].price], k) by {
        assert(before.contains_key(k));
    }
}

/// A new record matches the order newly placed at the end of the line.
proof fn lemma_placed_owned(
    levels: Levels,
    side: Side,
    order: NewOrder,
    placed: RestingOrder,
    before: Map<u64, OrderInfo>,
    after: Map<u64, OrderInfo>,
)
    requires
        owned(levels, side, before),
        listed(levels, side, before),
        placed.id == order.id,
        !before.contains_key(order.id),
        after == before.insert(order.id, after[order.id]),
        after[order.id].side == side,
        after[order.id].price == order.price,
        after[order.id].remaining_qty == placed.qty,
    ensures
        owned(with_resting(levels, order.price, placed), side, after),
        listed(with_resting(levels, order.price, placed), side, after),
{
    let grown = with_resting(levels, order.price, placed);
    assert forall|price: i64, i: int|
        grown.contains_key(price) && 0 <= i < grown[price].len() implies {
        let o = #[trigger] grown[price][i];
        &&& after.contains_key(o.id)
        &&& after[o.id].side == side
        &&& after[o.id].price == price
        &&& after[o.id].remaining_qty == o.qty
    } by {
        let o = grown[price][i];
        if price == order.price && i == grown[price].len() - 1 {
            assert(o == placed);
        } else {
            assert(levels.contains_key(price));
            assert(o == levels[price][i]);
            assert(before.contains_key(o.id));
        }
    }
    assert forall|k: u64| #[trigger]
        after.contains_key(k) && after[k].side == side implies grown.contains_key(after[k].price)
        && queued(grown[after[k].price], k) by {
        let price = after[k].price;
        if k == order.id {
            let last = grown[price].len() - 1;
            assert(grown[price][last].id == k);
        } else {
            assert(before.contains_key(k));
            let queue = levels[price];
            let i = choose|i: int| 0 <= i < queue.len() && (#[trigger] queue[i]).id == k;
            assert(grown[price][i] == queue[i]);
        }
    }
}

/// Book and records agree after a cancellation as they did before.
pub proof fn lemma_cancelled_wf(v: ExchangeView, w: ExchangeView, id: u64)
    requires
        v.wf(),
        v.book.rests(id),
        w.book.wf(),
        w.book.bids == levels_without(v.book.bids, id),
        w.book.asks == levels_without(v.book.asks, id),
        w.resting == v.resting.remove(id),
        w.next_order_id == v.next_order_id,
        w.flow matches Some(flow) ==> flow.wf(),
    ensures
        w.wf(),
{
    lemma_cancelled_side(v.book.bids, Side::Bid, v.resting, id);
    lemma_cancelled_side(v.book.asks, Side::Ask, v.resting, id);
    assert forall|k: u64| #[trigger] w.resting.contains_key(k) implies {
        &&& k < w.next_order_id
        &&& w.book.rests_at(k, w.resting[k].side, w.resting[k].price)
    } by {
        assert(v.resting.contains_key(k));
        let side = v.resting[k].side;
        let price = v.resting[k].price;
        let queue = v.book.side(side)[price];
        let other = |order: RestingOrder| order.id != id;
        let j = choose|j: int| 0 <= j < queue.len() && (#[trigger] queue[j]).id == k;
        lemma_filter_keeps(queue, other, j);
        let i = choose|i: int|
            0 <= i < queue.filter(other).len() && #[trigger] queue.filter(other)[i] == queue[j];
        assert(without(queue, id)[i].id == k);
    }
}

proof fn lemma_cancelled_side(levels: Levels, side: Side, resting: Map<u64, OrderInfo>, id: u64)
    requires
        owned(levels, side, resting),
    ensures
        owned(levels_without(levels, id), side, resting.remove(id)),
{
    let after = levels_without(levels, id);
    assert forall|price: i64, i: int|
        after.contains_key(price) && 0 <= i < after[price].len() implies {
        let o = #[trigger] after[price][i];
        &&& resting.remove(id).contains_key(o.id)
        &&& resting.remove(id)[o.id].side == side
        &&& resting.remove(id)[o.id].price == price
        &&& resting.remove(id)[o.id].remaining_qty == o.qty
    } by {
        let queue = levels[price];
        let other = |order: RestingOrder| order.id != id;
        lemma_filter_member(queue, other, i);
        let j = choose|j: int| 0 <= j < queue.len() && #[trigger] queue[j] == after[price][i];
        assert(resting.contains_key(levels[price][j].id));
    }
}

} // verus!
