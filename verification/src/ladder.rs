//! One side of a book as it is stored: price levels with their queues.
//!
//! Cancellation is lazy. A cancelled order stays queued at its price level and
//! is skipped when matching reaches it. The lookup from order id to order is
//! the authority on what is live, so a queue entry missing from it *is* the
//! tombstone: no separate set of cancelled ids is kept, which bounds the
//! memory of a book over a long run.

use crate::book_lemmas::{
    lemma_best_unique, lemma_filter_cong, lemma_filter_distinct, lemma_filter_filter,
    lemma_filter_front, lemma_filter_keeps, lemma_filter_member, lemma_filter_push,
    lemma_sum_of_empty, lemma_sum_of_insert, lemma_sum_of_subset, lemma_sweep_level,
    lemma_sweep_queue_shrinks, lemma_volume_front, lemma_volume_front_filled,
    lemma_volume_positive, lemma_volume_push, lemma_volume_without, lemma_without_absent,
    sweep_queue, QueueSweep,
};
use crate::book_model::{
    ahead, depth_notional, depth_qty, distinct, front_filled, is_best, least, levels_wf,
    levels_without, queue_wf, queued, reachable, sum_of, sweep, volume, volume_at, with_queue,
    with_resting, without, Levels, Sweep,
};
use crate::fills::Fill;
use crate::order::{RestingOrder, Side};
use std::collections::{BTreeMap, HashMap, VecDeque};
use vstd::prelude::*;
use vstd::std_specs::iter::IteratorSpec;

verus! {

broadcast use {
    vstd::std_specs::hash::group_hash_axioms,
    vstd::std_specs::btree::group_btree_axioms,
};

/// Orders queued at a single price level, with cached total volume.
pub struct PriceLevel {
    pub orders: VecDeque<RestingOrder>,
    pub total_qty: u64,
}

/// Order id to (side, price, remaining quantity) of each live order.
pub type Lookup = Map<u64, (Side, i64, u64)>;

/// Order id to the (side, price) of the level that holds its queue entry,
/// live or cancelled.
pub type Homes = Map<u64, (Side, i64)>;

/// The live orders of a queue.
pub open spec fn live(queue: Seq<RestingOrder>, lookup: Lookup) -> Seq<RestingOrder> {
    queue.filter(|order: RestingOrder| lookup.contains_key(order.id))
}

/// The live orders of a side.
pub open spec fn live_levels(levels: Map<i64, PriceLevel>, lookup: Lookup) -> Levels {
    Map::new(|price: i64| levels.contains_key(price), |price: i64| live(levels[price].orders@, lookup))
}

/// A level's queue and cached volume agree with the lookup.
pub open spec fn level_agrees(
    level: PriceLevel,
    side: Side,
    price: i64,
    lookup: Lookup,
    homes: Homes,
) -> bool {
    let queue = level.orders@;
    &&& distinct(queue)
    &&& forall|i: int|
        0 <= i < queue.len() ==> {
            &&& homes.contains_key((#[trigger] queue[i]).id)
            &&& homes[queue[i].id] == (side, price)
            &&& lookup.contains_key(queue[i].id) ==> {
                &&& queue[i].qty > 0
                &&& lookup[queue[i].id] == (side, price, queue[i].qty)
            }
        }
    &&& level.total_qty == volume(live(queue, lookup))
}

/// Every level of a side agrees with the lookup and holds a live order.
pub open spec fn ladder_agrees(
    levels: Map<i64, PriceLevel>,
    side: Side,
    lookup: Lookup,
    homes: Homes,
) -> bool {
    forall|price: i64| #[trigger]
        levels.contains_key(price) ==> {
            &&& price >= 0
            &&& level_agrees(levels[price], side, price, lookup, homes)
            &&& live(levels[price].orders@, lookup).len() > 0
        }
}

/// Every live order of a side, and every queue entry it is said to hold, is
/// in the queue at its price.
pub open spec fn ladder_complete(
    levels: Map<i64, PriceLevel>,
    side: Side,
    lookup: Lookup,
    homes: Homes,
) -> bool {
    &&& forall|id: u64| #[trigger]
        lookup.contains_key(id) && lookup[id].0 == side ==> homes.contains_key(id) && homes[id] == (
            side,
            lookup[id].1,
        )
    &&& forall|id: u64| #[trigger]
        homes.contains_key(id) && homes[id].0 == side ==> levels.contains_key(homes[id].1) && queued(
            levels[homes[id].1].orders@,
            id,
        )
}

/// The lookup is the same for every order that is not queued at `price`.
pub open spec fn same_elsewhere(
    before: Lookup,
    after: Lookup,
    homes: Homes,
    side: Side,
    price: i64,
) -> bool {
    forall|id: u64|
        #![trigger after.contains_key(id)]
        #![trigger before.contains_key(id)]
        !(homes.contains_key(id) && homes[id] == (side, price)) ==> {
            &&& after.contains_key(id) <==> before.contains_key(id)
            &&& after[id] == before[id]
        }
}

/// Orders only leave the lookup, and none moves.
pub open spec fn only_leave(before: Lookup, after: Lookup) -> bool {
    forall|id: u64| #[trigger]
        after.contains_key(id) ==> {
            &&& before.contains_key(id)
            &&& after[id].0 == before[id].0
            &&& after[id].1 == before[id].1
        }
}

proof fn lemma_same_elsewhere_twice(
    a: Lookup,
    b: Lookup,
    c: Lookup,
    homes: Homes,
    side: Side,
    price: i64,
)
    requires
        same_elsewhere(a, b, homes, side, price),
        same_elsewhere(b, c, homes, side, price),
    ensures
        same_elsewhere(a, c, homes, side, price),
{
    assert forall|id: u64|
        #![trigger c.contains_key(id)]
        #![trigger a.contains_key(id)]
        !(homes.contains_key(id) && homes[id] == (side, price)) implies {
        &&& c.contains_key(id) <==> a.contains_key(id)
        &&& c[id] == a[id]
    } by {
        assert(b.contains_key(id) <==> a.contains_key(id));
    }
}

/// Pop cancelled tombstones from the front of a price level's queue.
///
/// A queued order is a tombstone exactly when the lookup no longer holds it:
/// a full fill drops it from the queue and from the lookup together, so a
/// queue entry with no lookup record can only have been cancelled.
pub(crate) fn drain_tombstones(level: &mut PriceLevel, lookup: &HashMap<u64, (Side, i64, u64)>)
    ensures
        final(level).total_qty == old(level).total_qty,
        live(final(level).orders@, lookup@) == live(old(level).orders@, lookup@),
        final(level).orders@.len() > 0 ==> lookup@.contains_key(final(level).orders@[0].id),
        exists|k: int|
            0 <= k <= old(level).orders@.len()
                && final(level).orders@ == #[trigger] old(level).orders@.skip(k),
        forall|id: u64|
            lookup@.contains_key(id) && #[trigger] queued(old(level).orders@, id) ==> queued(
                final(level).orders@,
                id,
            ),
{
    let ghost start = level.orders@;
    let ghost mut k: int = 0;
    assert(start.skip(0) =~= start);
    while level.orders.len() > 0
        invariant
            start == old(level).orders@,
            level.total_qty == old(level).total_qty,
            0 <= k <= start.len(),
            level.orders@ == start.skip(k),
            live(level.orders@, lookup@) == live(start, lookup@),
            forall|id: u64|
                lookup@.contains_key(id) && #[trigger] queued(start, id) ==> queued(
                    level.orders@,
                    id,
                ),
        ensures
            level.orders@.len() > 0 ==> lookup@.contains_key(level.orders@[0].id),
        decreases level.orders@.len(),
    {
        let front: RestingOrder = level.orders[0];
        if lookup.contains_key(&front.id) {
            break;
        }
        let ghost queue = level.orders@;
        level.orders.pop_front();
        proof {
            lemma_filter_front(queue, |order: RestingOrder| lookup@.contains_key(order.id));
            assert(level.orders@ =~= queue.drop_first());
            assert(queue.drop_first() =~= start.skip(k + 1));
            k = k + 1;
            assert forall|id: u64|
                lookup@.contains_key(id) && #[trigger] queued(start, id) implies queued(
                level.orders@,
                id,
            ) by {
                let i = choose|i: int| 0 <= i < queue.len() && (#[trigger] queue[i]).id == id;
                assert(level.orders@[i - 1].id == id);
            }
        }
    }
}

/// Every live order that belongs at `price` is in the queue there.
pub open spec fn level_complete(
    level: PriceLevel,
    side: Side,
    price: i64,
    lookup: Lookup,
    homes: Homes,
) -> bool {
    forall|id: u64| #[trigger]
        lookup.contains_key(id) && homes.contains_key(id) && homes[id] == (side, price) ==> queued(
            level.orders@,
            id,
        )
}

/// Live orders are the same under lookups that agree on the queue's ids.
pub proof fn lemma_live_same(queue: Seq<RestingOrder>, a: Lookup, b: Lookup)
    requires
        forall|i: int|
            0 <= i < queue.len() ==> a.contains_key((#[trigger] queue[i]).id) == b.contains_key(
                queue[i].id,
            ),
    ensures
        live(queue, a) == live(queue, b),
{
    lemma_filter_cong(
        queue,
        |order: RestingOrder| a.contains_key(order.id),
        |order: RestingOrder| b.contains_key(order.id),
    );
}

/// One fill against the first order in line keeps a level in agreement.
proof fn lemma_fill_front(
    before: PriceLevel,
    after: PriceLevel,
    side: Side,
    price: i64,
    lookup: Lookup,
    lookup_after: Lookup,
    homes: Homes,
    qty: u64,
)
    requires
        level_agrees(before, side, price, lookup, homes),
        level_complete(before, side, price, lookup, homes),
        before.orders@.len() > 0,
        lookup.contains_key(before.orders@[0].id),
        0 < qty <= before.orders@[0].qty,
        after.total_qty == before.total_qty - qty,
        qty == before.orders@[0].qty ==> {
            &&& after.orders@ == before.orders@.drop_first()
            &&& lookup_after == lookup.remove(before.orders@[0].id)
        },
        qty < before.orders@[0].qty ==> {
            let front = before.orders@[0];
            let left = (front.qty - qty) as u64;
            &&& after.orders@ == before.orders@.update(0, RestingOrder { qty: left, ..front })
            &&& lookup_after == lookup.insert(front.id, (side, price, left))
        },
    ensures
        live(before.orders@, lookup).len() > 0,
        live(before.orders@, lookup)[0] == before.orders@[0],
        live(after.orders@, lookup_after) == front_filled(live(before.orders@, lookup), qty as nat),
        level_agrees(after, side, price, lookup_after, homes),
        level_complete(after, side, price, lookup_after, homes),
        same_elsewhere(lookup, lookup_after, homes, side, price),
        only_leave(lookup, lookup_after),
{
    let queue = before.orders@;
    let next = after.orders@;
    let front = queue[0];
    let tail = queue.drop_first();
    let was_live = |order: RestingOrder| lookup.contains_key(order.id);
    let is_live = |order: RestingOrder| lookup_after.contains_key(order.id);
    lemma_filter_front(queue, was_live);
    assert forall|i: int| 0 <= i < tail.len() implies lookup.contains_key((#[trigger] tail[i]).id)
        == lookup_after.contains_key(tail[i].id) by {
        assert(tail[i] == queue[i + 1]);
        assert(queue[0].id != queue[i + 1].id);
    }
    lemma_live_same(tail, lookup, lookup_after);
    let lived = live(queue, lookup);
    assert(lived == seq![front] + live(tail, lookup));
    assert(lived.drop_first() =~= live(tail, lookup));
    if qty < front.qty {
        lemma_filter_front(next, is_live);
        assert(next.drop_first() =~= tail);
        assert(live(next, lookup_after) =~= front_filled(lived, qty as nat));
    }
    lemma_volume_front_filled(lived, qty as nat);
    assert forall|i: int, j: int| 0 <= i < j < next.len() implies (#[trigger] next[i]).id != (
    #[trigger] next[j]).id by {
        if qty == front.qty {
            assert(queue[i + 1].id != queue[j + 1].id);
        } else {
            assert(queue[i].id != queue[j].id);
        }
    }
    assert forall|i: int| 0 <= i < next.len() implies {
        &&& homes.contains_key((#[trigger] next[i]).id)
        &&& homes[next[i].id] == (side, price)
        &&& lookup_after.contains_key(next[i].id) ==> {
            &&& next[i].qty > 0
            &&& lookup_after[next[i].id] == (side, price, next[i].qty)
        }
    } by {
        if qty == front.qty {
            assert(next[i] == queue[i + 1]);
            assert(queue[0].id != queue[i + 1].id);
        } else if i > 0 {
            assert(next[i] == queue[i]);
            assert(queue[0].id != queue[i].id);
        }
    }
    assert forall|id: u64| #[trigger]
        lookup_after.contains_key(id) && homes.contains_key(id) && homes[id] == (
            side,
            price,
        ) implies queued(next, id) by {
        assert(lookup.contains_key(id));
        let i = choose|i: int| 0 <= i < queue.len() && (#[trigger] queue[i]).id == id;
        if qty == front.qty {
            assert(next[i - 1].id == id);
        } else {
            assert(next[i].id == id);
        }
    }
}

/// Dropping entries from the front that are not live keeps a level in
/// agreement.
proof fn lemma_drained(
    before: PriceLevel,
    after: PriceLevel,
    side: Side,
    price: i64,
    lookup: Lookup,
    homes: Homes,
    k: int,
)
    requires
        level_agrees(before, side, price, lookup, homes),
        0 <= k <= before.orders@.len(),
        after.orders@ == before.orders@.skip(k),
        after.total_qty == before.total_qty,
        live(after.orders@, lookup) == live(before.orders@, lookup),
    ensures
        level_agrees(after, side, price, lookup, homes),
{
    let queue = before.orders@;
    let next = after.orders@;
    assert forall|i: int, j: int| 0 <= i < j < next.len() implies (#[trigger] next[i]).id != (
    #[trigger] next[j]).id by {
        assert(queue[i + k].id != queue[j + k].id);
    }
    assert forall|i: int| 0 <= i < next.len() implies {
        &&& homes.contains_key((#[trigger] next[i]).id)
        &&& homes[next[i].id] == (side, price)
        &&& lookup.contains_key(next[i].id) ==> {
            &&& next[i].qty > 0
            &&& lookup[next[i].id] == (side, price, next[i].qty)
        }
    } by {
        assert(next[i] == queue[i + k]);
    }
}

/// Fill a taker from the front of one level's queue.
pub(crate) fn fill_level(
    level: &mut PriceLevel,
    lookup: &mut HashMap<u64, (Side, i64, u64)>,
    taker_side: Side,
    taker_id: u64,
    price: i64,
    remaining: &mut u64,
    fills: &mut Vec<Fill>,
    Ghost(homes): Ghost<Homes>,
)
    requires
        level_agrees(*old(level), taker_side.spec_opposite(), price, old(lookup)@, homes),
        level_complete(*old(level), taker_side.spec_opposite(), price, old(lookup)@, homes),
    ensures
        level_agrees(*final(level), taker_side.spec_opposite(), price, final(lookup)@, homes),
        level_complete(*final(level), taker_side.spec_opposite(), price, final(lookup)@, homes),
        same_elsewhere(old(lookup)@, final(lookup)@, homes, taker_side.spec_opposite(), price),
        only_leave(old(lookup)@, final(lookup)@),
        final(level).orders@.len() > 0 ==> live(final(level).orders@, final(lookup)@).len() > 0,
        ({
            let taken = sweep_queue(
                live(old(level).orders@, old(lookup)@),
                price,
                taker_side,
                taker_id,
                *old(remaining) as nat,
            );
            &&& live(final(level).orders@, final(lookup)@) == taken.queue
            &&& final(fills)@ == old(fills)@ + taken.fills
            &&& *final(remaining) == taken.remaining
        }),
{
    let ghost side = taker_side.spec_opposite();
    let ghost whole = sweep_queue(
        live(level.orders@, lookup@),
        price,
        taker_side,
        taker_id,
        *remaining as nat,
    );
    let ghost lookup0 = lookup@;
    let ghost fills0 = fills@;
    let ghost mut done: Seq<Fill> = Seq::empty();
    let ghost start = *level;
    drain_tombstones(level, lookup);
    proof {
        let k = choose|k: int|
            0 <= k <= start.orders@.len() && level.orders@ == #[trigger] start.orders@.skip(k);
        lemma_drained(start, *level, side, price, lookup@, homes, k);
        assert(done + whole.fills =~= whole.fills);
        assert(fills0 + done =~= fills0);
    }
    while *remaining > 0 && level.orders.len() > 0
        invariant
            side == taker_side.spec_opposite(),
            level_agrees(*level, side, price, lookup@, homes),
            level_complete(*level, side, price, lookup@, homes),
            same_elsewhere(lookup0, lookup@, homes, side, price),
            only_leave(lookup0, lookup@),
            level.orders@.len() > 0 ==> lookup@.contains_key(level.orders@[0].id),
            fills@ == fills0 + done,
            ({
                let rest = sweep_queue(
                    live(level.orders@, lookup@),
                    price,
                    taker_side,
                    taker_id,
                    *remaining as nat,
                );
                whole == QueueSweep { fills: done + rest.fills, ..rest }
            }),
        decreases *remaining,
    {
        let ghost before = *level;
        let ghost lookup1 = lookup@;
        let ghost rest1 = sweep_queue(
            live(level.orders@, lookup@),
            price,
            taker_side,
            taker_id,
            *remaining as nat,
        );
        let front: RestingOrder = level.orders[0];
        let fill_qty: u64 = if *remaining < front.qty {
            *remaining
        } else {
            front.qty
        };
        let fill = Fill {
            maker_order_id: front.id,
            taker_order_id: taker_id,
            price,
            qty: fill_qty,
            taker_side,
        };
        fills.push(fill);
        proof {
            lemma_filter_front(level.orders@, |order: RestingOrder| lookup@.contains_key(order.id));
            lemma_volume_front(live(level.orders@, lookup@));
        }
        *remaining = *remaining - fill_qty;
        level.total_qty = level.total_qty - fill_qty;
        level.orders.pop_front();
        if front.qty == fill_qty {
            lookup.remove(&front.id);
        } else {
            let left: u64 = front.qty - fill_qty;
            level.orders.push_front(RestingOrder { qty: left, ..front });
            lookup.insert(front.id, (taker_side.opposite(), price, left));
            proof {
                assert(level.orders@ =~= before.orders@.update(0, RestingOrder { qty: left, ..front }));
            }
        }
        proof {
            lemma_fill_front(before, *level, side, price, lookup1, lookup@, homes, fill_qty);
            lemma_same_elsewhere_twice(lookup0, lookup1, lookup@, homes, side, price);
            let rest = sweep_queue(
                live(level.orders@, lookup@),
                price,
                taker_side,
                taker_id,
                *remaining as nat,
            );
            assert(rest1.fills == seq![fill] + rest.fills);
            assert(done + rest1.fills =~= done.push(fill) + rest.fills);
            done = done.push(fill);
            assert(fills@ =~= fills0 + done);
        }
        let ghost filled = *level;
        drain_tombstones(level, lookup);
        proof {
            let k = choose|k: int|
                0 <= k <= filled.orders@.len() && level.orders@ == #[trigger] filled.orders@.skip(k);
            lemma_drained(filled, *level, side, price, lookup@, homes, k);
        }
    }
    proof {
        let queue = level.orders@;
        if queue.len() > 0 {
            lemma_filter_front(queue, |order: RestingOrder| lookup@.contains_key(order.id));
        } else {
            reveal(Seq::filter);
        }
        assert(done + Seq::<Fill>::empty() =~= done);
    }
}

/// `BTreeMap::first_key_value`: the entry with the smallest key, `None` for an
/// empty map.
#[verifier::external_body]
fn lowest(levels: &BTreeMap<i64, PriceLevel>) -> (entry: Option<(&i64, &PriceLevel)>)
    ensures
        match entry {
            Some((price, level)) => {
                &&& levels@.contains_key(*price)
                &&& levels@[*price] == *level
                &&& forall|other: i64| #[trigger] levels@.contains_key(other) ==> *price <= other
            },
            None => levels@ == Map::<i64, PriceLevel>::empty(),
        },
{
    levels.first_key_value()
}

/// `BTreeMap::last_key_value`: the entry with the largest key, `None` for an
/// empty map.
#[verifier::external_body]
fn highest(levels: &BTreeMap<i64, PriceLevel>) -> (entry: Option<(&i64, &PriceLevel)>)
    ensures
        match entry {
            Some((price, level)) => {
                &&& levels@.contains_key(*price)
                &&& levels@[*price] == *level
                &&& forall|other: i64| #[trigger] levels@.contains_key(other) ==> other <= *price
            },
            None => levels@ == Map::<i64, PriceLevel>::empty(),
        },
{
    levels.last_key_value()
}

/// Best price of a side with its cached volume.
pub(crate) fn best_of(levels: &BTreeMap<i64, PriceLevel>, side: Side) -> (best: Option<(i64, u64)>)
    ensures
        match best {
            Some((price, qty)) => {
                &&& levels@.contains_key(price)
                &&& levels@[price].total_qty == qty
                &&& forall|other: i64| #[trigger]
                    levels@.contains_key(other) ==> other == price || ahead(side, price, other)
            },
            None => levels@ == Map::<i64, PriceLevel>::empty(),
        },
{
    let entry = match side {
        Side::Bid => highest(levels),
        Side::Ask => lowest(levels),
    };
    match entry {
        Some((price, level)) => Some((*price, level.total_qty)),
        None => None,
    }
}

/// The homes left when only `queue` is still queued at `price`.
pub open spec fn homes_after(
    homes: Homes,
    side: Side,
    price: i64,
    queue: Seq<RestingOrder>,
) -> Homes {
    Map::new(
        |id: u64| homes.contains_key(id) && (homes[id] == (side, price) ==> queued(queue, id)),
        |id: u64| homes[id],
    )
}

/// Queue entries only leave, and none moves.
pub open spec fn homes_shrink(before: Homes, after: Homes) -> bool {
    forall|id: u64| #[trigger]
        after.contains_key(id) ==> before.contains_key(id) && before[id] == after[id]
}

/// Lookup and homes are the same for the orders of `side`.
pub open spec fn same_for_side(
    lookup: Lookup,
    lookup_after: Lookup,
    homes: Homes,
    homes_after: Homes,
    side: Side,
) -> bool {
    &&& forall|id: u64| #[trigger]
        homes.contains_key(id) && homes[id].0 == side ==> {
            &&& homes_after.contains_key(id)
            &&& homes_after[id] == homes[id]
            &&& lookup_after.contains_key(id) <==> lookup.contains_key(id)
            &&& lookup_after[id] == lookup[id]
        }
    &&& forall|id: u64| #[trigger]
        homes_after.contains_key(id) && homes_after[id].0 == side ==> homes.contains_key(id)
            && homes[id] == homes_after[id]
    &&& forall|id: u64| #[trigger]
        lookup_after.contains_key(id) && lookup_after[id].0 == side ==> lookup.contains_key(id)
            && lookup[id].0 == side
}

/// A side is untouched by a change that leaves its own orders alone.
pub proof fn lemma_ladder_untouched(
    levels: Map<i64, PriceLevel>,
    side: Side,
    lookup: Lookup,
    lookup_after: Lookup,
    homes: Homes,
    homes_after: Homes,
)
    requires
        ladder_agrees(levels, side, lookup, homes),
        ladder_complete(levels, side, lookup, homes),
        same_for_side(lookup, lookup_after, homes, homes_after, side),
    ensures
        ladder_agrees(levels, side, lookup_after, homes_after),
        ladder_complete(levels, side, lookup_after, homes_after),
        live_levels(levels, lookup_after) == live_levels(levels, lookup),
{
    assert forall|price: i64| #[trigger] levels.contains_key(price) implies {
        &&& price >= 0
        &&& level_agrees(levels[price], side, price, lookup_after, homes_after)
        &&& live(levels[price].orders@, lookup_after).len() > 0
        &&& live(levels[price].orders@, lookup_after) == live(levels[price].orders@, lookup)
    } by {
        let queue = levels[price].orders@;
        assert forall|i: int| 0 <= i < queue.len() implies lookup.contains_key(
            (#[trigger] queue[i]).id,
        ) == lookup_after.contains_key(queue[i].id) && homes_after.contains_key(queue[i].id)
            && homes_after[queue[i].id] == homes[queue[i].id] && lookup_after[queue[i].id]
            == lookup[queue[i].id] by {
            assert(homes.contains_key(queue[i].id));
        }
        lemma_live_same(queue, lookup, lookup_after);
    }
    assert(live_levels(levels, lookup_after) =~= live_levels(levels, lookup));
    assert forall|id: u64| #[trigger]
        lookup_after.contains_key(id) && lookup_after[id].0 == side implies homes_after.contains_key(id)
        && homes_after[id] == (side, lookup_after[id].1) by {
        assert(lookup.contains_key(id) && lookup[id].0 == side);
        assert(homes.contains_key(id));
    }
}

/// The orders of a level in agreement have quantity.
proof fn lemma_live_qty(level: PriceLevel, side: Side, price: i64, lookup: Lookup, homes: Homes)
    requires
        level_agrees(level, side, price, lookup, homes),
    ensures
        forall|i: int|
            0 <= i < live(level.orders@, lookup).len() ==> (#[trigger] live(
                level.orders@,
                lookup,
            )[i]).qty > 0,
{
    let queue = level.orders@;
    let lived = live(queue, lookup);
    assert forall|i: int| 0 <= i < lived.len() implies (#[trigger] lived[i]).qty > 0 by {
        lemma_filter_member(queue, |order: RestingOrder| lookup.contains_key(order.id), i);
        let j = choose|j: int| 0 <= j < queue.len() && #[trigger] queue[j] == lived[i];
        assert(lookup.contains_key(queue[j].id));
    }
}

/// Replacing one level, and the orders queued there, keeps the rest of the
/// side as it was.
proof fn lemma_level_replaced(
    levels: Map<i64, PriceLevel>,
    levels_after: Map<i64, PriceLevel>,
    level: PriceLevel,
    side: Side,
    price: i64,
    lookup: Lookup,
    lookup_after: Lookup,
    homes: Homes,
)
    requires
        ladder_agrees(levels, side, lookup, homes),
        ladder_complete(levels, side, lookup, homes),
        levels.contains_key(price),
        level_agrees(level, side, price, lookup_after, homes),
        level_complete(level, side, price, lookup_after, homes),
        same_elsewhere(lookup, lookup_after, homes, side, price),
        only_leave(lookup, lookup_after),
        level.orders@.len() > 0 ==> {
            &&& live(level.orders@, lookup_after).len() > 0
            &&& levels_after == levels.insert(price, level)
        },
        level.orders@.len() == 0 ==> levels_after == levels.remove(price),
    ensures
        ({
            let homes2 = homes_after(homes, side, price, level.orders@);
            &&& ladder_agrees(levels_after, side, lookup_after, homes2)
            &&& ladder_complete(levels_after, side, lookup_after, homes2)
            &&& live_levels(levels_after, lookup_after) == with_queue(
                live_levels(levels, lookup),
                price,
                live(level.orders@, lookup_after),
            )
            &&& homes_shrink(homes, homes2)
        }),
{
    let homes2 = homes_after(homes, side, price, level.orders@);
    if level.orders@.len() == 0 {
        assert(live(level.orders@, lookup_after).len() == 0) by {
            reveal(Seq::filter);
        }
    }
    assert forall|p: i64| #[trigger] levels_after.contains_key(p) implies {
        &&& p >= 0
        &&& level_agrees(levels_after[p], side, p, lookup_after, homes2)
        &&& live(levels_after[p].orders@, lookup_after).len() > 0
        &&& p != price ==> live(levels_after[p].orders@, lookup_after) == live(
            levels[p].orders@,
            lookup,
        )
    } by {
        let queue = levels_after[p].orders@;
        if p == price {
            assert forall|i: int| 0 <= i < queue.len() implies homes2.contains_key(
                (#[trigger] queue[i]).id,
            ) by {
                assert(queued(queue, queue[i].id));
            }
        } else {
            assert(levels.contains_key(p));
            assert forall|i: int| 0 <= i < queue.len() implies homes2.contains_key(
                (#[trigger] queue[i]).id,
            ) && lookup.contains_key(queue[i].id) == lookup_after.contains_key(queue[i].id)
                && lookup_after[queue[i].id] == lookup[queue[i].id] by {
                assert(homes.contains_key(queue[i].id));
                assert(homes[queue[i].id] == (side, p));
            }
            lemma_live_same(queue, lookup, lookup_after);
        }
    }
    assert forall|id: u64| #[trigger]
        lookup_after.contains_key(id) && lookup_after[id].0 == side implies homes2.contains_key(id)
        && homes2[id] == (side, lookup_after[id].1) by {
        assert(lookup.contains_key(id));
        assert(homes.contains_key(id));
    }
    assert forall|id: u64| #[trigger]
        homes2.contains_key(id) && homes2[id].0 == side implies levels_after.contains_key(homes2[id].1)
        && queued(levels_after[homes2[id].1].orders@, id) by {
        assert(homes.contains_key(id));
    }
    assert(live_levels(levels_after, lookup_after) =~= with_queue(
        live_levels(levels, lookup),
        price,
        live(level.orders@, lookup_after),
    ));
}

/// Drain the front of the queue at `price` on the side opposite to
/// `taker_side`, filling as much of `remaining` as possible. Removes the price
/// level if fully consumed.
pub(crate) fn fill_at_level(
    levels: &mut BTreeMap<i64, PriceLevel>,
    lookup: &mut HashMap<u64, (Side, i64, u64)>,
    taker_side: Side,
    taker_id: u64,
    price: i64,
    remaining: &mut u64,
    fills: &mut Vec<Fill>,
    Ghost(homes): Ghost<Homes>,
) -> (left: Ghost<Homes>)
    requires
        ladder_agrees(old(levels)@, taker_side.spec_opposite(), old(lookup)@, homes),
        ladder_complete(old(levels)@, taker_side.spec_opposite(), old(lookup)@, homes),
        old(levels)@.contains_key(price),
        *old(remaining) > 0,
    ensures
        ladder_agrees(final(levels)@, taker_side.spec_opposite(), final(lookup)@, left@),
        ladder_complete(final(levels)@, taker_side.spec_opposite(), final(lookup)@, left@),
        homes_shrink(homes, left@),
        same_for_side(old(lookup)@, final(lookup)@, homes, left@, taker_side),
        *final(remaining) < *old(remaining),
        ({
            let before = live_levels(old(levels)@, old(lookup)@);
            let taken = sweep_queue(
                before[price],
                price,
                taker_side,
                taker_id,
                *old(remaining) as nat,
            );
            &&& live_levels(final(levels)@, final(lookup)@) == with_queue(before, price, taken.queue)
            &&& final(fills)@ == old(fills)@ + taken.fills
            &&& *final(remaining) == taken.remaining
        }),
{
    let ghost side = taker_side.spec_opposite();
    let ghost levels0 = levels@;
    let ghost lookup0 = lookup@;
    let ghost remaining0 = *remaining;
    let mut left: Ghost<Homes> = Ghost(homes);
    proof {
        assert(level_complete(levels0[price], side, price, lookup0, homes)) by {
            assert forall|id: u64| #[trigger]
                lookup0.contains_key(id) && homes.contains_key(id) && homes[id] == (
                    side,
                    price,
                ) implies queued(levels0[price].orders@, id) by {}
        }
        lemma_live_qty(levels0[price], side, price, lookup0, homes);
        let queue = live(levels0[price].orders@, lookup0);
        let qty = least(queue[0].qty as nat, remaining0 as nat);
        lemma_sweep_queue_shrinks(
            front_filled(queue, qty),
            price,
            taker_side,
            taker_id,
            (remaining0 - qty) as nat,
        );
    }
    if let Some(mut level) = levels.remove(&price) {
        fill_level(
            &mut level,
            lookup,
            taker_side,
            taker_id,
            price,
            remaining,
            fills,
            Ghost(homes),
        );
        let ghost filled = level;
        if level.orders.len() > 0 {
            levels.insert(price, level);
        }
        proof {
            assert(levels@ =~= if filled.orders@.len() > 0 {
                levels0.insert(price, filled)
            } else {
                levels0.remove(price)
            });
            lemma_level_replaced(
                levels0,
                levels@,
                filled,
                side,
                price,
                lookup0,
                lookup@,
                homes,
            );
            left@ = homes_after(homes, side, price, filled.orders@);
            assert forall|id: u64| #[trigger]
                homes.contains_key(id) && homes[id].0 == taker_side implies {
                &&& left@.contains_key(id)
                &&& left@[id] == homes[id]
                &&& lookup@.contains_key(id) <==> lookup0.contains_key(id)
                &&& lookup@[id] == lookup0[id]
            } by {
                assert(lookup@.contains_key(id) <==> lookup0.contains_key(id));
            }
        }
    }
    left
}

proof fn lemma_same_for_side_twice(
    a: Lookup,
    b: Lookup,
    c: Lookup,
    homes_a: Homes,
    homes_b: Homes,
    homes_c: Homes,
    side: Side,
)
    requires
        same_for_side(a, b, homes_a, homes_b, side),
        same_for_side(b, c, homes_b, homes_c, side),
    ensures
        same_for_side(a, c, homes_a, homes_c, side),
{
    assert forall|id: u64| #[trigger]
        homes_a.contains_key(id) && homes_a[id].0 == side implies {
        &&& homes_c.contains_key(id)
        &&& homes_c[id] == homes_a[id]
        &&& c.contains_key(id) <==> a.contains_key(id)
        &&& c[id] == a[id]
    } by {
        assert(homes_b.contains_key(id));
    }
    assert forall|id: u64| #[trigger]
        homes_c.contains_key(id) && homes_c[id].0 == side implies homes_a.contains_key(id)
        && homes_a[id] == homes_c[id] by {
        assert(homes_b.contains_key(id));
    }
    assert forall|id: u64|
        #[trigger] c.contains_key(id) && c[id].0 == side implies a.contains_key(id)
        && a[id].0 == side by {
        assert(b.contains_key(id));
    }
}

/// Match a taker against the side opposite to `taker_side`, best price first,
/// at prices within `limit`.
pub(crate) fn match_against(
    levels: &mut BTreeMap<i64, PriceLevel>,
    lookup: &mut HashMap<u64, (Side, i64, u64)>,
    taker_side: Side,
    taker_id: u64,
    limit: Option<i64>,
    remaining: &mut u64,
    fills: &mut Vec<Fill>,
    Ghost(homes): Ghost<Homes>,
) -> (left: Ghost<Homes>)
    requires
        ladder_agrees(old(levels)@, taker_side.spec_opposite(), old(lookup)@, homes),
        ladder_complete(old(levels)@, taker_side.spec_opposite(), old(lookup)@, homes),
    ensures
        ladder_agrees(final(levels)@, taker_side.spec_opposite(), final(lookup)@, left@),
        ladder_complete(final(levels)@, taker_side.spec_opposite(), final(lookup)@, left@),
        homes_shrink(homes, left@),
        same_for_side(old(lookup)@, final(lookup)@, homes, left@, taker_side),
        ({
            let outcome = sweep(
                live_levels(old(levels)@, old(lookup)@),
                taker_side,
                taker_id,
                limit,
                *old(remaining) as nat,
            );
            &&& live_levels(final(levels)@, final(lookup)@) == outcome.levels
            &&& final(fills)@ == old(fills)@ + outcome.fills
            &&& *final(remaining) == outcome.remaining
        }),
{
    let ghost side = taker_side.spec_opposite();
    let ghost lookup0 = lookup@;
    let ghost fills0 = fills@;
    let ghost whole = sweep(
        live_levels(levels@, lookup@),
        taker_side,
        taker_id,
        limit,
        *remaining as nat,
    );
    let mut left: Ghost<Homes> = Ghost(homes);
    let ghost mut done: Seq<Fill> = Seq::empty();
    assert(done + whole.fills =~= whole.fills);
    assert(fills0 + done =~= fills0);
    while *remaining > 0
        invariant
            side == taker_side.spec_opposite(),
            ladder_agrees(levels@, side, lookup@, left@),
            ladder_complete(levels@, side, lookup@, left@),
            homes_shrink(homes, left@),
            same_for_side(lookup0, lookup@, homes, left@, taker_side),
            fills@ == fills0 + done,
            ({
                let rest = sweep(
                    live_levels(levels@, lookup@),
                    taker_side,
                    taker_id,
                    limit,
                    *remaining as nat,
                );
                whole == Sweep { fills: done + rest.fills, ..rest }
            }),
        ensures
            sweep(
                live_levels(levels@, lookup@),
                taker_side,
                taker_id,
                limit,
                *remaining as nat,
            ) == (Sweep {
                levels: live_levels(levels@, lookup@),
                fills: Seq::empty(),
                remaining: *remaining as nat,
            }),
        decreases *remaining,
    {
        let ghost now = live_levels(levels@, lookup@);
        match best_of(levels, taker_side.opposite()) {
            None => {
                assert(forall|p: i64| !now.contains_key(p));
                break;
            },
            Some((price, _)) => {
                assert(now.contains_key(price));
                assert(is_best(now, side, price));
                proof {
                    lemma_best_unique(now, side, price);
                }
                let reachable = match limit {
                    None => true,
                    Some(bound) => match taker_side {
                        Side::Bid => price <= bound,
                        Side::Ask => price >= bound,
                    },
                };
                if !reachable {
                    break;
                }
                let ghost lookup1 = lookup@;
                let ghost left1 = left@;
                let ghost remaining1 = *remaining;
                proof {
                    lemma_live_qty(levels@[price], side, price, lookup@, left@);
                    lemma_sweep_level(now, taker_side, taker_id, limit, *remaining as nat, price);
                }
                left =
                fill_at_level(
                    levels,
                    lookup,
                    taker_side,
                    taker_id,
                    price,
                    remaining,
                    fills,
                    left,
                );
                proof {
                    let taken = sweep_queue(
                        now[price],
                        price,
                        taker_side,
                        taker_id,
                        remaining1 as nat,
                    );
                    let rest = sweep(
                        live_levels(levels@, lookup@),
                        taker_side,
                        taker_id,
                        limit,
                        *remaining as nat,
                    );
                    assert(done + (taken.fills + rest.fills) =~= (done + taken.fills) + rest.fills);
                    assert(fills@ =~= fills0 + (done + taken.fills));
                    done = done + taken.fills;
                    assert forall|id: u64|
                        #[trigger] left@.contains_key(id) implies homes.contains_key(
                        id,
                    ) && homes[id] == left@[id] by {
                        assert(left1.contains_key(id));
                    }
                    lemma_same_for_side_twice(
                        lookup0,
                        lookup1,
                        lookup@,
                        homes,
                        left1,
                        left@,
                        taker_side,
                    );
                }
            },
        }
    }
    proof {
        assert(done + Seq::<Fill>::empty() =~= done);
    }
    left
}

/// Add a resting order at the end of the line at its price, and to the
/// lookup. Returns the volume now resting at that price.
pub(crate) fn place(
    levels: &mut BTreeMap<i64, PriceLevel>,
    lookup: &mut HashMap<u64, (Side, i64, u64)>,
    side: Side,
    price: i64,
    order: RestingOrder,
    Ghost(homes): Ghost<Homes>,
) -> (total: u64)
    requires
        ladder_agrees(old(levels)@, side, old(lookup)@, homes),
        ladder_complete(old(levels)@, side, old(lookup)@, homes),
        !homes.contains_key(order.id),
        !old(lookup)@.contains_key(order.id),
        order.qty > 0,
        price >= 0,
        volume_at(live_levels(old(levels)@, old(lookup)@), price) + order.qty <= u64::MAX,
    ensures
        final(lookup)@ == old(lookup)@.insert(order.id, (side, price, order.qty)),
        ladder_agrees(
            final(levels)@,
            side,
            final(lookup)@,
            homes.insert(order.id, (side, price)),
        ),
        ladder_complete(
            final(levels)@,
            side,
            final(lookup)@,
            homes.insert(order.id, (side, price)),
        ),
        live_levels(final(levels)@, final(lookup)@) == with_resting(
            live_levels(old(levels)@, old(lookup)@),
            price,
            order,
        ),
        total == volume_at(live_levels(final(levels)@, final(lookup)@), price),
{
    let ghost levels0 = levels@;
    let ghost lookup0 = lookup@;
    let ghost homes2 = homes.insert(order.id, (side, price));
    lookup.insert(order.id, (side, price, order.qty));
    let mut level = match levels.remove(&price) {
        Some(level) => level,
        None => PriceLevel { orders: VecDeque::new(), total_qty: 0 },
    };
    let ghost before = level;
    proof {
        reveal(Seq::filter);
        assert(level_agrees(before, side, price, lookup0, homes));
    }
    level.total_qty = level.total_qty + order.qty;
    level.orders.push_back(order);
    let total: u64 = level.total_qty;
    let ghost after = level;
    levels.insert(price, level);
    proof {
        assert forall|p: i64| #[trigger] levels0.contains_key(p) && p != price implies live(
            levels0[p].orders@,
            lookup@,
        ) == live(levels0[p].orders@, lookup0) && level_agrees(
            levels0[p],
            side,
            p,
            lookup@,
            homes2,
        ) by {
            let queue = levels0[p].orders@;
            assert forall|i: int| 0 <= i < queue.len() implies (#[trigger] queue[i]).id
                != order.id by {
                assert(homes.contains_key(queue[i].id));
            }
            lemma_live_same(queue, lookup0, lookup@);
        }
        let queue = before.orders@;
        assert forall|i: int| 0 <= i < queue.len() implies (#[trigger] queue[i]).id != order.id by {
            assert(homes.contains_key(queue[i].id));
        }
        lemma_live_same(queue, lookup0, lookup@);
        lemma_filter_push(queue, order, |o: RestingOrder| lookup@.contains_key(o.id));
        lemma_volume_push(live(queue, lookup0), order);
        assert(after.orders@ == queue.push(order));
        assert(live(after.orders@, lookup@) == live(queue, lookup0).push(order));
        assert(level_agrees(after, side, price, lookup@, homes2));
        assert(levels@ == levels0.insert(price, after));
        assert(Seq::<RestingOrder>::empty().push(order) =~= seq![order]);
        assert(live_levels(levels@, lookup@) =~= with_resting(
            live_levels(levels0, lookup0),
            price,
            order,
        ));
        assert forall|id: u64| #[trigger]
            homes2.contains_key(id) && homes2[id].0 == side implies levels@.contains_key(homes2[id].1)
            && queued(levels@[homes2[id].1].orders@, id) by {
            if id == order.id {
                assert(after.orders@[queue.len() as int].id == id);
            } else {
                assert(homes.contains_key(id));
                if homes[id].1 == price {
                    let i = choose|i: int| 0 <= i < queue.len() && (#[trigger] queue[i]).id == id;
                    assert(after.orders@[i].id == id);
                }
            }
        }
        assert forall|id: u64| #[trigger]
            lookup@.contains_key(id) && lookup@[id].0 == side implies homes2.contains_key(id)
            && homes2[id] == (side, lookup@[id].1) by {
            if id != order.id {
                assert(lookup0.contains_key(id));
            }
        }
    }
    total
}

/// Taking one order out of the lookup takes it out of the live orders of its
/// level, and its quantity out of the volume there.
proof fn lemma_level_cancelled(
    level: PriceLevel,
    side: Side,
    price: i64,
    lookup: Lookup,
    homes: Homes,
    id: u64,
)
    requires
        level_agrees(level, side, price, lookup, homes),
        queued(level.orders@, id),
        lookup.contains_key(id),
        lookup[id].0 == side,
        lookup[id].1 == price,
    ensures
        live(level.orders@, lookup.remove(id)) == without(live(level.orders@, lookup), id),
        volume(live(level.orders@, lookup.remove(id))) == level.total_qty - lookup[id].2,
        volume(live(level.orders@, lookup.remove(id))) > 0 <==> live(
            level.orders@,
            lookup.remove(id),
        ).len() > 0,
        forall|i: int|
            0 <= i < level.orders@.len() && lookup.remove(id).contains_key(
                (#[trigger] level.orders@[i]).id,
            ) ==> lookup.contains_key(level.orders@[i].id),
{
    let queue = level.orders@;
    let lived = live(queue, lookup);
    let was_live = |order: RestingOrder| lookup.contains_key(order.id);
    let other = |order: RestingOrder| order.id != id;
    lemma_filter_filter(queue, was_live, other);
    lemma_filter_cong(
        queue,
        |order: RestingOrder| was_live(order) && other(order),
        |order: RestingOrder| lookup.remove(id).contains_key(order.id),
    );
    lemma_filter_distinct(queue, was_live);
    let j = choose|j: int| 0 <= j < queue.len() && (#[trigger] queue[j]).id == id;
    lemma_filter_keeps(queue, was_live, j);
    let i = choose|i: int| 0 <= i < lived.len() && #[trigger] lived[i] == queue[j];
    lemma_volume_without(lived, i);
    lemma_live_qty(level, side, price, lookup, homes);
    let rest = without(lived, id);
    assert forall|k: int| 0 <= k < rest.len() implies (#[trigger] rest[k]).qty > 0 by {
        lemma_filter_member(lived, other, k);
        let m = choose|m: int| 0 <= m < lived.len() && #[trigger] lived[m] == rest[k];
        assert(lived[m].qty > 0);
    }
    lemma_volume_positive(rest);
}

/// Take a live order off the book. Dropping it from the lookup is what marks
/// it cancelled; its queue entry stays behind as a tombstone for matching to
/// skip, until the level has no live volume left and is dropped whole.
pub(crate) fn cancel(
    levels: &mut BTreeMap<i64, PriceLevel>,
    lookup: &mut HashMap<u64, (Side, i64, u64)>,
    order_id: u64,
    side: Side,
    price: i64,
    remaining_qty: u64,
    Ghost(homes): Ghost<Homes>,
) -> (left: Ghost<Homes>)
    requires
        ladder_agrees(old(levels)@, side, old(lookup)@, homes),
        ladder_complete(old(levels)@, side, old(lookup)@, homes),
        old(lookup)@.contains_key(order_id),
        old(lookup)@[order_id] == (side, price, remaining_qty),
    ensures
        final(lookup)@ == old(lookup)@.remove(order_id),
        ladder_agrees(final(levels)@, side, final(lookup)@, left@),
        ladder_complete(final(levels)@, side, final(lookup)@, left@),
        homes_shrink(homes, left@),
        live_levels(final(levels)@, final(lookup)@) == levels_without(
            live_levels(old(levels)@, old(lookup)@),
            order_id,
        ),
        same_for_side(old(lookup)@, final(lookup)@, homes, left@, side.spec_opposite()),
{
    let ghost levels0 = levels@;
    let ghost lookup0 = lookup@;
    let mut left: Ghost<Homes> = Ghost(homes);
    proof {
        assert(homes.contains_key(order_id));
        lemma_level_cancelled(levels0[price], side, price, lookup0, homes, order_id);
    }
    lookup.remove(&order_id);
    if let Some(mut level) = levels.remove(&price) {
        level.total_qty = level.total_qty - remaining_qty;
        let ghost after = level;
        let emptied = level.total_qty == 0;
        if !emptied {
            levels.insert(price, level);
        } else {
            proof {
                left@ = homes_after(homes, side, price, Seq::empty());
            }
        }
        proof {
            let lookup2 = lookup@;
            assert(after.orders@ == levels0[price].orders@);
            assert forall|p: i64| #[trigger] levels0.contains_key(p) && p != price implies live(
                levels0[p].orders@,
                lookup2,
            ) == live(levels0[p].orders@, lookup0) && !queued(
                live(levels0[p].orders@, lookup0),
                order_id,
            ) && level_agrees(levels0[p], side, p, lookup2, left@) by {
                let queue = levels0[p].orders@;
                assert forall|i: int| 0 <= i < queue.len() implies (#[trigger] queue[i]).id
                    != order_id && left@.contains_key(queue[i].id) by {
                    assert(homes.contains_key(queue[i].id));
                }
                lemma_live_same(queue, lookup0, lookup2);
                let lived = live(queue, lookup0);
                if queued(lived, order_id) {
                    let k = choose|k: int|
                        0 <= k < lived.len() && (#[trigger] lived[k]).id == order_id;
                    lemma_filter_member(
                        queue,
                        |order: RestingOrder| lookup0.contains_key(order.id),
                        k,
                    );
                }
            }
            assert forall|p: i64| #[trigger] levels0.contains_key(p) && p != price implies without(
                live(levels0[p].orders@, lookup0),
                order_id,
            ) == live(levels0[p].orders@, lookup0) by {
                lemma_without_absent(live(levels0[p].orders@, lookup0), order_id);
            }
            if !emptied {
                assert(levels@ =~= levels0.insert(price, after));
                assert(level_agrees(after, side, price, lookup2, homes));
            } else {
                assert(levels@ =~= levels0.remove(price));
            }
            assert forall|p: i64|
                #[trigger] levels@.contains_key(p) implies levels0.contains_key(p) by {
            }
            assert(live_levels(levels@, lookup2) =~= levels_without(
                live_levels(levels0, lookup0),
                order_id,
            ));
            assert forall|id: u64| #[trigger]
                lookup2.contains_key(id) && lookup2[id].0 == side implies left@.contains_key(id)
                && left@[id] == (side, lookup2[id].1) by {
                assert(lookup0.contains_key(id));
                assert(homes.contains_key(id));
                if emptied && homes[id].1 == price {
                    let queue = levels0[price].orders@;
                    let i = choose|i: int| 0 <= i < queue.len() && (#[trigger] queue[i]).id == id;
                    lemma_filter_keeps(
                        queue,
                        |order: RestingOrder| lookup2.contains_key(order.id),
                        i,
                    );
                }
            }
            assert forall|id: u64| #[trigger]
                left@.contains_key(id) && left@[id].0 == side implies levels@.contains_key(left@[id].1)
                && queued(levels@[left@[id].1].orders@, id) by {
                assert(homes.contains_key(id));
                if emptied {
                    assert(!queued(Seq::<RestingOrder>::empty(), id));
                }
            }
            assert forall|id: u64| #[trigger]
                homes.contains_key(id) && homes[id].0 == side.spec_opposite() implies {
                &&& left@.contains_key(id)
                &&& left@[id] == homes[id]
                &&& lookup2.contains_key(id) <==> lookup0.contains_key(id)
                &&& lookup2[id] == lookup0[id]
            } by {
                assert(homes[order_id].0 == side);
            }
        }
    }
    left
}

/// Quantity and notional that a taker of `taker_side` bound by `limit` could
/// trade against these levels; `None` if the notional does not fit.
pub(crate) fn depth_of(levels: &BTreeMap<i64, PriceLevel>, taker_side: Side, limit: Option<i64>, Ghost(
    lookup,
): Ghost<Lookup>, Ghost(homes): Ghost<Homes>) -> (depth: Option<(u128, u128)>)
    requires
        ladder_agrees(levels@, taker_side.spec_opposite(), lookup, homes),
    ensures
        match depth {
            Some((qty, notional)) => {
                &&& qty == depth_qty(live_levels(levels@, lookup), taker_side, limit)
                &&& notional == depth_notional(live_levels(levels@, lookup), taker_side, limit)
            },
            None => depth_notional(live_levels(levels@, lookup), taker_side, limit) > u128::MAX,
        },
{
    let ghost view = live_levels(levels@, lookup);
    let ghost all = reachable(view, taker_side, limit);
    let ghost vol = |price: i64| volume(view[price]);
    let ghost worth = |price: i64| (price * volume(view[price])) as nat;
    let mut qty: u128 = 0;
    let mut notional: u128 = 0;
    let ghost mut seen: Set<i64> = Set::empty();
    proof {
        lemma_sum_of_empty(vol);
        lemma_sum_of_empty(worth);
        assert(view.dom() =~= levels@.dom());
    }
    let count: usize = levels.len();
    for entry in it: levels.iter()
        invariant
            ladder_agrees(levels@, taker_side.spec_opposite(), lookup, homes),
            view == live_levels(levels@, lookup),
            all == reachable(view, taker_side, limit),
            all.finite(),
            vol == (|price: i64| volume(view[price])),
            worth == (|price: i64| (price * volume(view[price])) as nat),
            it.seq() == levels.iter().remaining(),
            it.seq().no_duplicates(),
            it.seq().len() == count,
            seen.finite(),
            seen.subset_of(all),
            forall|price: i64|
                seen.contains(price) <==> all.contains(price) && exists|j: int|
                    0 <= j < it.index() && *(#[trigger] it.seq()[j]).0 == price,
            qty <= it.index() * u64::MAX,
            qty == sum_of(seen, vol),
            notional == sum_of(seen, worth),
    {
        let (price, level) = entry;
        let within_limit = match limit {
            None => true,
            Some(bound) => match taker_side {
                Side::Bid => *price <= bound,
                Side::Ask => *price >= bound,
            },
        };
        proof {
            assert(it.seq()[it.index() as int].0 == price);
            assert(levels@.contains_key(*price) && levels@[*price] == *level);
        }
        if within_limit {
            proof {
                assert(all.contains(*price));
                if seen.contains(*price) {
                    let j = choose|j: int|
                        0 <= j < it.index() && *(#[trigger] it.seq()[j]).0 == *price;
                    assert(levels@[*it.seq()[j].0] == *it.seq()[j].1);
                }
                lemma_sum_of_insert(seen, vol, *price);
                lemma_sum_of_insert(seen, worth, *price);
                seen = seen.insert(*price);
                lemma_sum_of_subset(seen, all, worth);
                assert(*price * level.total_qty <= i64::MAX * u64::MAX) by (nonlinear_arith)
                    requires
                        0 <= *price <= i64::MAX,
                        0 <= level.total_qty <= u64::MAX,
                ;
            }
            qty = qty + level.total_qty as u128;
            match notional.checked_add(*price as u128 * level.total_qty as u128) {
                Some(sum) => {
                    notional = sum;
                },
                None => {
                    return None;
                },
            }
        }
    }
    proof {
        assert(seen =~= all);
    }
    Some((qty, notional))
}

/// What a stored side shows: sound levels that hold exactly the orders of
/// the lookup.
pub proof fn lemma_ladder_view(
    levels: Map<i64, PriceLevel>,
    side: Side,
    lookup: Lookup,
    homes: Homes,
)
    requires
        levels.dom().finite(),
        ladder_agrees(levels, side, lookup, homes),
        ladder_complete(levels, side, lookup, homes),
    ensures
        levels_wf(live_levels(levels, lookup)),
        forall|price: i64, id: u64| #[trigger]
            live_levels(levels, lookup).contains_key(price) && #[trigger] queued(
                live_levels(levels, lookup)[price],
                id,
            ) ==> {
                &&& lookup.contains_key(id)
                &&& lookup[id].0 == side
                &&& lookup[id].1 == price
                &&& homes.contains_key(id)
            },
        forall|id: u64| #[trigger]
            lookup.contains_key(id) && lookup[id].0 == side ==> {
                &&& live_levels(levels, lookup).contains_key(lookup[id].1)
                &&& queued(live_levels(levels, lookup)[lookup[id].1], id)
                &&& homes.contains_key(id)
            },
{
    let view = live_levels(levels, lookup);
    assert(view.dom() =~= levels.dom());
    let is_live = |order: RestingOrder| lookup.contains_key(order.id);
    assert forall|price: i64| #[trigger] view.contains_key(price) implies price >= 0 && queue_wf(
        view[price],
    ) by {
        assert(levels.contains_key(price));
        lemma_live_qty(levels[price], side, price, lookup, homes);
        lemma_filter_distinct(levels[price].orders@, is_live);
    }
    assert forall|price: i64, id: u64| #[trigger]
        view.contains_key(price) && #[trigger] queued(view[price], id) implies {
        &&& lookup.contains_key(id)
        &&& lookup[id].0 == side
        &&& lookup[id].1 == price
        &&& homes.contains_key(id)
    } by {
        assert(levels.contains_key(price));
        let queue = levels[price].orders@;
        let i = choose|i: int| 0 <= i < view[price].len() && (#[trigger] view[price][i]).id == id;
        lemma_filter_member(queue, is_live, i);
        let j = choose|j: int| 0 <= j < queue.len() && #[trigger] queue[j] == view[price][i];
        assert(homes.contains_key(queue[j].id));
    }
    assert forall|id: u64| #[trigger]
        lookup.contains_key(id) && lookup[id].0 == side implies {
        &&& view.contains_key(lookup[id].1)
        &&& queued(view[lookup[id].1], id)
        &&& homes.contains_key(id)
    } by {
        assert(homes.contains_key(id));
        let price = lookup[id].1;
        let queue = levels[price].orders@;
        let j = choose|j: int| 0 <= j < queue.len() && (#[trigger] queue[j]).id == id;
        lemma_filter_keeps(queue, is_live, j);
        let i = choose|i: int| 0 <= i < view[price].len() && #[trigger] view[price][i] == queue[j];
        assert(view[price][i].id == id);
    }
}

} // verus!
