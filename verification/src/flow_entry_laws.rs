//! What each entry of a flow recorder does to its rows, told from what
//! happened.

use crate::book_lemmas::lemma_filter_front;
use crate::flow_laws::law_bins_are_half_open;
use crate::flow_lemmas::{
    lemma_at_wf, lemma_notional_fits, lemma_resolved_upto_setup, lemma_settled_wf,
};
use crate::flow_model::{
    ratio_bin, FlowBucketView, FlowFill, FlowView, MoveTerm, PendingResponse, RatioEdge,
};
use crate::order::Side;
use crate::types::{AgentId, Nanos};
use vstd::prelude::*;

verus! {

/// The move of a term as the watched agent feels it, times the pre-trade mid:
/// positive where it bought and the price went up, or sold and it went down.
pub open spec fn felt_move(term: MoveTerm) -> int {
    let moved = term.notional * (term.to2 - term.from2);
    match term.side {
        Side::Bid => moved,
        Side::Ask => -moved,
    }
}

/// The watched agent buys in this fill: it takes with a bid, or it makes and
/// an ask takes.
pub open spec fn watched_buys(v: FlowView, fill: FlowFill) -> bool {
    if fill.taker_agent == v.agent_id {
        fill.taker_side == Side::Bid
    } else {
        fill.taker_side == Side::Ask
    }
}

/// The fill is between two owners, and the watched agent is one of them.
pub open spec fn external_and_watched(v: FlowView, fill: FlowFill) -> bool {
    &&& fill.maker_agent != Some(fill.taker_agent)
    &&& fill.taker_agent == v.agent_id || fill.maker_agent == Some(v.agent_id)
}

/// The list has grown by one at its end.
pub open spec fn grew_by<A>(before: Seq<A>, after: Seq<A>, last: A) -> bool {
    &&& after.len() == before.len() + 1
    &&& after.drop_last() == before
    &&& after.last() == last
}

/// Every cost and response of a watched fill carries the side of the watched
/// agent's own order: the taker side where it takes, the other side where it
/// makes. The cost compares the price with the pre-trade mid. It enters the
/// taker's list where the agent takes, the maker's where it makes, and no
/// other; and the fill waits once for the mid at each horizon.
pub proof fn law_a_watched_fill_carries_the_side_of_its_own_order(v: FlowView, fill: FlowFill)
    requires
        v.wf(),
        v.fill_room(fill),
        fill.price >= 0,
        external_and_watched(v, fill),
        fill.mid2 is Some,
    ensures
        ({
            let now = v.resolved(fill.time).at(fill.time);
            let i = (fill.time / v.interval_ns) as int;
            let (before, after) = (now.buckets[i], v.filled(fill).buckets[i]);
            let takes = fill.taker_agent == v.agent_id;
            let (own_before, own_after, other_before, other_after) = if takes {
                (
                    before.shortfall_taker,
                    after.shortfall_taker,
                    before.shortfall_maker,
                    after.shortfall_maker,
                )
            } else {
                (
                    before.shortfall_maker,
                    after.shortfall_maker,
                    before.shortfall_taker,
                    after.shortfall_taker,
                )
            };
            let term = own_after.last();
            let pending = v.filled(fill).pending;
            &&& grew_by(own_before, own_after, term)
            &&& other_after == other_before
            &&& takes ==> term.side == fill.taker_side
            &&& !takes ==> term.side != fill.taker_side
            &&& term.notional == fill.price * fill.qty
            &&& term.from2 == fill.mid2->0
            &&& term.to2 == 2 * fill.price
            &&& after.shortfall_excluded_count == before.shortfall_excluded_count
            &&& after.shortfall_excluded_notional == before.shortfall_excluded_notional
            &&& after.response_num == before.response_num
            &&& after.response_den == before.response_den
            &&& after.response_count == before.response_count
            &&& after.response_excluded_count == before.response_excluded_count
            &&& after.response_excluded_notional == before.response_excluded_notional
            &&& pending.len() == v.horizons_ns.len()
            &&& forall|h: int|
                0 <= h < pending.len() ==> {
                    let entry = (#[trigger] pending[h]).last();
                    &&& grew_by(now.pending[h], pending[h], entry)
                    &&& takes ==> entry.side == fill.taker_side
                    &&& !takes ==> entry.side != fill.taker_side
                    &&& entry.notional == fill.price * fill.qty
                    &&& entry.mid2 == fill.mid2->0
                    &&& entry.due == fill.time + v.horizons_ns[h]
                    &&& entry.bucket == i
                }
        }),
{
    lemma_resolved_upto_setup(v, v.horizons_ns.len(), fill.time);
    let r = v.resolved(fill.time);
    lemma_at_wf(r, fill.time);
    let now = r.at(fill.time);
    let i = (fill.time / v.interval_ns) as int;
    lemma_notional_fits(fill.price, fill.qty);
    let after = v.filled(fill);
    assert(now.row_wf(now.buckets[i]));
    let row = after.buckets[i];
    let before = now.buckets[i];
    assert(row.shortfall_taker.drop_last() =~= before.shortfall_taker || row.shortfall_taker
        == before.shortfall_taker);
    assert(row.shortfall_maker.drop_last() =~= before.shortfall_maker || row.shortfall_maker
        == before.shortfall_maker);
    assert forall|h: int| 0 <= h < after.pending.len() implies {
        let entry = (#[trigger] after.pending[h]).last();
        grew_by(now.pending[h], after.pending[h], entry) && entry.due == fill.time
            + v.horizons_ns[h]
    } by {
        assert(after.pending[h].drop_last() =~= now.pending[h]);
        assert(fill.time + v.horizons_ns[h] <= u64::MAX);
    }
}

/// Buying above the pre-trade mid is a cost and below it a gain; selling is
/// the other way round, by as much.
pub proof fn law_a_cost_has_the_sign_of_the_trade(v: FlowView, fill: FlowFill)
    requires
        v.wf(),
        v.fill_room(fill),
        fill.price >= 0,
        external_and_watched(v, fill),
        fill.mid2 is Some,
    ensures
        ({
            let row = v.filled(fill).buckets[(fill.time / v.interval_ns) as int];
            let term = if fill.taker_agent == v.agent_id {
                row.shortfall_taker.last()
            } else {
                row.shortfall_maker.last()
            };
            let above = 2 * fill.price - fill.mid2->0;
            felt_move(term) == if watched_buys(v, fill) {
                (fill.price * fill.qty) * above
            } else {
                -((fill.price * fill.qty) * above)
            }
        }),
{
    law_a_watched_fill_carries_the_side_of_its_own_order(v, fill);
}

/// What the one side of a trade pays the other gains: the costs that
/// recorders of the taker and of the maker charge for one fill cancel out.
pub proof fn law_costs_of_the_two_sides_cancel(a: FlowView, b: FlowView, fill: FlowFill)
    requires
        a.wf(),
        b.wf(),
        a.fill_room(fill),
        b.fill_room(fill),
        fill.price >= 0,
        fill.mid2 is Some,
        fill.maker_agent == Some(b.agent_id),
        fill.taker_agent == a.agent_id,
        a.agent_id != b.agent_id,
    ensures
        ({
            let paid = a.filled(fill).buckets[(fill.time
                / a.interval_ns) as int].shortfall_taker.last();
            let gained = b.filled(fill).buckets[(fill.time
                / b.interval_ns) as int].shortfall_maker.last();
            felt_move(paid) + felt_move(gained) == 0
        }),
{
    law_a_cost_has_the_sign_of_the_trade(a, fill);
    law_a_cost_has_the_sign_of_the_trade(b, fill);
}

/// A watched fill without a pre-trade mid is excluded from the costs and from
/// the responses of every horizon, once and with its notional, and waits for
/// nothing.
pub proof fn law_a_watched_fill_without_a_mid_is_excluded(v: FlowView, fill: FlowFill)
    requires
        v.wf(),
        v.fill_room(fill),
        fill.price >= 0,
        external_and_watched(v, fill),
        fill.mid2 is None,
    ensures
        ({
            let now = v.resolved(fill.time).at(fill.time);
            let i = (fill.time / v.interval_ns) as int;
            let (before, after) = (now.buckets[i], v.filled(fill).buckets[i]);
            let notional = fill.price * fill.qty;
            &&& after.shortfall_taker == before.shortfall_taker
            &&& after.shortfall_maker == before.shortfall_maker
            &&& after.shortfall_taker_base == before.shortfall_taker_base
            &&& after.shortfall_maker_base == before.shortfall_maker_base
            &&& after.shortfall_excluded_count == before.shortfall_excluded_count + 1
            &&& after.shortfall_excluded_notional == before.shortfall_excluded_notional + notional
            &&& after.response_num == before.response_num
            &&& after.response_den == before.response_den
            &&& after.response_count == before.response_count
            &&& v.filled(fill).pending == now.pending
            &&& forall|h: int|
                #![trigger after.response_excluded_count[h]]
                0 <= h < v.horizons_ns.len() ==> {
                    &&& after.response_excluded_count[h] == before.response_excluded_count[h] + 1
                    &&& after.response_excluded_notional[h] == before.response_excluded_notional[h]
                        + notional
                }
        }),
{
    lemma_resolved_upto_setup(v, v.horizons_ns.len(), fill.time);
    let r = v.resolved(fill.time);
    lemma_at_wf(r, fill.time);
    let now = r.at(fill.time);
    let i = (fill.time / v.interval_ns) as int;
    lemma_notional_fits(fill.price, fill.qty);
    let row = now.buckets[i];
    assert(now.row_wf(row));
    let after = v.filled(fill).buckets[i];
    assert forall|h: int|
        #![trigger after.response_excluded_count[h]]
        0 <= h < v.horizons_ns.len() implies {
        &&& after.response_excluded_count[h] == row.response_excluded_count[h] + 1
        &&& after.response_excluded_notional[h] == row.response_excluded_notional[h] + fill.price
            * fill.qty
    } by {
        assert(now.pending[h] == now.pending[h] && now.buckets[i] == now.buckets[i]);
        assert(now.balanced(h, i));
    }
}

/// What a match adds to the counters of its interval. The market counts every
/// match between two owners, and apart every match of one owner; the watched
/// agent's own share is part of each. A watched fill is one event, and its
/// quantity and notional count for the taker or for the maker.
pub proof fn law_a_match_counts_for_those_in_it(v: FlowView, fill: FlowFill)
    requires
        v.wf(),
        v.fill_room(fill),
        fill.price >= 0,
    ensures
        ({
            let now = v.resolved(fill.time).at(fill.time);
            let i = (fill.time / v.interval_ns) as int;
            let (before, after) = (now.buckets[i], v.filled(fill).buckets[i]);
            let own = fill.maker_agent == Some(fill.taker_agent);
            let watched = external_and_watched(v, fill);
            let takes = watched && fill.taker_agent == v.agent_id;
            let makes = watched && !takes;
            let mine = own && fill.taker_agent == v.agent_id;
            let known = fill.mid2 is Some;
            let (one, qty, notional) = (1int, fill.qty as int, fill.price * fill.qty);
            &&& adds(before.market_trades as int, after.market_trades as int, !own, one)
            &&& adds(before.market_qty as int, after.market_qty as int, !own, qty)
            &&& adds(before.market_notional as int, after.market_notional as int, !own, notional)
            &&& adds(
                before.market_self_trades as int,
                after.market_self_trades as int,
                own,
                one,
            )
            &&& adds(before.market_self_qty as int, after.market_self_qty as int, own, qty)
            &&& adds(
                before.market_self_notional as int,
                after.market_self_notional as int,
                own,
                notional,
            )
            &&& adds(before.self_trades as int, after.self_trades as int, mine, one)
            &&& adds(before.self_qty as int, after.self_qty as int, mine, qty)
            &&& adds(before.self_notional as int, after.self_notional as int, mine, notional)
            &&& adds(before.fill_events as int, after.fill_events as int, watched, one)
            &&& adds(before.taker_qty as int, after.taker_qty as int, takes, qty)
            &&& adds(before.taker_notional as int, after.taker_notional as int, takes, notional)
            &&& adds(before.maker_qty as int, after.maker_qty as int, makes, qty)
            &&& adds(before.maker_notional as int, after.maker_notional as int, makes, notional)
            &&& adds(
                before.shortfall_taker_base as int,
                after.shortfall_taker_base as int,
                takes && known,
                notional,
            )
            &&& adds(
                before.shortfall_maker_base as int,
                after.shortfall_maker_base as int,
                makes && known,
                notional,
            )
            &&& adds(
                now.totals.fill_events as int,
                v.filled(fill).totals.fill_events as int,
                watched,
                one,
            )
            &&& v.filled(fill).buckets.len() == now.buckets.len()
            &&& forall|j: int|
                0 <= j < now.buckets.len() && j != i ==> v.filled(fill).buckets[j]
                    == #[trigger] now.buckets[j]
        }),
{
    lemma_resolved_upto_setup(v, v.horizons_ns.len(), fill.time);
    let r = v.resolved(fill.time);
    lemma_at_wf(r, fill.time);
    let now = r.at(fill.time);
    let i = (fill.time / v.interval_ns) as int;
    lemma_notional_fits(fill.price, fill.qty);
    assert(now.row_wf(now.buckets[i]));
}

/// The counter grows by `part` if it applies, and not otherwise.
pub open spec fn adds(before: int, after: int, applies: bool, part: int) -> bool {
    after == before + if applies {
        part
    } else {
        0
    }
}

/// A watched fill marks its own order as filled: the maker's where the watched
/// agent makes, else the taker's. An order counts once per interval and once
/// per life, with its first fill; no other fill marks any order.
pub proof fn law_a_fill_marks_the_watched_order_once(v: FlowView, fill: FlowFill)
    requires
        v.wf(),
        v.fill_room(fill),
    ensures
        ({
            let now = v.resolved(fill.time).at(fill.time);
            let i = (fill.time / v.interval_ns) as int;
            let (before, after) = (now.buckets[i], v.filled(fill).buckets[i]);
            let then = v.filled(fill);
            let order_id = if fill.maker_agent == Some(v.agent_id) {
                fill.maker_order_id
            } else {
                fill.taker_order_id
            };
            let watched = external_and_watched(v, fill);
            let first_here = !now.filled_in_interval.contains(order_id);
            let first_ever = !now.ever_filled.contains(order_id);
            &&& then.filled_in_interval == if watched {
                now.filled_in_interval.insert(order_id)
            } else {
                now.filled_in_interval
            }
            &&& then.ever_filled == if watched {
                now.ever_filled.insert(order_id)
            } else {
                now.ever_filled
            }
            &&& adds(
                before.filled_orders as int,
                after.filled_orders as int,
                watched && first_here,
                1,
            )
            &&& adds(
                now.totals.filled_orders as int,
                then.totals.filled_orders as int,
                watched && first_ever,
                1,
            )
            &&& then.totals.accepted_orders == v.totals.accepted_orders
            &&& then.totals.rejected_orders == v.totals.rejected_orders
            &&& then.totals.symbol == v.totals.symbol
            &&& then.live == v.live
            &&& then.filled_in_previous_interval == now.filled_in_previous_interval
            &&& then.prevailing_mid2 == v.prevailing_mid2
            &&& after.eligible_orders == before.eligible_orders
            &&& after.orders == before.orders
            &&& after.rejected_orders == before.rejected_orders
            &&& after.submitted_qty == before.submitted_qty
            &&& after.ratio_count == before.ratio_count
            &&& after.ratio_half_notional == before.ratio_half_notional
        }),
{
    lemma_resolved_upto_setup(v, v.horizons_ns.len(), fill.time);
    let r = v.resolved(fill.time);
    lemma_at_wf(r, fill.time);
    let now = r.at(fill.time);
    assert(now.row_wf(now.buckets[(fill.time / v.interval_ns) as int]));
}

/// The term that a waiting fill becomes when the mid at its horizon is known.
pub open spec fn response_of(entry: PendingResponse, mid2: u64) -> MoveTerm {
    MoveTerm { side: entry.side, notional: entry.notional, from2: entry.mid2, to2: mid2 }
}

/// The notional of waiting fills.
pub open spec fn waiting_notional(entries: Seq<PendingResponse>) -> int
    decreases entries.len(),
{
    if entries.len() == 0 {
        0
    } else {
        entries[0].notional + waiting_notional(entries.drop_first())
    }
}

/// The waiting fills of one interval.
pub open spec fn of_row(entries: Seq<PendingResponse>, row: int) -> Seq<PendingResponse> {
    entries.filter(|entry: PendingResponse| entry.bucket == row)
}

/// How a row changes at one horizon when waiting fills are settled: with a mid
/// each becomes a term, and without one each is excluded.
pub open spec fn settles(
    before: FlowBucketView,
    after: FlowBucketView,
    h: int,
    entries: Seq<PendingResponse>,
    mid2: Option<u64>,
) -> bool {
    let count = entries.len();
    let notional = waiting_notional(entries);
    match mid2 {
        Some(mid2) => {
            &&& after.response_num[h] == before.response_num[h] + entries.map_values(
                |entry: PendingResponse| response_of(entry, mid2),
            )
            &&& after.response_count[h] == before.response_count[h] + count
            &&& after.response_den[h] == before.response_den[h] + notional
            &&& after.response_excluded_count[h] == before.response_excluded_count[h]
            &&& after.response_excluded_notional[h] == before.response_excluded_notional[h]
        },
        None => {
            &&& after.response_num[h] == before.response_num[h]
            &&& after.response_count[h] == before.response_count[h]
            &&& after.response_den[h] == before.response_den[h]
            &&& after.response_excluded_count[h] == before.response_excluded_count[h] + count
            &&& after.response_excluded_notional[h] == before.response_excluded_notional[h]
                + notional
        },
    }
}

/// Nothing but responses differs, and those only at the horizons from `from`
/// up to `upto`.
pub open spec fn same_but_responses(
    before: FlowBucketView,
    after: FlowBucketView,
    from: int,
    upto: int,
) -> bool {
    &&& after == FlowBucketView {
        response_num: after.response_num,
        response_den: after.response_den,
        response_count: after.response_count,
        response_excluded_notional: after.response_excluded_notional,
        response_excluded_count: after.response_excluded_count,
        ..before
    }
    &&& after.response_num.len() == before.response_num.len()
    &&& after.response_den.len() == before.response_den.len()
    &&& after.response_count.len() == before.response_count.len()
    &&& after.response_excluded_notional.len() == before.response_excluded_notional.len()
    &&& after.response_excluded_count.len() == before.response_excluded_count.len()
    &&& forall|h: int|
        #![trigger after.response_num[h]]
        0 <= h < before.response_num.len() && !(from <= h < upto) ==> {
            &&& after.response_num[h] == before.response_num[h]
            &&& after.response_den[h] == before.response_den[h]
            &&& after.response_count[h] == before.response_count[h]
            &&& after.response_excluded_notional[h] == before.response_excluded_notional[h]
            &&& after.response_excluded_count[h] == before.response_excluded_count[h]
        }
}

/// How many of the first waiting fills are due before a time, and so settled:
/// all of those are, and the next is not.
pub open spec fn due_run(queue: Seq<PendingResponse>, before: Nanos, count: int) -> bool {
    &&& 0 <= count <= queue.len()
    &&& forall|k: int| 0 <= k < count ==> (#[trigger] queue[k]).due < before
    &&& count < queue.len() ==> queue[count].due >= before
}

/// Waiting fills of one horizon leave the queue from its front, and each row
/// settles its own.
pub open spec fn settled_front(v: FlowView, w: FlowView, h: int, count: int, mid2: Option<u64>) -> bool {
    &&& w.pending == v.pending.update(h, v.pending[h].skip(count))
    &&& w.buckets.len() == v.buckets.len()
    &&& forall|i: int|
        #![trigger w.buckets[i]]
        0 <= i < v.buckets.len() ==> {
            &&& same_but_responses(v.buckets[i], w.buckets[i], h, h + 1)
            &&& settles(
                v.buckets[i],
                w.buckets[i],
                h,
                of_row(v.pending[h].take(count), i),
                mid2,
            )
        }
}

/// Settling nothing changes nothing.
pub proof fn lemma_settled_none(v: FlowView, h: int, mid2: Option<u64>)
    requires
        v.wf(),
        0 <= h < v.pending.len(),
    ensures
        settled_front(v, v, h, 0, mid2),
{
    assert(v.pending[h].skip(0) =~= v.pending[h]);
    assert(v.pending.update(h, v.pending[h].skip(0)) =~= v.pending);
    assert forall|i: int|
        #![trigger v.buckets[i]]
        0 <= i < v.buckets.len() implies settles(
        v.buckets[i],
        v.buckets[i],
        h,
        of_row(v.pending[h].take(0), i),
        mid2,
    ) by {
        reveal(Seq::filter);
        let none = of_row(v.pending[h].take(0), i);
        assert(none =~= Seq::<PendingResponse>::empty());
        if let Some(mid2) = mid2 {
            let terms = none.map_values(|entry: PendingResponse| response_of(entry, mid2));
            assert(v.buckets[i].response_num[h] + terms =~= v.buckets[i].response_num[h]);
        }
    }
}

/// Settling one more from the front.
pub proof fn lemma_settled_more(v: FlowView, w: FlowView, h: int, count: int, mid2: Option<u64>)
    requires
        v.wf(),
        0 <= h < v.pending.len(),
        v.pending[h].len() > 0,
        0 <= count < v.pending[h].len(),
        settled_front(v.settled(h, mid2), w, h, count, mid2),
    ensures
        settled_front(v, w, h, count + 1, mid2),
{
    let s = v.settled(h, mid2);
    let queue = v.pending[h];
    let entry = queue[0];
    let j = entry.bucket as int;
    lemma_settled_wf(v, h, mid2);
    assert(s.pending[h] == queue.drop_first());
    assert(queue.drop_first().skip(count) =~= queue.skip(count + 1));
    assert(w.pending =~= v.pending.update(h, queue.skip(count + 1)));
    let first = queue.take(count + 1);
    assert(first.drop_first() =~= queue.drop_first().take(count));
    assert(first[0] == entry);
    assert forall|i: int|
        #![trigger w.buckets[i]]
        0 <= i < v.buckets.len() implies {
        &&& same_but_responses(v.buckets[i], w.buckets[i], h, h + 1)
        &&& settles(v.buckets[i], w.buckets[i], h, of_row(first, i), mid2)
    } by {
        let here = |e: PendingResponse| e.bucket == i;
        let rest = of_row(queue.drop_first().take(count), i);
        assert(v.row_wf(v.buckets[i]));
        lemma_filter_front(first, here);
        assert(same_but_responses(v.buckets[i], s.buckets[i], h, h + 1));
        assert(same_but_responses(s.buckets[i], w.buckets[i], h, h + 1));
        assert forall|g: int|
            #![trigger w.buckets[i].response_num[g]]
            0 <= g < v.buckets[i].response_num.len() && g != h implies {
            &&& w.buckets[i].response_num[g] == v.buckets[i].response_num[g]
            &&& w.buckets[i].response_den[g] == v.buckets[i].response_den[g]
            &&& w.buckets[i].response_count[g] == v.buckets[i].response_count[g]
            &&& w.buckets[i].response_excluded_notional[g]
                == v.buckets[i].response_excluded_notional[g]
            &&& w.buckets[i].response_excluded_count[g] == v.buckets[i].response_excluded_count[g]
        } by {
            assert(w.buckets[i].response_num[g] == s.buckets[i].response_num[g]);
            assert(s.buckets[i].response_num[g] == v.buckets[i].response_num[g]);
        }
        assert(settles(s.buckets[i], w.buckets[i], h, rest, mid2));
        if i == j {
            let mine = of_row(first, i);
            assert(mine == seq![entry] + rest);
            assert(mine.drop_first() =~= rest);
            assert(waiting_notional(mine) == entry.notional + waiting_notional(rest));
            if let Some(mid2) = mid2 {
                let turn = |e: PendingResponse| response_of(e, mid2);
                assert(v.buckets[i].response_num[h] + mine.map_values(turn)
                    =~= v.buckets[i].response_num[h].push(response_of(entry, mid2))
                    + rest.map_values(turn));
            }
        } else {
            assert(s.buckets[i] == v.buckets[i]);
            assert(of_row(first, i) == rest);
        }
    }
}

/// The fills of one horizon that are due are settled from the front.
proof fn lemma_resolved_front(v: FlowView, h: int, before: Nanos) -> (count: int)
    requires
        v.wf(),
        0 <= h < v.pending.len(),
    ensures
        due_run(v.pending[h], before, count),
        settled_front(v, v.resolved_at(h, before), h, count, v.prevailing_mid2),
        v.resolved_at(h, before).wf(),
        v.resolved_at(h, before).same_setup(v),
    decreases v.pending[h].len(),
{
    let queue = v.pending[h];
    if queue.len() == 0 || queue[0].due >= before {
        lemma_settled_none(v, h, v.prevailing_mid2);
        0
    } else {
        let s = v.settled(h, v.prevailing_mid2);
        lemma_settled_wf(v, h, v.prevailing_mid2);
        let count = lemma_resolved_front(s, h, before);
        assert(s.pending[h] == queue.drop_first());
        assert forall|k: int| 0 <= k < count + 1 implies (#[trigger] queue[k]).due < before by {
            if k > 0 {
                assert(queue.drop_first()[k - 1] == queue[k]);
            }
        }
        if count + 1 < queue.len() {
            assert(queue.drop_first()[count] == queue[count + 1]);
        }
        lemma_settled_more(v, s.resolved_at(h, before), h, count, v.prevailing_mid2);
        count + 1
    }
}

/// The first `counts[h]` waiting fills of each horizon below `upto` were due
/// and are settled, each into its own row; the other horizons are untouched.
pub open spec fn settled_below(
    v: FlowView,
    w: FlowView,
    upto: int,
    counts: Seq<int>,
    before: Nanos,
) -> bool {
    &&& counts.len() == upto
    &&& w.pending.len() == v.pending.len()
    &&& w.buckets.len() == v.buckets.len()
    &&& forall|h: int|
        0 <= h < v.pending.len() ==> queue_settled_below(
            v.pending[h],
            #[trigger] w.pending[h],
            h < upto,
            counts[h],
            before,
        )
    &&& forall|i: int|
        0 <= i < v.buckets.len() ==> row_settled_below(
            v,
            i,
            #[trigger] w.buckets[i],
            upto,
            counts,
        )
}

/// The first `count` of the waiting fills were due and have left, where the
/// horizon is settled; elsewhere all of them wait on.
pub open spec fn queue_settled_below(
    queue: Seq<PendingResponse>,
    left: Seq<PendingResponse>,
    settled: bool,
    count: int,
    before: Nanos,
) -> bool {
    if settled {
        due_run(queue, before, count) && left == queue.skip(count)
    } else {
        left == queue
    }
}

/// The row `i` has settled its own of the first `counts[h]` waiting fills of
/// each horizon below `upto`, and nothing else has changed in it.
pub open spec fn row_settled_below(
    v: FlowView,
    i: int,
    row: FlowBucketView,
    upto: int,
    counts: Seq<int>,
) -> bool {
    &&& same_but_responses(v.buckets[i], row, 0, upto)
    &&& forall|h: int|
        0 <= h < upto ==> settles(
            v.buckets[i],
            row,
            h,
            of_row(v.pending[h].take(#[trigger] counts[h]), i),
            v.prevailing_mid2,
        )
}

#[verifier::rlimit(40)]
proof fn lemma_settled_below(v: FlowView, upto: nat, before: Nanos) -> (counts: Seq<int>)
    requires
        v.wf(),
        upto <= v.pending.len(),
    ensures
        settled_below(v, v.resolved_upto(upto, before), upto as int, counts, before),
    decreases upto,
{
    if upto == 0 {
        let none = Seq::<int>::empty();
        assert(settled_below(v, v, 0, none, before));
        none
    } else {
        let n = (upto - 1) as nat;
        let h = n as int;
        let counts = lemma_settled_below(v, n, before);
        lemma_resolved_upto_setup(v, n, before);
        let w = v.resolved_upto(n, before);
        let count = lemma_resolved_front(w, h, before);
        let x = v.resolved_upto(upto, before);
        let more = counts.push(count);
        assert(w.pending[h] == v.pending[h]);
        assert forall|g: int| 0 <= g < v.pending.len() implies queue_settled_below(
            v.pending[g],
            #[trigger] x.pending[g],
            g < upto as int,
            more[g],
            before,
        ) by {
            assert(g != h ==> x.pending[g] == w.pending[g]);
            if g < h {
                assert(more[g] == counts[g]);
                assert(queue_settled_below(v.pending[g], w.pending[g], true, counts[g], before));
            } else if g > h {
                assert(queue_settled_below(v.pending[g], w.pending[g], false, counts[g], before));
            }
        }
        assert forall|i: int| 0 <= i < v.buckets.len() implies row_settled_below(
            v,
            i,
            #[trigger] x.buckets[i],
            upto as int,
            more,
        ) by {
            let (a, b, c) = (v.buckets[i], w.buckets[i], x.buckets[i]);
            assert(v.row_wf(a));
            assert(row_settled_below(v, i, b, n as int, counts));
            assert(same_but_responses(a, b, 0, n as int));
            assert(same_but_responses(b, c, h, h + 1));
            assert forall|g: int|
                #![trigger c.response_num[g]]
                0 <= g < a.response_num.len() && !(0 <= g < upto) implies {
                &&& c.response_num[g] == a.response_num[g]
                &&& c.response_den[g] == a.response_den[g]
                &&& c.response_count[g] == a.response_count[g]
                &&& c.response_excluded_notional[g] == a.response_excluded_notional[g]
                &&& c.response_excluded_count[g] == a.response_excluded_count[g]
            } by {
                assert(c.response_num[g] == b.response_num[g]);
                assert(b.response_num[g] == a.response_num[g]);
            }
            assert(same_but_responses(a, c, 0, upto as int));
            assert forall|g: int|
                #![trigger more[g]]
                0 <= g < upto implies settles(
                a,
                c,
                g,
                of_row(v.pending[g].take(more[g]), i),
                v.prevailing_mid2,
            ) by {
                if g < n {
                    assert(more[g] == counts[g]);
                    assert(c.response_num[g] == b.response_num[g]);
                    assert(settles(
                        a,
                        b,
                        g,
                        of_row(v.pending[g].take(counts[g]), i),
                        v.prevailing_mid2,
                    ));
                } else {
                    assert(b.response_num[g] == a.response_num[g]);
                    assert(w.prevailing_mid2 == v.prevailing_mid2);
                }
            }
        }
        assert(more.len() == upto);
        assert(x.pending.len() == v.pending.len());
        assert(x.buckets.len() == v.buckets.len());
        assert(settled_below(v, x, upto as int, more, before));
        more
    }
}

/// What is due before a time is settled, and nothing else. At each horizon the
/// waiting fills leave in their order, up to the first that is not due. Each
/// enters the row of the interval in which it was filled, at its own horizon:
/// with the mid that prevails as a term of its own side, notional and
/// pre-trade mid, and without one as excluded. Everything else stays.
pub proof fn law_due_responses_are_settled_with_the_prevailing_mid(v: FlowView, before: Nanos)
    requires
        v.wf(),
    ensures
        ({
            let w = v.resolved(before);
            &&& w == FlowView { buckets: w.buckets, pending: w.pending, ..v }
            &&& w.pending.len() == v.pending.len()
            &&& w.buckets.len() == v.buckets.len()
            &&& exists|counts: Seq<int>| #[trigger]
                settled_below(v, w, v.horizons_ns.len() as int, counts, before)
        }),
{
    lemma_resolved_upto_setup(v, v.horizons_ns.len(), before);
    let counts = lemma_settled_below(v, v.horizons_ns.len(), before);
    assert(settled_below(v, v.resolved(before), v.horizons_ns.len() as int, counts, before));
}

/// A response has the sign of the trade: a mid that went up after a buy, or
/// down after a sell, counts as positive, by the move since before the trade.
pub proof fn law_a_response_has_the_sign_of_the_trade(entry: PendingResponse, mid2: u64)
    ensures
        felt_move(response_of(entry, mid2)) == if entry.side == Side::Bid {
            entry.notional * (mid2 - entry.mid2)
        } else {
            entry.notional * (entry.mid2 - mid2)
        },
{
    assert(-(entry.notional * (mid2 - entry.mid2)) == entry.notional * (entry.mid2 - mid2))
        by (nonlinear_arith);
}

/// Quotes settle what was due before them with the mid that held until then,
/// and only then move the mid: to the sum of the best prices, in half ticks,
/// if both are positive, and to none otherwise.
pub proof fn law_a_quote_moves_the_mid_after_what_was_due(
    v: FlowView,
    time: Nanos,
    bid_price: i64,
    ask_price: i64,
)
    requires
        v.wf(),
    ensures
        ({
            let w = v.quoted(time, bid_price, ask_price);
            &&& w.buckets == v.resolved(time).buckets
            &&& w.pending == v.resolved(time).pending
            &&& w.prevailing_mid2 matches Some(mid2) ==> bid_price > 0 && ask_price > 0 && mid2
                == bid_price + ask_price
            &&& w.prevailing_mid2 is None ==> bid_price <= 0 || ask_price <= 0
            &&& w == FlowView {
                buckets: w.buckets,
                pending: w.pending,
                prevailing_mid2: w.prevailing_mid2,
                ..v
            }
        }),
{
    lemma_resolved_upto_setup(v, v.horizons_ns.len(), time);
}

/// Nothing has been counted in the row, but for its cohort.
pub open spec fn nothing_counted(row: FlowBucketView, bins: nat, horizons: nat) -> bool {
    &&& row.market_trades == 0 && row.market_qty == 0 && row.market_notional == 0
    &&& row.market_self_trades == 0 && row.market_self_qty == 0 && row.market_self_notional == 0
    &&& row.self_trades == 0 && row.self_qty == 0 && row.self_notional == 0
    &&& row.taker_qty == 0 && row.taker_notional == 0
    &&& row.maker_qty == 0 && row.maker_notional == 0
    &&& row.orders == 0 && row.rejected_orders == 0 && row.filled_orders == 0
    &&& row.fill_events == 0 && row.submitted_qty == 0
    &&& row.zero_depth_count == 0 && row.zero_depth_qty == 0 && row.zero_depth_half_notional == 0
    &&& row.unvalued_count == 0 && row.unvalued_qty == 0
    &&& row.shortfall_excluded_count == 0 && row.shortfall_excluded_notional == 0
    &&& row.shortfall_taker_base == 0 && row.shortfall_maker_base == 0
    &&& row.shortfall_taker.len() == 0 && row.shortfall_maker.len() == 0
    &&& row.ratio_count.len() == bins && row.ratio_half_notional.len() == bins
    &&& forall|b: int|
        #![trigger row.ratio_count[b]]
        0 <= b < bins ==> row.ratio_count[b] == 0 && row.ratio_half_notional[b] == 0
    &&& row.response_num.len() == horizons && row.response_den.len() == horizons
    &&& row.response_count.len() == horizons
    &&& row.response_excluded_notional.len() == horizons
    &&& row.response_excluded_count.len() == horizons
    &&& forall|h: int|
        #![trigger row.response_num[h]]
        0 <= h < horizons ==> {
            &&& row.response_num[h].len() == 0
            &&& row.response_den[h] == 0
            &&& row.response_count[h] == 0
            &&& row.response_excluded_notional[h] == 0
            &&& row.response_excluded_count[h] == 0
        }
}

/// Time falls into the interval that holds it: interval `i` covers the times
/// from `i` intervals on, up to the next. Entering it makes the rows up to it,
/// the new ones empty and each with its own start; every interval entered on
/// the way has the orders that are live then as its cohort, and no other row
/// changes. Orders filled in an interval are remembered through the next one.
pub proof fn law_an_interval_starts_with_the_live_orders(v: FlowView, time: Nanos)
    requires
        v.wf(),
        v.reaches(time),
        v.live.len() <= u64::MAX,
    ensures
        ({
            let now = v.at(time);
            let i = (time / v.interval_ns) as int;
            let had = v.buckets.len();
            &&& i * v.interval_ns <= time < (i + 1) * v.interval_ns
            &&& now.buckets.len() == if i < had {
                had as int
            } else {
                i + 1
            }
            &&& forall|j: int|
                0 <= j < now.buckets.len() ==> {
                    let row = #[trigger] now.buckets[j];
                    let entered = v.current_interval < j <= i;
                    &&& entered ==> row.eligible_orders == v.live.len()
                    &&& j < had ==> row == FlowBucketView {
                        eligible_orders: row.eligible_orders,
                        ..v.buckets[j]
                    }
                    &&& j < had && !entered ==> row == v.buckets[j]
                    &&& j >= had ==> {
                        &&& nothing_counted(
                            row,
                            v.ratio_edges.len() + 1,
                            v.horizons_ns.len(),
                        )
                        &&& row.start == j * v.interval_ns
                        &&& row.symbol == v.symbol
                        &&& !entered ==> row.eligible_orders == 0
                    }
                }
            &&& now.current_interval == if i > v.current_interval {
                i
            } else {
                v.current_interval as int
            }
            &&& i > v.current_interval ==> {
                &&& now.filled_in_interval == Set::<u64>::empty()
                &&& i == v.current_interval + 1 ==> now.filled_in_previous_interval
                    == v.filled_in_interval
                &&& i > v.current_interval + 1 ==> now.filled_in_previous_interval
                    == Set::<u64>::empty()
            }
            &&& i <= v.current_interval ==> {
                &&& now.filled_in_interval == v.filled_in_interval
                &&& now.filled_in_previous_interval == v.filled_in_previous_interval
            }
            &&& now.pending == v.pending && now.live == v.live && now.ever_filled == v.ever_filled
            &&& now.totals == v.totals && now.prevailing_mid2 == v.prevailing_mid2
            &&& now.agent_id == v.agent_id && now.interval_ns == v.interval_ns
        }),
{
    let i = (time / v.interval_ns) as int;
    let t = time as int;
    let w = v.interval_ns as int;
    assert(i * w <= t < (i + 1) * w) by (nonlinear_arith)
        requires
            i == t / w,
            w > 0,
            t >= 0,
    ;
    let now = v.at(time);
    assert forall|j: int| 0 <= j < now.buckets.len() && j >= v.buckets.len() implies (
    #[trigger] now.buckets[j]).start == j * v.interval_ns by {
        assert(0 <= j * w <= i * w) by (nonlinear_arith)
            requires
                0 <= j <= i,
                w > 0,
        ;
    }
}

/// An accepted order of the watched agent counts in its interval, joins the
/// cohort, adds its quantity, and is live. An order of another agent changes
/// nothing.
pub proof fn law_an_accepted_order_joins_the_cohort(
    v: FlowView,
    time: Nanos,
    agent_id: AgentId,
    order_id: u64,
    qty: u64,
)
    requires
        v.wf(),
        v.accept_room(time, agent_id, qty),
    ensures
        agent_id != v.agent_id ==> v.accepted(time, agent_id, order_id, qty) == v,
        agent_id == v.agent_id ==> {
            let now = v.at(time);
            let i = (time / v.interval_ns) as int;
            let after = v.accepted(time, agent_id, order_id, qty);
            let (old_row, row) = (now.buckets[i], after.buckets[i]);
            &&& after.live.contains(order_id)
            &&& forall|id: u64| id != order_id ==> after.live.contains(id) == v.live.contains(id)
            &&& row.orders == old_row.orders + 1
            &&& row.eligible_orders == old_row.eligible_orders + 1
            &&& row.submitted_qty == old_row.submitted_qty + qty
            &&& row == FlowBucketView {
                orders: row.orders,
                eligible_orders: row.eligible_orders,
                submitted_qty: row.submitted_qty,
                ..old_row
            }
            &&& after.totals.accepted_orders == v.totals.accepted_orders + 1
            &&& after.totals.rejected_orders == v.totals.rejected_orders
            &&& after.totals.filled_orders == v.totals.filled_orders
            &&& after.totals.fill_events == v.totals.fill_events
            &&& after == FlowView {
                live: after.live,
                totals: after.totals,
                buckets: now.buckets.update(i, row),
                ..now
            }
        },
{
    lemma_at_wf(v, time);
}

/// A rejected order of the watched agent counts once in its interval and in
/// the totals, and nowhere else. One of another agent changes nothing.
pub proof fn law_a_rejected_order_counts_as_rejected(v: FlowView, time: Nanos, agent_id: AgentId)
    requires
        v.wf(),
        v.reject_room(time, agent_id),
    ensures
        agent_id != v.agent_id ==> v.rejected(time, agent_id) == v,
        agent_id == v.agent_id ==> {
            let now = v.at(time);
            let i = (time / v.interval_ns) as int;
            let after = v.rejected(time, agent_id);
            let (old_row, row) = (now.buckets[i], after.buckets[i]);
            &&& row.rejected_orders == old_row.rejected_orders + 1
            &&& row == FlowBucketView { rejected_orders: row.rejected_orders, ..old_row }
            &&& after.totals.rejected_orders == v.totals.rejected_orders + 1
            &&& after.totals.accepted_orders == v.totals.accepted_orders
            &&& after.totals.filled_orders == v.totals.filled_orders
            &&& after.totals.fill_events == v.totals.fill_events
            &&& after == FlowView {
                totals: after.totals,
                buckets: now.buckets.update(i, row),
                ..now
            }
        },
{
    lemma_at_wf(v, time);
}

/// The order counts in this bin and in no other: its ratio reaches every edge
/// below the bin, and not the one above.
pub open spec fn sized_in(
    edges: Seq<RatioEdge>,
    a: FlowBucketView,
    b: FlowBucketView,
    value: int,
    depth: int,
    bin: int,
) -> bool {
    &&& 0 <= bin <= edges.len()
    &&& forall|e: int|
        0 <= e < bin ==> (#[trigger] edges[e]).num * (2 * depth) <= value * edges[e].den
    &&& bin < edges.len() ==> edges[bin].num * (2 * depth) > value * edges[bin].den
    &&& b.ratio_count[bin] == a.ratio_count[bin] + 1
    &&& b.ratio_half_notional[bin] == a.ratio_half_notional[bin] + value
    &&& forall|e: int|
        #![trigger b.ratio_count[e]]
        0 <= e <= edges.len() && e != bin ==> b.ratio_count[e] == a.ratio_count[e]
            && b.ratio_half_notional[e] == a.ratio_half_notional[e]
}

/// An order is sized by its value against the depth beyond the watched
/// agent's own orders: without a value it counts as unvalued, without depth as
/// such, and else in the bin whose lower edge its ratio reaches and whose
/// upper edge it does not. Its value, in half tick-lots, counts there.
pub proof fn law_an_order_is_sized_against_the_depth(
    v: FlowView,
    time: Nanos,
    qty: u64,
    half_notional: Option<u128>,
    depth: u128,
)
    requires
        v.wf(),
        v.size_room(time, qty, half_notional, depth),
    ensures
        ({
            let now = v.at(time);
            let i = (time / v.interval_ns) as int;
            let after = v.sized(time, qty, half_notional, depth);
            let (a, b) = (now.buckets[i], after.buckets[i]);
            let value = half_notional->0 as int;
            let no_depth = half_notional is Some && depth == 0;
            &&& adds(a.unvalued_count as int, b.unvalued_count as int, half_notional is None, 1)
            &&& adds(
                a.unvalued_qty as int,
                b.unvalued_qty as int,
                half_notional is None,
                qty as int,
            )
            &&& adds(a.zero_depth_count as int, b.zero_depth_count as int, no_depth, 1)
            &&& adds(a.zero_depth_qty as int, b.zero_depth_qty as int, no_depth, qty as int)
            &&& adds(
                a.zero_depth_half_notional as int,
                b.zero_depth_half_notional as int,
                no_depth,
                value,
            )
            &&& b.ratio_count.len() == a.ratio_count.len()
            &&& b.ratio_half_notional.len() == a.ratio_half_notional.len()
            &&& half_notional is None || depth == 0 ==> b.ratio_count == a.ratio_count
                && b.ratio_half_notional == a.ratio_half_notional
            &&& half_notional is Some && depth > 0 ==> exists|bin: int| #[trigger]
                sized_in(v.ratio_edges, a, b, value, depth as int, bin)
            &&& b == FlowBucketView {
                unvalued_count: b.unvalued_count,
                unvalued_qty: b.unvalued_qty,
                zero_depth_count: b.zero_depth_count,
                zero_depth_qty: b.zero_depth_qty,
                zero_depth_half_notional: b.zero_depth_half_notional,
                ratio_count: b.ratio_count,
                ratio_half_notional: b.ratio_half_notional,
                ..a
            }
            &&& after == FlowView { buckets: now.buckets.update(i, b), ..now }
        }),
{
    lemma_at_wf(v, time);
    let now = v.at(time);
    let i = (time / v.interval_ns) as int;
    let a = now.buckets[i];
    let b = v.sized(time, qty, half_notional, depth).buckets[i];
    if half_notional is Some && depth > 0 {
        let value = half_notional->0;
        let bin = ratio_bin(v.ratio_edges, value, depth) as int;
        law_bins_are_half_open(v.ratio_edges, value, depth);
        assert forall|e: int| 0 <= e < bin implies (#[trigger] v.ratio_edges[e]).num * (2 * depth)
            <= value * v.ratio_edges[e].den by {}
        assert(sized_in(v.ratio_edges, a, b, value as int, depth as int, bin));
    }
}

/// An order that left the book is neither live nor remembered as filled; no
/// other order is touched.
pub proof fn law_an_order_that_left_is_not_live(v: FlowView, time: Nanos, order_id: u64)
    requires
        v.wf(),
        v.reaches(time),
    ensures
        ({
            let w = v.gone(time, order_id);
            &&& !w.live.contains(order_id)
            &&& !w.ever_filled.contains(order_id)
            &&& forall|id: u64|
                id != order_id ==> (#[trigger] w.live.contains(id) == v.live.contains(id))
            &&& forall|id: u64|
                id != order_id ==> (#[trigger] w.ever_filled.contains(id)
                    == v.ever_filled.contains(id))
            &&& w.totals == v.totals
            &&& w.pending == v.pending
            &&& w.prevailing_mid2 == v.prevailing_mid2
            &&& w.current_interval == v.at(time).current_interval
            &&& w.filled_in_interval == v.at(time).filled_in_interval
            &&& w.filled_in_previous_interval == v.at(time).filled_in_previous_interval
            &&& forall|j: int|
                0 <= j < w.buckets.len() ==> #[trigger] w.buckets[j] == v.at(time).buckets[j]
            &&& (time / v.interval_ns) as int > v.current_interval ==> w.buckets
                == v.at(time).buckets
            &&& (time / v.interval_ns) as int <= v.current_interval ==> w.buckets == v.buckets
        }),
{
}

} // verus!
