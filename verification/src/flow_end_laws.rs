//! How a flow recorder ends a run: what waits is excluded, and late rows join
//! the last interval.

use crate::flow::FlowBucket;
use crate::flow_entry_laws::{
    lemma_settled_more, lemma_settled_none, of_row, same_but_responses, settled_front, settles,
};
use crate::flow_lemmas::{
    lemma_dropped_at, lemma_dropped_upto, lemma_folded_once_shaped, lemma_grown_wf,
    lemma_resolved_upto_setup, lemma_rolled_wf, lemma_settled_wf, lemma_wf_shaped, row_shaped,
    shaped,
};
use crate::flow_model::{FlowBucketView, FlowView, RatioEdge};
use crate::types::{AgentId, Nanos, Symbol};
use vstd::prelude::*;

verus! {

/// Every waiting fill of a horizon leaves, excluded.
proof fn lemma_dropped_front(v: FlowView, h: int)
    requires
        v.wf(),
        0 <= h < v.pending.len(),
    ensures
        settled_front(v, v.dropped_at(h), h, v.pending[h].len() as int, None),
    decreases v.pending[h].len(),
{
    if v.pending[h].len() == 0 {
        lemma_settled_none(v, h, None);
    } else {
        let s = v.settled(h, None);
        lemma_settled_wf(v, h, None);
        assert(s.pending[h] == v.pending[h].drop_first());
        lemma_dropped_front(s, h);
        lemma_settled_more(v, s.dropped_at(h), h, s.pending[h].len() as int, None);
    }
}

/// The row `i` has excluded its own waiting fills of each horizon below
/// `upto`, and nothing else has changed in it.
pub open spec fn row_excluded_below(
    v: FlowView,
    i: int,
    row: FlowBucketView,
    upto: int,
) -> bool {
    &&& same_but_responses(v.buckets[i], row, 0, upto)
    &&& forall|h: int|
        0 <= h < upto ==> settles(
            v.buckets[i],
            row,
            h,
            of_row(#[trigger] v.pending[h], i),
            None,
        )
}

proof fn lemma_excluded_below(v: FlowView, upto: nat)
    requires
        v.wf(),
        upto <= v.pending.len(),
    ensures
        ({
            let w = v.dropped_upto(upto);
            &&& w.buckets.len() == v.buckets.len()
            &&& forall|h: int|
                upto <= h < v.pending.len() ==> #[trigger] w.pending[h] == v.pending[h]
            &&& forall|i: int|
                0 <= i < v.buckets.len() ==> row_excluded_below(
                    v,
                    i,
                    #[trigger] w.buckets[i],
                    upto as int,
                )
        }),
    decreases upto,
{
    if upto > 0 {
        let n = (upto - 1) as nat;
        let h = n as int;
        lemma_excluded_below(v, n);
        lemma_dropped_upto(v, n);
        let w = v.dropped_upto(n);
        lemma_dropped_front(w, h);
        lemma_dropped_at(w, h);
        let x = v.dropped_upto(upto);
        assert(w.pending[h] == v.pending[h]);
        assert(v.pending[h].take(v.pending[h].len() as int) =~= v.pending[h]);
        assert forall|g: int| upto <= g < v.pending.len() implies #[trigger] x.pending[g]
            == v.pending[g] by {
            assert(x.pending[g] == w.pending[g]);
        }
        assert forall|i: int| 0 <= i < v.buckets.len() implies row_excluded_below(
            v,
            i,
            #[trigger] x.buckets[i],
            upto as int,
        ) by {
            let (a, b, c) = (v.buckets[i], w.buckets[i], x.buckets[i]);
            assert(v.row_wf(a));
            assert(row_excluded_below(v, i, b, n as int));
            assert(same_but_responses(b, c, h, h + 1));
            assert forall|g: int|
                #![trigger c.response_num[g]]
                0 <= g < a.response_num.len() && !(0 <= g < upto) implies {
                &&& c.response_num[g] == a.response_num[g]
                &&& c.response_den[g] == a.response_den[g]
                &&& c.response_count[g] == a.response_count[g]
                &&& c.response_excluded_notional[g] == a.response_excluded_notional[g]
                &&& c.response_excluded_count[g] == a.response_excluded_count[g]
            } by {
                assert(c.response_num[g] == b.response_num[g]);
                assert(b.response_num[g] == a.response_num[g]);
            }
            assert forall|g: int| 0 <= g < upto implies settles(
                a,
                c,
                g,
                of_row(#[trigger] v.pending[g], i),
                None,
            ) by {
                if g < n {
                    assert(c.response_num[g] == b.response_num[g]);
                } else {
                    assert(b.response_num[g] == a.response_num[g]);
                }
            }
        }
    }
}

/// The end of a run settles the responses that are due by the end, the end
/// itself included, and excludes all that still wait, each in the row of its
/// own interval and at its own horizon. Nothing waits after.
pub proof fn law_what_waits_past_the_end_is_excluded(v: FlowView, end_time: Nanos)
    requires
        v.wf(),
    ensures
        ({
            let due = v.resolved(
                if end_time < u64::MAX {
                    (end_time + 1) as u64
                } else {
                    end_time
                },
            );
            let off = v.closed_off(end_time);
            &&& off == FlowView { buckets: off.buckets, pending: off.pending, ..v }
            &&& off.pending.len() == v.pending.len()
            &&& forall|h: int| 0 <= h < off.pending.len() ==> (#[trigger] off.pending[h]).len() == 0
            &&& off.buckets.len() == due.buckets.len()
            &&& forall|i: int|
                0 <= i < due.buckets.len() ==> row_excluded_below(
                    due,
                    i,
                    #[trigger] off.buckets[i],
                    v.horizons_ns.len() as int,
                )
        }),
{
    let before = if end_time < u64::MAX {
        (end_time + 1) as u64
    } else {
        end_time
    };
    lemma_resolved_upto_setup(v, v.horizons_ns.len(), before);
    let due = v.resolved(before);
    lemma_dropped_upto(due, v.horizons_ns.len());
    lemma_excluded_below(due, v.horizons_ns.len());
}

/// The counters of a row that add up over intervals.
pub open spec fn tallies(row: FlowBucketView) -> Seq<int> {
    seq![
        row.market_trades as int,
        row.market_qty as int,
        row.market_notional as int,
        row.market_self_trades as int,
        row.market_self_qty as int,
        row.market_self_notional as int,
        row.self_trades as int,
        row.self_qty as int,
        row.self_notional as int,
        row.taker_qty as int,
        row.taker_notional as int,
        row.maker_qty as int,
        row.maker_notional as int,
        row.orders as int,
        row.rejected_orders as int,
        row.fill_events as int,
        row.submitted_qty as int,
        row.zero_depth_count as int,
        row.zero_depth_qty as int,
        row.zero_depth_half_notional as int,
        row.unvalued_count as int,
        row.unvalued_qty as int,
        row.shortfall_excluded_count as int,
        row.shortfall_excluded_notional as int,
        row.shortfall_taker_base as int,
        row.shortfall_maker_base as int,
    ]
}

/// The sum of one of those counters over rows.
pub open spec fn tallied(rows: Seq<FlowBucketView>, k: int) -> int
    decreases rows.len(),
{
    if rows.len() == 0 {
        0
    } else {
        tallied(rows.drop_last(), k) + tallies(rows.last())[k]
    }
}

/// Raising one row raises the sum as much.
proof fn lemma_tallied_update(rows: Seq<FlowBucketView>, i: int, row: FlowBucketView, k: int)
    requires
        0 <= i < rows.len(),
    ensures
        tallied(rows.update(i, row), k) == tallied(rows, k) + tallies(row)[k] - tallies(
            rows[i],
        )[k],
    decreases rows.len(),
{
    let raised = rows.update(i, row);
    if i == rows.len() - 1 {
        assert(raised.drop_last() =~= rows.drop_last());
    } else {
        assert(raised.drop_last() =~= rows.drop_last().update(i, row));
        lemma_tallied_update(rows.drop_last(), i, row, k);
    }
}

/// Two rows added up: every counter, every bin and horizon, and the lists one
/// behind the other.
pub open spec fn adds_up(a: FlowBucketView, b: FlowBucketView, sum: FlowBucketView) -> bool {
    &&& forall|k: int|
        0 <= k < tallies(a).len() ==> #[trigger] tallies(sum)[k] == tallies(a)[k] + tallies(b)[k]
    &&& sum.shortfall_taker == a.shortfall_taker + b.shortfall_taker
    &&& sum.shortfall_maker == a.shortfall_maker + b.shortfall_maker
    &&& sum.ratio_count.len() == a.ratio_count.len()
    &&& sum.ratio_half_notional.len() == a.ratio_half_notional.len()
    &&& forall|e: int|
        #![trigger sum.ratio_count[e]]
        0 <= e < a.ratio_count.len() ==> {
            &&& sum.ratio_count[e] == a.ratio_count[e] + b.ratio_count[e]
            &&& sum.ratio_half_notional[e] == a.ratio_half_notional[e] + b.ratio_half_notional[e]
        }
    &&& forall|h: int|
        #![trigger sum.response_num[h]]
        0 <= h < a.response_num.len() ==> {
            &&& sum.response_num[h] == a.response_num[h] + b.response_num[h]
            &&& sum.response_den[h] == a.response_den[h] + b.response_den[h]
            &&& sum.response_count[h] == a.response_count[h] + b.response_count[h]
            &&& sum.response_excluded_notional[h] == a.response_excluded_notional[h]
                + b.response_excluded_notional[h]
            &&& sum.response_excluded_count[h] == a.response_excluded_count[h]
                + b.response_excluded_count[h]
        }
    &&& sum.start == a.start
    &&& sum.symbol == a.symbol
}

/// A row past the last interval is added to it: every counter and list. Of
/// its cohort only the orders accepted in it are new, and an order filled in
/// both counts once.
pub proof fn law_a_late_row_is_added_to_the_last(v: FlowView, last: nat)
    requires
        shaped(v),
        v.buckets.len() > last + 1,
        v.fold_once_room(last as int),
    ensures
        ({
            let late = v.buckets.last();
            let row = v.buckets[last as int];
            let after = v.folded_once(last as int);
            let sum = after.buckets[last as int];
            let twice = v.filled_in_interval.intersect(v.filled_in_previous_interval).len();
            &&& adds_up(row, late, sum)
            &&& sum.eligible_orders == row.eligible_orders + late.orders
            &&& sum.filled_orders == row.filled_orders + late.filled_orders - twice
            &&& after.buckets.len() == v.buckets.len() - 1
            &&& forall|i: int|
                0 <= i < after.buckets.len() && i != last ==> #[trigger] after.buckets[i]
                    == v.buckets[i]
            &&& after.totals == v.totals
            &&& after.filled_in_interval == Set::<u64>::empty()
        }),
{
    let late = v.buckets.last();
    let row = v.buckets[last as int];
    let sum = v.folded_once(last as int).buckets[last as int];
    assert(row_shaped(v, v.buckets[v.buckets.len() - 1]));
    assert(row_shaped(v, row));
    assert(row.merge_fits(late));
    assert forall|e: int|
        #![trigger sum.ratio_count[e]]
        0 <= e < row.ratio_count.len() implies {
        &&& sum.ratio_count[e] == row.ratio_count[e] + late.ratio_count[e]
        &&& sum.ratio_half_notional[e] == row.ratio_half_notional[e] + late.ratio_half_notional[e]
    } by {
        assert(row.ratio_count[e] + late.ratio_count[e] <= u64::MAX);
        assert(row.ratio_half_notional[e] + late.ratio_half_notional[e] <= u128::MAX);
    }
    assert forall|h: int|
        #![trigger sum.response_num[h]]
        0 <= h < row.response_num.len() implies {
        &&& sum.response_num[h] == row.response_num[h] + late.response_num[h]
        &&& sum.response_den[h] == row.response_den[h] + late.response_den[h]
        &&& sum.response_count[h] == row.response_count[h] + late.response_count[h]
        &&& sum.response_excluded_notional[h] == row.response_excluded_notional[h]
            + late.response_excluded_notional[h]
        &&& sum.response_excluded_count[h] == row.response_excluded_count[h]
            + late.response_excluded_count[h]
    } by {
        assert(row.response_den[h] + late.response_den[h] <= u128::MAX);
        assert(row.response_count[h] + late.response_count[h] <= u64::MAX);
        assert(row.response_excluded_notional[h] + late.response_excluded_notional[h]
            <= u128::MAX);
        assert(row.response_excluded_count[h] + late.response_excluded_count[h] <= u64::MAX);
    }
}

proof fn lemma_folded_tallied(v: FlowView, last: nat, k: int)
    requires
        shaped(v),
        last < v.buckets.len(),
        v.fold_room(last),
        0 <= k < 26,
    ensures
        v.folded(last).buckets.len() == last + 1,
        tallied(v.folded(last).buckets, k) == tallied(v.buckets, k),
        forall|i: int|
            0 <= i < last ==> #[trigger] v.folded(last).buckets[i] == v.buckets[i],
        v.folded(last).totals == v.totals,
    decreases v.buckets.len(),
{
    if v.buckets.len() > last + 1 {
        let f = v.folded_once(last as int);
        law_a_late_row_is_added_to_the_last(v, last);
        lemma_folded_once_shaped(v, last);
        let sum = f.buckets[last as int];
        let row = v.buckets[last as int];
        assert(tallies(sum)[k] == tallies(row)[k] + tallies(v.buckets.last())[k]);
        assert(f.buckets =~= v.buckets.drop_last().update(last as int, sum));
        lemma_tallied_update(v.buckets.drop_last(), last as int, sum, k);
        lemma_folded_tallied(f, last, k);
        assert forall|i: int| 0 <= i < last implies #[trigger] v.folded(last).buckets[i]
            == v.buckets[i] by {
            assert(f.folded(last).buckets[i] == f.buckets[i]);
        }
    }
}

/// Nothing is lost at the end of a run: there is a row for each interval up to
/// that of the last moment before the end, and each counter adds up over them
/// to what it added up to before. Rows of earlier intervals stay as they were.
pub proof fn law_the_rows_of_a_run_lose_nothing(v: FlowView, end_time: Nanos, k: int)
    requires
        v.wf(),
        v.finish_room(end_time),
        0 <= k < 26,
    ensures
        ({
            let last = if end_time > 0 {
                (end_time - 1) as int / v.interval_ns as int
            } else {
                0
            };
            let rows = v.closed_off(end_time).grown(last as nat).rolled(last as nat).buckets;
            let done = v.finished(end_time);
            &&& done.buckets.len() == last + 1
            &&& tallied(done.buckets, k) == tallied(rows, k)
            &&& done.totals == v.totals
            &&& forall|i: int| 0 <= i < last ==> #[trigger] done.buckets[i] == rows[i]
        }),
{
    let last = v.last_index(end_time);
    let before = if end_time < u64::MAX {
        (end_time + 1) as u64
    } else {
        end_time
    };
    lemma_resolved_upto_setup(v, v.horizons_ns.len(), before);
    let resolved = v.resolved(before);
    lemma_dropped_upto(resolved, v.horizons_ns.len());
    let off = v.closed_off(end_time);
    lemma_grown_wf(off, last);
    lemma_rolled_wf(off.grown(last), last);
    let rows = off.grown(last).rolled(last);
    lemma_wf_shaped(rows);
    assert(end_time == 0 ==> last == 0);
    lemma_folded_tallied(rows, last, k);
}

/// A row shows its own fields.
pub proof fn law_a_row_shows_its_fields(row: FlowBucket)
    ensures
        row@.start == row.start && row@.symbol == row.symbol,
        row@.market_trades == row.market_trades && row@.market_qty == row.market_qty,
        row@.market_self_trades == row.market_self_trades,
        row@.market_self_qty == row.market_self_qty,
        row@.self_trades == row.self_trades && row@.self_qty == row.self_qty,
        row@.taker_qty == row.taker_qty && row@.maker_qty == row.maker_qty,
        row@.orders == row.orders && row@.rejected_orders == row.rejected_orders,
        row@.eligible_orders == row.eligible_orders && row@.filled_orders == row.filled_orders,
        row@.fill_events == row.fill_events && row@.submitted_qty == row.submitted_qty,
        row@.zero_depth_count == row.zero_depth_count && row@.zero_depth_qty == row.zero_depth_qty,
        row@.unvalued_count == row.unvalued_count && row@.unvalued_qty == row.unvalued_qty,
        row@.shortfall_excluded_count == row.shortfall_excluded_count,
        row@.market_notional == row.market_notional,
        row@.market_self_notional == row.market_self_notional,
        row@.self_notional == row.self_notional,
        row@.taker_notional == row.taker_notional && row@.maker_notional == row.maker_notional,
        row@.zero_depth_half_notional == row.zero_depth_half_notional,
        row@.shortfall_taker_base == row.shortfall_taker_base,
        row@.shortfall_maker_base == row.shortfall_maker_base,
        row@.shortfall_excluded_notional == row.shortfall_excluded_notional,
        row@.ratio_half_notional == row.ratio_half_notional@,
        row@.ratio_count == row.ratio_count@,
        row@.shortfall_taker == row.shortfall_taker@,
        row@.shortfall_maker == row.shortfall_maker@,
        row@.response_num.len() == row.response_num@.len(),
        forall|h: int|
            0 <= h < row.response_num@.len() ==> #[trigger] row@.response_num[h]
                == row.response_num@[h]@,
        row@.response_den == row.response_den@,
        row@.response_count == row.response_count@,
        row@.response_excluded_notional == row.response_excluded_notional@,
        row@.response_excluded_count == row.response_excluded_count@,
{
}

/// A new recorder watches its agent and has seen nothing.
pub proof fn law_a_new_recorder_has_seen_nothing(
    agent_id: AgentId,
    interval_ns: Nanos,
    horizons_ns: Seq<Nanos>,
    ratio_edges: Seq<RatioEdge>,
    symbol: Symbol,
)
    ensures
        ({
            let v = FlowView::fresh(agent_id, interval_ns, horizons_ns, ratio_edges, symbol);
            &&& v.agent_id == agent_id && v.interval_ns == interval_ns && v.symbol == symbol
            &&& v.horizons_ns == horizons_ns && v.ratio_edges == ratio_edges
            &&& v.buckets.len() == 0 && v.current_interval == 0 && v.prevailing_mid2 is None
            &&& v.pending.len() == horizons_ns.len()
            &&& forall|h: int| 0 <= h < horizons_ns.len() ==> (#[trigger] v.pending[h]).len() == 0
            &&& v.live == Set::<u64>::empty() && v.ever_filled == Set::<u64>::empty()
            &&& v.filled_in_interval == Set::<u64>::empty()
            &&& v.filled_in_previous_interval == Set::<u64>::empty()
            &&& v.totals.symbol == symbol && v.totals.accepted_orders == 0
            &&& v.totals.rejected_orders == 0 && v.totals.filled_orders == 0
            &&& v.totals.fill_events == 0
        }),
{
}

} // verus!
