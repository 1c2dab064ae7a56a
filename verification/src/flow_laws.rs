//! What holds of every flow recorder.

use crate::flow_lemmas::{
    lemma_at_wf, lemma_dropped_upto, lemma_folded_once_shaped, lemma_grown_wf, lemma_owed_none,
    lemma_resolved_upto_setup, lemma_rolled_wf, lemma_wf_shaped, row_shaped, shaped,
};
use crate::flow_model::{edge_reached, ratio_bin, FlowBucketView, FlowFill, FlowView, RatioEdge};
use crate::types::Nanos;
use vstd::prelude::*;

verus! {

/// Every watched external fill of a row is either settled or excluded, for
/// each horizon, by number and by notional. So it is for the cost.
pub open spec fn accounted(v: FlowView, row: FlowBucketView) -> bool {
    &&& forall|h: int|
        #![trigger row.response_count[h]]
        0 <= h < v.horizons_ns.len() ==> {
            &&& row.response_count[h] + row.response_excluded_count[h] == row.fill_events
            &&& row.response_den[h] + row.response_excluded_notional[h] == row.taker_notional
                + row.maker_notional
        }
    &&& row.shortfall_taker_base + row.shortfall_maker_base + row.shortfall_excluded_notional
        == row.taker_notional + row.maker_notional
}

/// So is every row.
pub open spec fn all_accounted(v: FlowView) -> bool {
    forall|i: int| 0 <= i < v.buckets.len() ==> accounted(v, #[trigger] v.buckets[i])
}

/// A recorder with no waiting fills has accounted for all of them.
proof fn lemma_nothing_waits(v: FlowView)
    requires
        v.wf(),
        forall|h: int| 0 <= h < v.pending.len() ==> (#[trigger] v.pending[h]).len() == 0,
    ensures
        all_accounted(v),
{
    assert forall|i: int| 0 <= i < v.buckets.len() implies accounted(
        v,
        #[trigger] v.buckets[i],
    ) by {
        let row = v.buckets[i];
        assert(v.row_wf(row));
        assert forall|h: int|
            #![trigger row.response_count[h]]
            0 <= h < v.horizons_ns.len() implies {
            &&& row.response_count[h] + row.response_excluded_count[h] == row.fill_events
            &&& row.response_den[h] + row.response_excluded_notional[h] == row.taker_notional
                + row.maker_notional
        } by {
            assert(v.pending[h].len() == 0);
            lemma_owed_none(v.pending[h], i);
            assert(v.balanced(h, i));
        }
    }
}

/// Adding a later row to the last one keeps the account.
proof fn lemma_folded_accounted(v: FlowView, last: nat)
    requires
        shaped(v),
        all_accounted(v),
        v.fold_room(last),
        last < v.buckets.len(),
    ensures
        all_accounted(v.folded(last)),
        v.folded(last).buckets.len() == last + 1,
    decreases v.buckets.len(),
{
    if v.buckets.len() > last + 1 {
        let f = v.folded_once(last as int);
        let row = v.buckets[last as int];
        let later = v.buckets[v.buckets.len() - 1];
        lemma_folded_once_shaped(v, last);
        assert(row_shaped(v, row) && row_shaped(v, later));
        assert(accounted(v, row) && accounted(v, later));
        assert(row.merge_fits(later));
        let sum = f.buckets[last as int];
        assert forall|h: int|
            #![trigger sum.response_count[h]]
            0 <= h < v.horizons_ns.len() implies {
            &&& sum.response_count[h] + sum.response_excluded_count[h] == sum.fill_events
            &&& sum.response_den[h] + sum.response_excluded_notional[h] == sum.taker_notional
                + sum.maker_notional
        } by {
            assert(row.response_count[h] + later.response_count[h] <= u64::MAX);
            assert(row.response_excluded_count[h] + later.response_excluded_count[h] <= u64::MAX);
            assert(row.response_den[h] + later.response_den[h] <= u128::MAX);
            assert(row.response_excluded_notional[h] + later.response_excluded_notional[h]
                <= u128::MAX);
        }
        assert forall|i: int| 0 <= i < f.buckets.len() implies accounted(
            f,
            #[trigger] f.buckets[i],
        ) by {
            if i != last {
                assert(f.buckets[i] == v.buckets[i]);
                assert(accounted(v, v.buckets[i]));
            }
        }
        lemma_folded_accounted(f, last);
    }
}

/// When the run is over, there is one row for each interval, and every
/// external fill of the watched agent is in exactly one of the eligible and
/// the excluded support of each horizon, by number and by notional.
pub proof fn law_every_watched_fill_is_settled_or_excluded(v: FlowView, end_time: Nanos)
    requires
        v.wf(),
        v.finish_room(end_time),
    ensures
        v.finished(end_time).buckets.len() == v.last_index(end_time) + 1,
        all_accounted(v.finished(end_time)),
{
    let last = v.last_index(end_time);
    let before = if end_time < u64::MAX {
        (end_time + 1) as u64
    } else {
        end_time
    };
    lemma_resolved_upto_setup(v, v.horizons_ns.len(), before);
    let resolved = v.resolved(before);
    lemma_dropped_upto(resolved, v.horizons_ns.len());
    let off = v.closed_off(end_time);
    lemma_grown_wf(off, last);
    lemma_rolled_wf(off.grown(last), last);
    let rows = off.grown(last).rolled(last);
    lemma_nothing_waits(rows);
    lemma_wf_shaped(rows);
    lemma_folded_accounted(rows, last);
}

/// The costs and responses of a row.
pub open spec fn same_support(a: FlowBucketView, b: FlowBucketView) -> bool {
    &&& a.fill_events == b.fill_events
    &&& a.filled_orders == b.filled_orders
    &&& a.taker_qty == b.taker_qty
    &&& a.maker_qty == b.maker_qty
    &&& a.taker_notional == b.taker_notional
    &&& a.maker_notional == b.maker_notional
    &&& a.shortfall_taker == b.shortfall_taker
    &&& a.shortfall_maker == b.shortfall_maker
    &&& a.shortfall_taker_base == b.shortfall_taker_base
    &&& a.shortfall_maker_base == b.shortfall_maker_base
    &&& a.shortfall_excluded_count == b.shortfall_excluded_count
    &&& a.shortfall_excluded_notional == b.shortfall_excluded_notional
    &&& a.response_num == b.response_num
    &&& a.response_den == b.response_den
    &&& a.response_count == b.response_count
    &&& a.response_excluded_notional == b.response_excluded_notional
    &&& a.response_excluded_count == b.response_excluded_count
}

/// A match that the watched agent has no external part in, a match with itself
/// included, enters neither its costs nor its responses.
pub proof fn law_self_matches_enter_no_cost_or_response(v: FlowView, fill: FlowFill)
    requires
        v.wf(),
        v.fill_room(fill),
        !v.watches(fill),
    ensures
        ({
            let now = v.resolved(fill.time).at(fill.time);
            let after = v.filled(fill);
            &&& after.pending == now.pending
            &&& after.totals == now.totals
            &&& after.buckets.len() == now.buckets.len()
            &&& forall|i: int|
                0 <= i < now.buckets.len() ==> same_support(
                    #[trigger] after.buckets[i],
                    now.buckets[i],
                )
        }),
{
    lemma_resolved_upto_setup(v, v.horizons_ns.len(), fill.time);
    lemma_at_wf(v.resolved(fill.time), fill.time);
}

/// Every match counts once: for the market, or among the matches of one owner.
pub proof fn law_every_match_counts_once(v: FlowView, fill: FlowFill)
    requires
        v.wf(),
        v.fill_room(fill),
    ensures
        ({
            let now = v.resolved(fill.time).at(fill.time);
            let before = now.row(fill.time);
            let after = v.filled(fill).row(fill.time);
            let own = fill.maker_agent == Some(fill.taker_agent);
            &&& after.market_trades == before.market_trades + if own {
                0int
            } else {
                1
            }
            &&& after.market_self_trades == before.market_self_trades + if own {
                1int
            } else {
                0
            }
            &&& after.market_qty + after.market_self_qty == before.market_qty
                + before.market_self_qty + fill.qty
            &&& forall|i: int|
                0 <= i < now.buckets.len() && i != v.index(fill.time) ==> v.filled(fill).buckets[i]
                    == #[trigger] now.buckets[i]
        }),
{
    lemma_resolved_upto_setup(v, v.horizons_ns.len(), fill.time);
    lemma_at_wf(v.resolved(fill.time), fill.time);
}

/// The bins of a ratio are half-open: it reaches every edge below its bin, and
/// not the one above.
pub proof fn law_bins_are_half_open(edges: Seq<RatioEdge>, half_notional: u128, depth: u128)
    ensures
        ({
            let bin = ratio_bin(edges, half_notional, depth);
            &&& bin <= edges.len()
            &&& forall|i: int|
                0 <= i < bin ==> edge_reached(#[trigger] edges[i], half_notional, depth)
            &&& bin < edges.len() ==> !edge_reached(edges[bin as int], half_notional, depth)
        }),
    decreases edges.len(),
{
    if edges.len() > 0 && edge_reached(edges[0], half_notional, depth) {
        let rest = edges.drop_first();
        law_bins_are_half_open(rest, half_notional, depth);
        assert forall|i: int|
            0 <= i < ratio_bin(edges, half_notional, depth) implies edge_reached(
            #[trigger] edges[i],
            half_notional,
            depth,
        ) by {
            if i > 0 {
                assert(rest[i - 1] == edges[i]);
            }
        }
    }
}

/// The sum of counts.
pub open spec fn count_sum(counts: Seq<u64>) -> int
    decreases counts.len(),
{
    if counts.len() == 0 {
        0
    } else {
        count_sum(counts.drop_last()) + counts.last()
    }
}

/// Raising one count raises the sum as much.
proof fn lemma_count_sum_raised(counts: Seq<u64>, i: int, count: u64)
    requires
        0 <= i < counts.len(),
    ensures
        count_sum(counts.update(i, count)) == count_sum(counts) + count - counts[i],
    decreases counts.len(),
{
    let raised = counts.update(i, count);
    if i == counts.len() - 1 {
        assert(raised.drop_last() =~= counts.drop_last());
    } else {
        assert(raised.drop_last() =~= counts.drop_last().update(i, count));
        lemma_count_sum_raised(counts.drop_last(), i, count);
    }
}

/// Every submitted order counts once: in a bin, without depth, or unvalued.
pub proof fn law_every_order_is_sized_once(
    v: FlowView,
    time: Nanos,
    qty: u64,
    half_notional: Option<u128>,
    depth: u128,
)
    requires
        v.wf(),
        v.size_room(time, qty, half_notional, depth),
    ensures
        ({
            let before = v.at(time).row(time);
            let after = v.sized(time, qty, half_notional, depth).row(time);
            after.unvalued_count + after.zero_depth_count + count_sum(after.ratio_count)
                == before.unvalued_count + before.zero_depth_count + count_sum(before.ratio_count)
                + 1
        }),
{
    lemma_at_wf(v, time);
    let before = v.at(time).row(time);
    if half_notional is Some && depth > 0 {
        let value = half_notional->0;
        let bin = ratio_bin(v.ratio_edges, value, depth) as int;
        law_bins_are_half_open(v.ratio_edges, value, depth);
        lemma_count_sum_raised(
            before.ratio_count,
            bin,
            (before.ratio_count[bin] + 1) as u64,
        );
    }
}

} // verus!
