//! Facts about the mathematical flow recorder.

use crate::flow_model::{
    notional_of, owed_count, owed_notional, FlowBucketView, FlowFill, FlowView, PendingResponse,
};
use vstd::prelude::*;

verus! {

/// No fill waits for an interval that none names.
pub proof fn lemma_owed_none(queue: Seq<PendingResponse>, bucket: int)
    requires
        forall|k: int| 0 <= k < queue.len() ==> (#[trigger] queue[k]).bucket != bucket,
    ensures
        owed_count(queue, bucket) == 0,
        owed_notional(queue, bucket) == 0,
    decreases queue.len(),
{
    if queue.len() > 0 {
        assert(queue[queue.len() - 1].bucket != bucket);
        assert forall|k: int| 0 <= k < queue.drop_last().len() implies (
        #[trigger] queue.drop_last()[k]).bucket != bucket by {
            assert(queue[k].bucket != bucket);
        }
        lemma_owed_none(queue.drop_last(), bucket);
    }
}

pub proof fn lemma_owed_push(queue: Seq<PendingResponse>, entry: PendingResponse, bucket: int)
    ensures
        owed_count(queue.push(entry), bucket) == owed_count(queue, bucket) + if entry.bucket
            == bucket {
            1nat
        } else {
            0
        },
        owed_notional(queue.push(entry), bucket) == owed_notional(queue, bucket)
            + if entry.bucket == bucket {
            entry.notional as nat
        } else {
            0
        },
{
    assert(queue.push(entry).drop_last() =~= queue);
}

/// The oldest waiting fill counts in full.
pub proof fn lemma_owed_front(queue: Seq<PendingResponse>, bucket: int)
    requires
        queue.len() > 0,
    ensures
        owed_count(queue, bucket) == owed_count(queue.drop_first(), bucket) + if queue[0].bucket
            == bucket {
            1nat
        } else {
            0
        },
        owed_notional(queue, bucket) == owed_notional(queue.drop_first(), bucket)
            + if queue[0].bucket == bucket {
            queue[0].notional as nat
        } else {
            0
        },
    decreases queue.len(),
{
    if queue.len() == 1 {
        assert(queue.drop_last() =~= Seq::<PendingResponse>::empty());
        assert(queue.drop_first() =~= Seq::<PendingResponse>::empty());
        assert(owed_count(queue.drop_last(), bucket) == 0);
        assert(owed_notional(queue.drop_last(), bucket) == 0);
    } else {
        lemma_owed_front(queue.drop_last(), bucket);
        assert(queue.drop_last().drop_first() =~= queue.drop_first().drop_last());
    }
}

/// More rows keep a recorder valid.
pub proof fn lemma_grown_wf(v: FlowView, index: nat)
    requires
        v.wf(),
    ensures
        v.grown(index).wf(),
        index < v.grown(index).buckets.len(),
{
    let g = v.grown(index);
    assert forall|i: int| 0 <= i < g.buckets.len() implies g.row_wf(#[trigger] g.buckets[i]) by {
        if i < v.buckets.len() {
            assert(v.row_wf(v.buckets[i]));
        }
    }
    assert forall|h: int, i: int|
        #![trigger g.pending[h], g.buckets[i]]
        0 <= h < g.pending.len() && 0 <= i < g.buckets.len() implies g.balanced(h, i) by {
        if i < v.buckets.len() {
            assert(v.pending[h] == g.pending[h] && v.buckets[i] == g.buckets[i]);
            assert(v.balanced(h, i));
        } else {
            assert forall|k: int| 0 <= k < v.pending[h].len() implies (
            #[trigger] v.pending[h][k]).bucket != i by {}
            lemma_owed_none(v.pending[h], i);
        }
    }
}

/// A recorder whose rows differ only in cohort and order counts is valid if
/// the other is.
pub proof fn lemma_counts_wf(v: FlowView, w: FlowView)
    requires
        v.wf(),
        w.interval_ns == v.interval_ns,
        w.horizons_ns == v.horizons_ns,
        w.ratio_edges == v.ratio_edges,
        w.pending == v.pending,
        w.live.finite(),
        w.filled_in_interval.finite(),
        w.filled_in_previous_interval.finite(),
        w.ever_filled.finite(),
        w.totals.filled_orders <= w.totals.fill_events,
        w.buckets.len() == v.buckets.len(),
        forall|i: int|
            0 <= i < v.buckets.len() ==> same_flows(#[trigger] v.buckets[i], w.buckets[i])
                && w.row_wf(w.buckets[i]),
    ensures
        w.wf(),
{
    assert forall|i: int| 0 <= i < w.buckets.len() implies w.row_wf(#[trigger] w.buckets[i]) by {
        assert(same_flows(v.buckets[i], w.buckets[i]));
    }
    assert forall|h: int, k: int|
        0 <= h < w.pending.len() && 0 <= k < w.pending[h].len() implies (
    #[trigger] w.pending[h][k]).bucket < w.buckets.len() by {
        assert(v.pending[h][k].bucket < v.buckets.len());
    }
    assert forall|h: int, i: int|
        #![trigger w.pending[h], w.buckets[i]]
        0 <= h < w.pending.len() && 0 <= i < w.buckets.len() implies w.balanced(h, i) by {
        assert(same_flows(v.buckets[i], w.buckets[i]));
        assert(v.pending[h] == w.pending[h]);
        assert(v.balanced(h, i));
    }
}

/// Two rows have the same watched fills and responses.
pub open spec fn same_flows(a: FlowBucketView, b: FlowBucketView) -> bool {
    &&& a.fill_events == b.fill_events
    &&& a.taker_notional == b.taker_notional
    &&& a.maker_notional == b.maker_notional
    &&& a.response_den == b.response_den
    &&& a.response_count == b.response_count
    &&& a.response_excluded_notional == b.response_excluded_notional
    &&& a.response_excluded_count == b.response_excluded_count
}

/// Moving to a later interval keeps a recorder valid.
pub proof fn lemma_rolled_wf(v: FlowView, index: nat)
    requires
        v.wf(),
    ensures
        v.rolled(index).wf(),
{
    if index > v.current_interval {
        lemma_grown_wf(v, index);
        let g = v.grown(index);
        let r = v.rolled(index);
        assert forall|i: int| 0 <= i < g.buckets.len() implies same_flows(
            #[trigger] g.buckets[i],
            r.buckets[i],
        ) && r.row_wf(r.buckets[i]) by {
            assert(g.row_wf(g.buckets[i]));
        }
        lemma_counts_wf(g, r);
    }
}

/// The recorder `u`, whose row `index` exists, enters that interval.
pub open spec fn entered(u: FlowView, index: nat) -> FlowView {
    let row = u.buckets[index as int];
    FlowView {
        current_interval: index,
        buckets: u.buckets.update(
            index as int,
            FlowBucketView { eligible_orders: u.live.len() as u64, ..row },
        ),
        filled_in_previous_interval: u.filled_in_interval,
        filled_in_interval: Set::empty(),
        ..u
    }
}

/// Intervals can be entered one at a time.
pub proof fn lemma_roll_step(v: FlowView, k: nat)
    requires
        v.current_interval <= k,
    ensures
        v.rolled(k + 1) == entered(v.rolled(k).grown(k + 1), k + 1),
{
    let u = v.rolled(k).grown(k + 1);
    let stepped = entered(u, k + 1);
    let r = v.rolled(k + 1);
    assert(r.buckets.len() == stepped.buckets.len());
    assert(r.buckets =~= stepped.buckets);
    assert(r.filled_in_previous_interval =~= stepped.filled_in_previous_interval);
}

/// Nothing but its row changes when something happens in an interval.
pub proof fn lemma_at_wf(v: FlowView, time: u64)
    requires
        v.wf(),
    ensures
        v.at(time).wf(),
        v.index(time) < v.at(time).buckets.len(),
        v.at(time).index(time) == v.index(time),
        v.at(time).row_wf(v.at(time).row(time)),
{
    lemma_rolled_wf(v, v.index(time));
    lemma_grown_wf(v.rolled(v.index(time)), v.index(time));
}

/// Settling the oldest waiting fill of a horizon keeps a recorder valid, and
/// its counters cannot overflow.
pub proof fn lemma_settled_wf(v: FlowView, horizon: int, mid2: Option<u64>)
    requires
        v.wf(),
        0 <= horizon < v.pending.len(),
        v.pending[horizon].len() > 0,
    ensures
        v.settled(horizon, mid2).wf(),
        ({
            let entry = v.pending[horizon][0];
            let row = v.buckets[entry.bucket as int];
            &&& entry.bucket < v.buckets.len()
            &&& v.row_wf(row)
            &&& row.response_den[horizon] + entry.notional <= u128::MAX
            &&& row.response_excluded_notional[horizon] + entry.notional <= u128::MAX
            &&& row.response_count[horizon] < u64::MAX
            &&& row.response_excluded_count[horizon] < u64::MAX
        }),
{
    let entry = v.pending[horizon][0];
    let j = entry.bucket as int;
    let row = v.buckets[j];
    let s = v.settled(horizon, mid2);
    assert(v.row_wf(v.buckets[j]));
    assert(v.balanced(horizon, j)) by {
        assert(v.pending[horizon] == v.pending[horizon] && v.buckets[j] == v.buckets[j]);
    }
    lemma_owed_front(v.pending[horizon], j);
    assert forall|i: int| 0 <= i < s.buckets.len() implies s.row_wf(#[trigger] s.buckets[i]) by {
        assert(v.row_wf(v.buckets[i]));
    }
    assert forall|h: int, k: int|
        0 <= h < s.pending.len() && 0 <= k < s.pending[h].len() implies (
    #[trigger] s.pending[h][k]).bucket < s.buckets.len() by {
        if h == horizon {
            assert(s.pending[h][k] == v.pending[h][k + 1]);
        } else {
            assert(s.pending[h][k] == v.pending[h][k]);
        }
    }
    assert forall|h: int, i: int|
        #![trigger s.pending[h], s.buckets[i]]
        0 <= h < s.pending.len() && 0 <= i < s.buckets.len() implies s.balanced(h, i) by {
        assert(v.balanced(h, i)) by {
            assert(v.pending[h] == v.pending[h] && v.buckets[i] == v.buckets[i]);
        }
        if h == horizon {
            lemma_owed_front(v.pending[horizon], i);
        }
    }
}

/// Settling keeps everything but rows and waiting fills.
pub proof fn lemma_resolved_at_setup(v: FlowView, horizon: int, before: u64)
    requires
        v.wf(),
        0 <= horizon < v.pending.len(),
    ensures
        v.resolved_at(horizon, before).wf(),
        v.resolved_at(horizon, before).same_setup(v),
    decreases v.pending[horizon].len(),
{
    if v.pending[horizon].len() > 0 && v.pending[horizon][0].due < before {
        lemma_settled_wf(v, horizon, v.prevailing_mid2);
        lemma_resolved_at_setup(v.settled(horizon, v.prevailing_mid2), horizon, before);
    }
}

/// Settling keeps everything but rows and waiting fills.
pub proof fn lemma_resolved_upto_setup(v: FlowView, count: nat, before: u64)
    requires
        v.wf(),
        count <= v.pending.len(),
    ensures
        v.resolved_upto(count, before).wf(),
        v.resolved_upto(count, before).same_setup(v),
    decreases count,
{
    if count > 0 {
        lemma_resolved_upto_setup(v, (count - 1) as nat, before);
        lemma_resolved_at_setup(v.resolved_upto((count - 1) as nat, before), count - 1, before);
    }
}

/// Price times quantity fits.
pub proof fn lemma_notional_fits(price: i64, qty: u64)
    requires
        price >= 0,
    ensures
        notional_of(price, qty) == price * qty,
        price * qty <= i64::MAX * u64::MAX,
{
    assert(price * qty <= i64::MAX * u64::MAX) by (nonlinear_arith)
        requires
            0 <= price <= i64::MAX,
            0 <= qty <= u64::MAX,
    ;
    assert(0 <= price * qty) by (nonlinear_arith)
        requires
            0 <= price,
            0 <= qty,
    ;
}

/// A match keeps a recorder valid.
pub proof fn lemma_filled_wf(v: FlowView, fill: FlowFill)
    requires
        v.wf(),
        v.fill_room(fill),
    ensures
        v.filled(fill).wf(),
        v.filled(fill).interval_ns == v.interval_ns,
{
    lemma_resolved_upto_setup(v, v.horizons_ns.len(), fill.time);
    let r = v.resolved(fill.time);
    lemma_at_wf(r, fill.time);
    let now = r.at(fill.time);
    let j = now.index(fill.time) as int;
    let row = now.buckets[j];
    let w = v.filled(fill);
    let new = w.buckets[j];
    assert(now.row_wf(row));
    if !v.watches(fill) {
        assert forall|i: int| 0 <= i < now.buckets.len() implies same_flows(
            #[trigger] now.buckets[i],
            w.buckets[i],
        ) && w.row_wf(w.buckets[i]) by {
            assert(now.row_wf(now.buckets[i]));
        }
        lemma_counts_wf(now, w);
    } else {
        let notional = notional_of(fill.price, fill.qty);
        assert(v.watched_order(fill) == now.watched_order(fill));
        assert forall|i: int|
            0 <= i < w.buckets.len() implies w.row_wf(#[trigger] w.buckets[i]) by {
            assert(now.row_wf(now.buckets[i]));
        }
        assert forall|h: int, k: int|
            0 <= h < w.pending.len() && 0 <= k < w.pending[h].len() implies (
        #[trigger] w.pending[h][k]).bucket < w.buckets.len() by {
            if k < now.pending[h].len() {
                assert(w.pending[h][k] == now.pending[h][k]);
            }
        }
        assert forall|h: int, i: int|
            #![trigger w.pending[h], w.buckets[i]]
            0 <= h < w.pending.len() && 0 <= i < w.buckets.len() implies w.balanced(h, i) by {
            assert(now.balanced(h, i)) by {
                assert(now.pending[h] == now.pending[h] && now.buckets[i] == now.buckets[i]);
            }
            if fill.mid2 is Some {
                lemma_owed_push(now.pending[h], w.pending[h].last(), i);
            }
        }
    }
}

/// Excluding what waits at one horizon leaves nothing waiting there.
pub proof fn lemma_dropped_at(v: FlowView, horizon: int)
    requires
        v.wf(),
        0 <= horizon < v.pending.len(),
    ensures
        v.dropped_at(horizon).wf(),
        v.dropped_at(horizon).same_setup(v),
        v.dropped_at(horizon).pending == v.pending.update(horizon, Seq::empty()),
    decreases v.pending[horizon].len(),
{
    if v.pending[horizon].len() > 0 {
        lemma_settled_wf(v, horizon, None);
        let s = v.settled(horizon, None);
        lemma_dropped_at(s, horizon);
        assert(s.pending.update(horizon, Seq::empty()) =~= v.pending.update(
            horizon,
            Seq::empty(),
        ));
    } else {
        assert(v.pending[horizon] =~= Seq::empty());
        assert(v.pending.update(horizon, Seq::empty()) =~= v.pending);
    }
}

/// Excluding what waits at the first horizons leaves nothing waiting there.
pub proof fn lemma_dropped_upto(v: FlowView, count: nat)
    requires
        v.wf(),
        count <= v.pending.len(),
    ensures
        v.dropped_upto(count).wf(),
        v.dropped_upto(count).same_setup(v),
        forall|h: int|
            0 <= h < count ==> (#[trigger] v.dropped_upto(count).pending[h]).len() == 0,
    decreases count,
{
    if count > 0 {
        lemma_dropped_upto(v, (count - 1) as nat);
        lemma_dropped_at(v.dropped_upto((count - 1) as nat), count - 1);
    }
}

/// Rows have one entry for each bin and each horizon.
pub open spec fn shaped(v: FlowView) -> bool {
    forall|i: int| 0 <= i < v.buckets.len() ==> row_shaped(v, #[trigger] v.buckets[i])
}

pub open spec fn row_shaped(v: FlowView, row: FlowBucketView) -> bool {
    &&& row.ratio_half_notional.len() == v.ratio_edges.len() + 1
    &&& row.ratio_count.len() == v.ratio_edges.len() + 1
    &&& row.response_num.len() == v.horizons_ns.len()
    &&& row.response_den.len() == v.horizons_ns.len()
    &&& row.response_count.len() == v.horizons_ns.len()
    &&& row.response_excluded_notional.len() == v.horizons_ns.len()
    &&& row.response_excluded_count.len() == v.horizons_ns.len()
}

pub proof fn lemma_wf_shaped(v: FlowView)
    requires
        v.wf(),
    ensures
        shaped(v),
{
    assert forall|i: int| 0 <= i < v.buckets.len() implies row_shaped(
        v,
        #[trigger] v.buckets[i],
    ) by {
        assert(v.row_wf(v.buckets[i]));
    }
}

/// Adding a later row to the last one keeps the shape.
pub proof fn lemma_folded_once_shaped(v: FlowView, last: nat)
    requires
        shaped(v),
        v.buckets.len() > last + 1,
    ensures
        shaped(v.folded_once(last as int)),
        v.folded_once(last as int).buckets.len() == v.buckets.len() - 1,
{
    let f = v.folded_once(last as int);
    assert(row_shaped(v, v.buckets[last as int]));
    assert(row_shaped(v, v.buckets[v.buckets.len() - 1]));
    assert forall|i: int| 0 <= i < f.buckets.len() implies row_shaped(
        f,
        #[trigger] f.buckets[i],
    ) by {
        assert(row_shaped(v, v.buckets[i]));
    }
}

} // verus!
