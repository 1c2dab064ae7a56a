//! What is taken: orders, quotes and messages are turned down only where a
//! counter or a time would not fit.

use crate::book_entry_laws::{lemma_line_volume, line_at, line_qty};
use crate::book_model::{after_limit, after_market, limit_sweep, market_sweep};
use crate::event::{OrderAction, RoutedMessage};
use crate::exchange_entry_laws::law_a_notional_is_price_times_quantity;
use crate::exchange_model::ExchangeView;
use crate::fills::Fill;
use crate::flow_laws::law_bins_are_half_open;
use crate::flow_lemmas::{lemma_at_wf, lemma_resolved_upto_setup};
use crate::flow_model::{ratio_bin, FlowFill, FlowView};
use crate::kernel_model::{KernelView, Setup};
use crate::order::Side;
use crate::types::{AgentId, Nanos};
use vstd::prelude::*;

verus! {

/// A recorder takes an order of the agent it watches exactly if the interval
/// and the counters of that interval can take it, and orders of others always.
pub proof fn law_a_recorder_takes_orders_that_fit(
    v: FlowView,
    time: Nanos,
    agent_id: AgentId,
    qty: u64,
)
    ensures
        ({
            let i = time as int / v.interval_ns as int;
            let row = v.at(time).buckets[i];
            &&& agent_id != v.agent_id ==> v.accept_room(time, agent_id, qty) && v.reject_room(
                time,
                agent_id,
            )
            &&& agent_id == v.agent_id ==> {
                &&& v.accept_room(time, agent_id, qty) <==> i < usize::MAX && row.orders < u64::MAX
                    && row.eligible_orders < u64::MAX && row.submitted_qty + qty <= u64::MAX
                    && v.totals.accepted_orders < u64::MAX
                &&& v.reject_room(time, agent_id) <==> i < usize::MAX && row.rejected_orders
                    < u64::MAX && v.totals.rejected_orders < u64::MAX
            }
        }),
{
}

/// A recorder sizes an order against the depth if the counters of its interval
/// can take it.
pub proof fn law_a_recorder_sizes_orders_that_fit(
    v: FlowView,
    time: Nanos,
    qty: u64,
    half_notional: Option<u128>,
    depth: u128,
)
    requires
        v.wf(),
        ({
            let i = time as int / v.interval_ns as int;
            let row = v.at(time).buckets[i];
            &&& i < usize::MAX
            &&& half_notional is None ==> row.unvalued_count < u64::MAX && row.unvalued_qty + qty
                <= u64::MAX
            &&& half_notional matches Some(value) ==> {
                &&& depth == 0 ==> row.zero_depth_count < u64::MAX && row.zero_depth_qty + qty
                    <= u64::MAX && row.zero_depth_half_notional + value <= u128::MAX
                &&& depth > 0 ==> forall|bin: int|
                    0 <= bin <= v.ratio_edges.len() ==> (#[trigger] row.ratio_count[bin])
                        < u64::MAX && row.ratio_half_notional[bin] + value <= u128::MAX
            }
        }),
    ensures
        v.size_room(time, qty, half_notional, depth),
{
    lemma_at_wf(v, time);
    if let Some(value) = half_notional {
        law_bins_are_half_open(v.ratio_edges, value, depth);
        let bin = ratio_bin(v.ratio_edges, value, depth) as int;
        assert(depth > 0 ==> v.at(time).row(time).ratio_count[bin] < u64::MAX);
    }
}

/// A recorder takes a fill if the counters of its interval can take it and no
/// horizon of a watched one lies beyond the last time there is.
pub proof fn law_a_recorder_takes_fills_that_fit(v: FlowView, fill: FlowFill)
    requires
        v.wf(),
        ({
            let i = fill.time as int / v.interval_ns as int;
            let row = v.resolved(fill.time).at(fill.time).buckets[i];
            let worth = if fill.price >= 0 {
                fill.price * fill.qty
            } else {
                0 - fill.price * fill.qty
            };
            &&& i < usize::MAX
            &&& row.market_self_trades < u64::MAX && row.market_trades < u64::MAX
            &&& row.market_self_qty + fill.qty <= u64::MAX
            &&& row.market_qty + fill.qty <= u64::MAX
            &&& row.market_self_notional + worth <= u128::MAX
            &&& row.market_notional + worth <= u128::MAX
            &&& v.totals.fill_events < u64::MAX
            &&& forall|h: int|
                0 <= h < v.horizons_ns.len() ==> fill.time + #[trigger] v.horizons_ns[h]
                    <= u64::MAX
        }),
    ensures
        v.fill_room(fill),
{
    lemma_resolved_upto_setup(v, v.horizons_ns.len(), fill.time);
    law_a_notional_is_price_times_quantity(fill.price, fill.qty);
}

/// Recording fills needs no room where no flow is recorded.
proof fn lemma_no_recorder(
    v: ExchangeView,
    taker: AgentId,
    fills: Seq<Fill>,
    time: Nanos,
    mid2: Option<u64>,
)
    requires
        v.flow is None,
    ensures
        v.record_room(taker, fills, time, mid2),
        v.recorded(taker, fills, time, mid2).exchange.flow is None,
    decreases fills.len(),
{
    if fills.len() > 0 {
        lemma_no_recorder(v, taker, fills.drop_last(), time, mid2);
    }
}

proof fn lemma_no_buckets(
    v: ExchangeView,
    taker: AgentId,
    fills: Seq<Fill>,
    time: Nanos,
    mid2: Option<u64>,
)
    requires
        v.l1_bucket_ns is None,
    ensures
        v.recorded(taker, fills, time, mid2).exchange.l1_bucket_ns is None,
    decreases fills.len(),
{
    if fills.len() > 0 {
        lemma_no_buckets(v, taker, fills.drop_last(), time, mid2);
    }
}

/// Where neither flow nor buckets are recorded, an exchange takes every cancel,
/// every market order of a positive quantity, and every limit order of a
/// positive quantity, at a price that is not negative, that fits the level it
/// may come to rest at, as long as there are ids. A closed one takes every
/// request, to refuse it. Markets can always open and close.
pub proof fn law_an_exchange_takes_what_fits(
    v: ExchangeView,
    agent_id: AgentId,
    side: Side,
    price: i64,
    qty: u64,
    user_id: u64,
    order_id: u64,
    time: Nanos,
)
    requires
        v.flow is None,
        v.l1_bucket_ns is None,
    ensures
        v.process_room(agent_id, OrderAction::CancelOrder { order_id }, time),
        v.l1_room(time),
        v.close_room(time),
        !v.is_open || (qty > 0 && v.next_order_id < u64::MAX) ==> v.process_room(
            agent_id,
            OrderAction::NewMarketOrder { side, qty, user_id },
            time,
        ),
        !v.is_open || (qty > 0 && price >= 0 && v.next_order_id < u64::MAX && line_qty(
            line_at(v.book.side(side), price),
        ) + qty <= u64::MAX) ==> v.process_room(
            agent_id,
            OrderAction::NewLimitOrder { side, price, qty, user_id },
            time,
        ),
{
    let mid2 = v.mid2();
    let bought = v.new_market(side, qty, user_id);
    let market = ExchangeView {
        book: after_market(v.book, v.market_order(bought)),
        ..v.admitted(agent_id, bought, None, time)
    };
    let fills = market_sweep(v.book, v.market_order(bought)).fills;
    lemma_no_recorder(market, agent_id, fills, time, mid2);
    lemma_no_buckets(market, agent_id, fills, time, mid2);
    let placed = v.new_limit(side, price, qty, user_id);
    let limit = ExchangeView {
        book: after_limit(v.book, v.limit_order(placed, time)),
        ..v.admitted(agent_id, placed, Some(price), time)
    };
    let fills = limit_sweep(v.book, v.limit_order(placed, time)).fills;
    lemma_no_recorder(limit, agent_id, fills, time, mid2);
    lemma_no_buckets(limit, agent_id, fills, time, mid2);
    lemma_line_volume(line_at(v.book.side(side), price));
    assert(line_qty(Seq::empty()) == 0);
}

/// Messages can be sent as long as they can be numbered and are due at times
/// that there are.
pub proof fn law_messages_that_fit_are_sent(
    k: KernelView,
    messages: Seq<RoutedMessage>,
    delays: Seq<u64>,
    now: Nanos,
)
    requires
        k.seq + messages.len() <= u64::MAX,
        messages.len() <= delays.len(),
        forall|j: int| 0 <= j < messages.len() ==> now + #[trigger] delays[j] <= u64::MAX,
    ensures
        k.schedule_room(messages, delays, now),
        k.scheduled(messages, delays, now).seq == k.seq + messages.len(),
    decreases messages.len(),
{
    if messages.len() > 0 {
        law_messages_that_fit_are_sent(k, messages.drop_last(), delays, now);
    }
}

/// A run that records no buckets can start with as many symbols as there are
/// ranges of order ids, and as many first events as a queue can hold.
pub proof fn law_a_run_can_start(setup: Setup)
    requires
        setup.l1_bucket_ns is None,
        setup.symbols.len() * 1_000_000_000 <= u64::MAX,
        2 * setup.symbols.len() + setup.agents <= 0x1_0000_0000,
    ensures
        setup.start_room(),
{
}

} // verus!
