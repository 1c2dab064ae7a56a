//! Facts about the mathematical kernel.

use crate::agent::AgentAction;
use crate::event::{Event, EventPayload, OrderAction, RoutedMessage};
use crate::exchange_model::{in_order, ExchangeView, NewOrder};
use crate::fills::{Fill, OrderStatus};
use crate::kernel_model::{exchange_of, first, is_first, payload_within, serves, KernelView};
use crate::merge::{time_ordered, Timed};
use crate::queue::not_after;
use crate::types::{AgentId, Nanos, Symbol};
use vstd::prelude::*;

verus! {

/// Every resting order belongs to one of `agents`.
pub open spec fn owners_within(exchange: ExchangeView, agents: nat) -> bool {
    forall|id: u64| #[trigger]
        exchange.resting.contains_key(id) ==> exchange.resting[id].agent_id < agents
}

/// Every message goes to one of `agents`.
pub open spec fn sent_within(messages: Seq<RoutedMessage>, agents: nat) -> bool {
    forall|i: int| 0 <= i < messages.len() ==> (#[trigger] messages[i]).agent_id < agents
}

/// A log is in the order of time and ends by `now`.
pub open spec fn log_until<T: Timed>(log: Seq<T>, now: Nanos) -> bool {
    &&& time_ordered(log)
    &&& forall|i: int| 0 <= i < log.len() ==> (#[trigger] log[i]).spec_time() <= now
}

/// So are all logs of an exchange.
pub open spec fn logs_until(exchange: ExchangeView, now: Nanos) -> bool {
    &&& log_until(exchange.trades, now)
    &&& log_until(exchange.l1_snapshots, now)
    &&& log_until(exchange.l1_buckets, now)
    &&& exchange.open_bucket is None ==> exchange.l1_buckets.len() == 0
    &&& exchange.open_bucket matches Some(bucket) ==> {
        &&& bucket.bucket_start <= now
        &&& log_until(exchange.l1_buckets, bucket.bucket_start)
        &&& exchange.l1_bucket_ns matches Some(bucket_ns) ==> bucket.bucket_start % bucket_ns == 0
    }
}

pub proof fn lemma_log_push<T: Timed>(log: Seq<T>, record: T, now: Nanos)
    requires
        log_until(log, record.spec_time()),
        record.spec_time() <= now,
    ensures
        log_until(log.push(record), now),
{
    let longer = log.push(record);
    assert forall|i: int, j: int| 0 <= i <= j < longer.len() implies longer[i].spec_time()
        <= longer[j].spec_time() by {
        if j < log.len() {
            assert(log[i].spec_time() <= log[j].spec_time());
        } else if i < log.len() {
            assert(log[i].spec_time() <= record.spec_time());
        }
    }
    assert forall|i: int|
        0 <= i < longer.len() implies (#[trigger] longer[i]).spec_time() <= now by {
        if i < log.len() {
            assert(log[i].spec_time() <= record.spec_time());
        }
    }
}

/// Time moves on.
pub proof fn lemma_logs_later(exchange: ExchangeView, now: Nanos, later: Nanos)
    requires
        logs_until(exchange, now),
        now <= later,
    ensures
        logs_until(exchange, later),
{
}

/// A time rounded down to a bucket is a bucket's start, and not before any
/// earlier bucket's.
pub proof fn lemma_round_down(time: u64, width: u64, earlier: u64)
    requires
        width > 0,
        earlier % width == 0,
        earlier <= time,
    ensures
        time % width <= time,
        (time - time % width) % (width as int) == 0,
        earlier <= time - time % width,
{
    let t = time as int;
    let w = width as int;
    let e = earlier as int;
    vstd::arithmetic::div_mod::lemma_fundamental_div_mod(t, w);
    vstd::arithmetic::div_mod::lemma_fundamental_div_mod(e, w);
    vstd::arithmetic::div_mod::lemma_div_is_ordered(e, t, w);
    vstd::arithmetic::mul::lemma_mul_is_commutative(w, t / w);
    vstd::arithmetic::div_mod::lemma_mod_multiples_basic(t / w, w);
    vstd::arithmetic::mul::lemma_mul_inequality(e / w, t / w, w);
    vstd::arithmetic::mul::lemma_mul_is_commutative(w, e / w);
    assert(t % w <= t) by (nonlinear_arith)
        requires
            t >= 0,
            w > 0,
    ;
}

/// Recording the quotes keeps the logs in order.
pub proof fn lemma_l1_logs(exchange: ExchangeView, now: Nanos)
    requires
        logs_until(exchange, now),
        exchange.l1_room(now),
    ensures
        logs_until(exchange.with_l1(now), now),
{
    match exchange.l1_bucket_ns {
        Some(bucket_ns) => {
            let start = (now - now % bucket_ns) as u64;
            lemma_round_down(now, bucket_ns, 0);
            if let Some(open) = exchange.open_bucket {
                lemma_round_down(now, bucket_ns, open.bucket_start);
                if open.bucket_start != start {
                    lemma_log_push(exchange.l1_buckets, open, start);
                }
            }
        },
        None => {
            let record = exchange.with_l1(now).l1_snapshots.last();
            lemma_log_push(exchange.l1_snapshots, record, now);
        },
    }
}

/// Recording fills keeps logs in order and tells known agents only.
pub proof fn lemma_recorded_keeps(
    v: ExchangeView,
    taker: AgentId,
    fills: Seq<Fill>,
    time: Nanos,
    mid2: Option<u64>,
    agents: nat,
)
    requires
        owners_within(v, agents),
        logs_until(v, time),
    ensures
        ({
            let all = v.recorded(taker, fills, time, mid2);
            &&& owners_within(all.exchange, agents)
            &&& logs_until(all.exchange, time)
            &&& sent_within(all.messages, agents)
            &&& all.exchange.symbol == v.symbol
        }),
    decreases fills.len(),
{
    if fills.len() > 0 {
        lemma_recorded_keeps(v, taker, fills.drop_last(), time, mid2, agents);
        let before = v.recorded(taker, fills.drop_last(), time, mid2);
        let fill = fills.last();
        let step = before.exchange.recorded_once(taker, fill, time, mid2);
        if before.exchange.keep_trades {
            lemma_log_push(before.exchange.trades, step.exchange.trades.last(), time);
        }
        assert(owners_within(step.exchange, agents)) by {
            assert forall|id: u64|
                #[trigger] step.exchange.resting.contains_key(id)
            implies step.exchange.resting[id].agent_id
                < agents by {
                assert(before.exchange.resting.contains_key(id));
            }
        }
        assert(sent_within(before.messages + step.messages, agents)) by {
            let all = before.messages + step.messages;
            assert forall|i: int|
                0 <= i < all.len() implies (#[trigger] all[i]).agent_id < agents by {
                if i < before.messages.len() {
                    assert(all[i] == before.messages[i]);
                } else {
                    assert(before.exchange.resting.contains_key(fill.maker_order_id));
                }
            }
        }
    }
}

/// A new order keeps logs in order and tells known agents only.
pub proof fn lemma_executed_keeps(
    v: ExchangeView,
    agent_id: AgentId,
    order: NewOrder,
    limit: Option<i64>,
    book: crate::book_model::BookView,
    fills: Seq<Fill>,
    status: OrderStatus,
    time: Nanos,
    agents: nat,
)
    requires
        owners_within(v, agents),
        logs_until(v, time),
        agent_id < agents,
    ensures
        ({
            let all = v.executed(agent_id, order, limit, book, fills, status, time);
            &&& owners_within(all.exchange, agents)
            &&& logs_until(all.exchange, time)
            &&& sent_within(all.messages, agents)
            &&& all.exchange.symbol == v.symbol
        }),
{
    let matched = ExchangeView { book, ..v.admitted(agent_id, order, limit, time) };
    lemma_recorded_keeps(matched, agent_id, fills, time, v.mid2(), agents);
    let recorded = matched.recorded(agent_id, fills, time, v.mid2());
    let told = recorded.exchange.notified(agent_id, order, status, fills, time);
    let all = v.executed(agent_id, order, limit, book, fills, status, time);
    assert(owners_within(told.exchange, agents)) by {
        assert forall|id: u64|
            #[trigger] told.exchange.resting.contains_key(id)
        implies told.exchange.resting[id].agent_id
            < agents by {
            if id != order.id {
                assert(recorded.exchange.resting.contains_key(id));
            } else if recorded.exchange.resting.contains_key(id) {
            }
        }
    }
    assert forall|i: int| 0 <= i < all.messages.len() implies (
    #[trigger] all.messages[i]).agent_id < agents by {
        let n = recorded.messages.len();
        if i == 0 {
        } else if i - 1 < n {
            assert(all.messages[i] == recorded.messages[i - 1]);
        } else {
            assert(all.messages[i] == told.messages[i - 1 - n]);
        }
    }
}

/// A request keeps logs in order and is answered to known agents only.
pub proof fn lemma_processed_keeps(
    v: ExchangeView,
    agent_id: AgentId,
    action: OrderAction,
    time: Nanos,
    agents: nat,
)
    requires
        owners_within(v, agents),
        logs_until(v, time),
        agent_id < agents,
        v.process_room(agent_id, action, time),
    ensures
        ({
            let all = v.processed(agent_id, action, time);
            &&& owners_within(all.exchange, agents)
            &&& logs_until(all.exchange, time)
            &&& sent_within(all.messages, agents)
            &&& all.exchange.symbol == v.symbol
        }),
{
    if v.is_open {
        let applied = v.applied(agent_id, action, time);
        match action {
            OrderAction::NewLimitOrder { side, price, qty, user_id } => {
                let order = v.new_limit(side, price, qty, user_id);
                let taken = v.limit_order(order, time);
                let sweep = crate::book_model::limit_sweep(v.book, taken);
                lemma_executed_keeps(
                    v,
                    agent_id,
                    order,
                    Some(price),
                    crate::book_model::after_limit(v.book, taken),
                    sweep.fills,
                    crate::book_model::limit_status(qty as nat, sweep.remaining),
                    time,
                    agents,
                );
            },
            OrderAction::NewMarketOrder { side, qty, user_id } => {
                let order = v.new_market(side, qty, user_id);
                let taken = v.market_order(order);
                let sweep = crate::book_model::market_sweep(v.book, taken);
                lemma_executed_keeps(
                    v,
                    agent_id,
                    order,
                    None,
                    crate::book_model::after_market(v.book, taken),
                    sweep.fills,
                    crate::book_model::market_status(qty as nat, sweep.remaining),
                    time,
                    agents,
                );
            },
            OrderAction::CancelOrder { order_id } => {
                assert forall|id: u64|
                    #[trigger] applied.exchange.resting.contains_key(id)
                implies applied.exchange.resting[id].agent_id
                    < agents by {
                    assert(v.resting.contains_key(id));
                }
            },
        }
        if applied.exchange.best_prices() != v.best_prices() {
            lemma_l1_logs(applied.exchange, time);
            assert(applied.exchange.with_l1(time).resting == applied.exchange.resting);
        }
    }
}

/// Closing keeps logs in order and tells known agents only.
pub proof fn lemma_closed_keeps(v: ExchangeView, time: Nanos, agents: nat)
    requires
        v.wf(),
        owners_within(v, agents),
        logs_until(v, time),
        v.close_room(time),
        in_order(v.resting.dom()).to_set() == v.resting.dom(),
    ensures
        ({
            let all = v.closed(time);
            &&& owners_within(all.exchange, agents)
            &&& logs_until(all.exchange, time)
            &&& sent_within(all.messages, agents)
            &&& all.exchange.symbol == v.symbol
        }),
{
    lemma_l1_logs(v.emptied(time), time);
    assert(v.closed(time).exchange.resting == v.emptied(time).resting);
    let ids = in_order(v.resting.dom());
    let all = v.closed(time);
    assert forall|i: int| 0 <= i < all.messages.len() implies (
    #[trigger] all.messages[i]).agent_id < agents by {
        assert(ids.to_set().contains(ids[i]));
        assert(v.resting.contains_key(ids[i]));
    }
}

/// A simulation at time `now`: no event lies in the past, events have
/// different sequence numbers and are about known agents, and exchanges are
/// valid with logs up to now.
pub open spec fn valid(k: KernelView, now: Nanos) -> bool {
    &&& forall|e: Event| #[trigger]
        k.queue.contains(e) ==> {
            &&& now <= e.delivery_time
            &&& e.seq < k.seq
            &&& payload_within(e.payload, k.inboxes.len())
        }
    &&& forall|a: Event, b: Event| #[trigger]
        k.queue.contains(a) && #[trigger] k.queue.contains(b) && a.seq == b.seq ==> a == b
    &&& forall|i: int|
        0 <= i < k.exchanges.len() ==> {
            &&& (#[trigger] k.exchanges[i]).wf()
            &&& owners_within(k.exchanges[i], k.inboxes.len())
            &&& logs_until(k.exchanges[i], now)
        }
}

/// Scheduling an event keeps a simulation valid.
pub proof fn lemma_pushed_valid(
    k: KernelView,
    now: Nanos,
    delivery_time: Nanos,
    payload: EventPayload,
)
    requires
        valid(k, now),
        now <= delivery_time,
        payload_within(payload, k.inboxes.len()),
        k.push_room(),
    ensures
        valid(k.pushed(delivery_time, payload), now),
{
    broadcast use vstd::multiset::group_multiset_axioms;

    let event = Event { delivery_time, seq: k.seq, payload };
    let p = k.pushed(delivery_time, payload);
    assert forall|e: Event| #[trigger] p.queue.contains(e) implies k.queue.contains(e) || e
        == event by {}
    assert forall|e: Event| #[trigger] p.queue.contains(e) implies {
        &&& now <= e.delivery_time
        &&& e.seq < p.seq
        &&& payload_within(e.payload, p.inboxes.len())
    } by {
        assert(k.queue.contains(e) || e == event);
    }
    assert forall|a: Event, b: Event| #[trigger]
        p.queue.contains(a) && #[trigger] p.queue.contains(b) && a.seq == b.seq implies a == b by {
        assert(k.queue.contains(a) || a == event);
        assert(k.queue.contains(b) || b == event);
    }
}

/// Only one event is next.
pub proof fn lemma_first(k: KernelView, now: Nanos, event: Event)
    requires
        valid(k, now),
        is_first(k.queue, event),
    ensures
        first(k.queue) == event,
{
    let chosen = first(k.queue);
    assert(is_first(k.queue, chosen));
    assert(k.queue.contains(chosen) && k.queue.contains(event));
}

/// Taking the next event out leaves a simulation valid at its time.
pub proof fn lemma_popped_valid(k: KernelView, now: Nanos, event: Event)
    requires
        valid(k, now),
        is_first(k.queue, event),
    ensures
        now <= event.delivery_time,
        payload_within(event.payload, k.inboxes.len()),
        valid(
            KernelView { queue: k.queue.remove(event), ..k },
            event.delivery_time,
        ),
{
    broadcast use vstd::multiset::group_multiset_axioms;

    let p = KernelView { queue: k.queue.remove(event), ..k };
    assert(k.queue.contains(event));
    assert forall|e: Event| #[trigger] p.queue.contains(e) implies k.queue.contains(e) by {}
    assert forall|e: Event| #[trigger] p.queue.contains(e) implies {
        &&& event.delivery_time <= e.delivery_time
        &&& e.seq < p.seq
        &&& payload_within(e.payload, p.inboxes.len())
    } by {
        assert(k.queue.contains(e));
        assert(not_after(event, e));
    }
    assert forall|a: Event, b: Event| #[trigger]
        p.queue.contains(a) && #[trigger] p.queue.contains(b) && a.seq == b.seq implies a == b by {
        assert(k.queue.contains(a) && k.queue.contains(b));
    }
    assert forall|i: int| 0 <= i < p.exchanges.len() implies {
        &&& (#[trigger] p.exchanges[i]).wf()
        &&& owners_within(p.exchanges[i], p.inboxes.len())
        &&& logs_until(p.exchanges[i], event.delivery_time)
    } by {
        assert(k.exchanges[i].wf());
        lemma_logs_later(k.exchanges[i], now, event.delivery_time);
    }
}

/// Delays past those of the actions do not matter.
pub proof fn lemma_routed_agree(
    k: KernelView,
    agent_id: AgentId,
    actions: Seq<AgentAction>,
    a: Seq<u64>,
    b: Seq<u64>,
    now: Nanos,
)
    requires
        forall|i: int| 0 <= i < actions.len() ==> #[trigger] a[i] == b[i],
    ensures
        k.all_routed(agent_id, actions, a, now) == k.all_routed(agent_id, actions, b, now),
        k.all_route_room(agent_id, actions, a, now) == k.all_route_room(agent_id, actions, b, now),
    decreases actions.len(),
{
    if actions.len() > 0 {
        lemma_routed_agree(k, agent_id, actions.drop_last(), a, b, now);
        assert(a[actions.len() - 1] == b[actions.len() - 1]);
    }
}

/// Delays past those of the messages do not matter.
pub proof fn lemma_scheduled_agree(
    k: KernelView,
    messages: Seq<RoutedMessage>,
    a: Seq<u64>,
    b: Seq<u64>,
    now: Nanos,
)
    requires
        forall|i: int| 0 <= i < messages.len() ==> #[trigger] a[i] == b[i],
    ensures
        k.scheduled(messages, a, now) == k.scheduled(messages, b, now),
        k.schedule_room(messages, a, now) == k.schedule_room(messages, b, now),
    decreases messages.len(),
{
    if messages.len() > 0 {
        lemma_scheduled_agree(k, messages.drop_last(), a, b, now);
        assert(a[messages.len() - 1] == b[messages.len() - 1]);
    }
}

/// At most one exchange serves a symbol first.
pub proof fn lemma_serves_unique(exchanges: Seq<ExchangeView>, symbol: Symbol, i: int)
    requires
        serves(exchanges, symbol, i),
    ensures
        exchange_of(exchanges, symbol) == Some(i),
{
    let chosen = choose|k: int| serves(exchanges, symbol, k);
    assert(serves(exchanges, symbol, chosen));
}

/// No exchange serves a symbol that none has.
pub proof fn lemma_serves_none(exchanges: Seq<ExchangeView>, symbol: Symbol)
    requires
        forall|i: int| 0 <= i < exchanges.len() ==> (#[trigger] exchanges[i]).symbol != symbol,
    ensures
        exchange_of(exchanges, symbol) is None,
{
}

} // verus!
