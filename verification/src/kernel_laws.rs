//! What holds of every run.

use crate::agent::AgentAction;
use crate::book_model::{after_limit, after_market};
use crate::event::{Event, EventPayload, OrderAction, RoutedMessage};
use crate::exchange_laws::{
    buckets_of, fills_of, keeps_buckets_of, law_output_options_change_no_trading,
    law_output_options_change_only_the_output, same_output,
};
use crate::exchange_lemmas::lemma_recorded_resting;
use crate::exchange_model::{ExchangeView, Outcome};
use crate::flow::FlowBucket;
use crate::inbox::in_due_order;
use crate::kernel::{ran, SimulationResult};
use crate::kernel_lemmas::lemma_serves_unique;
use crate::kernel_model::{
    due_before, due_by, ends_on, exchange_of, first, flow_rows, flow_totals, happened_at,
    heard_by_the_end, is_first, kept_past, pends_at, serves, Cast, Choices, InboxEntry, KernelView,
    Setup,
};
use crate::merge::{ahead_of, law_merge_is_a_stable_sort, merge_order, merged, unread, Timed};
use crate::queue::not_after;
use crate::records::{L1Bucket, L1Snapshot, TradeRecord};
use crate::types::{AgentId, Nanos, Symbol};
use vstd::multiset::Multiset;
use vstd::prelude::*;

verus! {

/// A run is determined by what agents and delays decide: two results of the
/// same decisions are the same.
pub proof fn law_a_run_is_determined_by_its_decisions(
    setup: Setup,
    cast: Cast,
    trace: Seq<Choices>,
    a: SimulationResult,
    b: SimulationResult,
)
    requires
        ran(setup, cast, trace, a),
        ran(setup, cast, trace, b),
    ensures
        a.trades@ == b.trades@,
        a.l1_snapshots@ == b.l1_snapshots@,
        a.l1_buckets@ == b.l1_buckets@,
        a.flow_buckets@.map_values(|bucket: FlowBucket| bucket@) == b.flow_buckets@.map_values(
            |bucket: FlowBucket| bucket@,
        ),
        a.flow_totals@ == b.flow_totals@,
        a.events_processed == b.events_processed,
        a.end_time == b.end_time,
{
    let start = setup.started();
    lemma_end_is_unique(start.after(trace), start.last_time(trace), a.end_time, b.end_time);
}

/// A run ends on one time.
proof fn lemma_end_is_unique(k: KernelView, last_time: Nanos, a: Nanos, b: Nanos)
    requires
        ends_on(k.inboxes, k.end_time, last_time, k.next_time(), a),
        ends_on(k.inboxes, k.end_time, last_time, k.next_time(), b),
    ensures
        a == b,
{
    let beyond = k.next_time();
    if exists|t: Nanos| pends_at(k.inboxes, k.end_time, beyond, t) {
        assert(pends_at(k.inboxes, k.end_time, beyond, a));
        assert(pends_at(k.inboxes, k.end_time, beyond, b));
    } else {
        assert(happened_at(k.inboxes, k.end_time, last_time, a));
        assert(happened_at(k.inboxes, k.end_time, last_time, b));
    }
}

/// No event of the queue is due before `now`.
spec fn due_from(queue: Multiset<Event>, now: Nanos) -> bool {
    forall|event: Event| #[trigger] queue.contains(event) ==> now <= event.delivery_time
}

/// A queue with events has a first one.
pub proof fn lemma_first_exists(queue: Multiset<Event>)
    requires
        queue.len() > 0,
    ensures
        exists|event: Event| is_first(queue, event),
    decreases queue.len(),
{
    broadcast use vstd::multiset::group_multiset_axioms;

    let event = queue.choose();
    assert(queue.contains(event));
    let rest = queue.remove(event);
    if rest.len() == 0 {
        assert forall|other: Event| #[trigger] queue.contains(other) implies not_after(
            event,
            other,
        ) by {
            if other != event {
                assert(rest.contains(other));
                vstd::multiset::lemma_multiset_empty_len(rest);
            }
        }
        assert(is_first(queue, event));
    } else {
        lemma_first_exists(rest);
        let early = choose|early: Event| is_first(rest, early);
        let winner = if not_after(event, early) {
            event
        } else {
            early
        };
        assert forall|other: Event| #[trigger] queue.contains(other) implies not_after(
            winner,
            other,
        ) by {
            if other != event {
                assert(rest.contains(other));
            }
        }
        assert(is_first(queue, winner));
    }
}

/// Scheduling an event that is not due before `now`.
proof fn lemma_pushed_due(k: KernelView, now: Nanos, time: Nanos, payload: EventPayload)
    requires
        due_from(k.queue, now),
        now <= time,
    ensures
        due_from(k.pushed(time, payload).queue, now),
{
    broadcast use vstd::multiset::group_multiset_axioms;

    let event = Event { delivery_time: time, seq: k.seq, payload };
    let more = k.pushed(time, payload).queue;
    assert forall|other: Event| #[trigger] more.contains(other) implies now
        <= other.delivery_time by {
        if other != event {
            assert(more.count(other) == k.queue.count(other));
            assert(k.queue.contains(other));
        }
    }
}

/// Actions take their ways to events that are not due before `now`.
proof fn lemma_routed_due(
    k: KernelView,
    agent_id: AgentId,
    actions: Seq<AgentAction>,
    delays: Seq<u64>,
    now: Nanos,
)
    requires
        due_from(k.queue, now),
        k.all_route_room(agent_id, actions, delays, now),
    ensures
        due_from(k.all_routed(agent_id, actions, delays, now).queue, now),
        k.all_routed(agent_id, actions, delays, now).end_time == k.end_time,
    decreases actions.len(),
{
    if actions.len() > 0 {
        let less = actions.drop_last();
        lemma_routed_due(k, agent_id, less, delays, now);
        let before = k.all_routed(agent_id, less, delays, now);
        let delay = delays[actions.len() - 1];
        match actions.last() {
            AgentAction::SubmitOrder { symbol, order } => {
                lemma_pushed_due(
                    before,
                    now,
                    (now + delay) as u64,
                    EventPayload::OrderArrival { agent_id, symbol, order },
                );
            },
            AgentAction::CancelOrder { symbol, order_id } => {
                lemma_pushed_due(
                    before,
                    now,
                    (now + delay) as u64,
                    EventPayload::OrderArrival {
                        agent_id,
                        symbol,
                        order: OrderAction::CancelOrder { order_id },
                    },
                );
            },
            AgentAction::ScheduleWakeUp { delay_ns } => {
                lemma_pushed_due(
                    before,
                    now,
                    (now + delay_ns) as u64,
                    EventPayload::WakeUp { agent_id },
                );
            },
        }
    }
}

/// Messages on their way are no events.
proof fn lemma_scheduled_queue(
    k: KernelView,
    messages: Seq<RoutedMessage>,
    delays: Seq<u64>,
    now: Nanos,
)
    ensures
        k.scheduled(messages, delays, now).queue == k.queue,
        k.scheduled(messages, delays, now).end_time == k.end_time,
    decreases messages.len(),
{
    if messages.len() > 0 {
        lemma_scheduled_queue(k, messages.drop_last(), delays, now);
    }
}

/// The next event is not due before `now`, and leaves none that is due before
/// itself.
proof fn lemma_step_due(k: KernelView, now: Nanos, choices: Choices)
    requires
        due_from(k.queue, now),
        k.can_step(choices),
    ensures
        now <= first(k.queue).delivery_time <= k.end_time,
        due_from(k.stepped(choices).queue, first(k.queue).delivery_time),
        k.stepped(choices).end_time == k.end_time,
{
    broadcast use vstd::multiset::group_multiset_axioms;

    lemma_first_exists(k.queue);
    let event = first(k.queue);
    assert(is_first(k.queue, event));
    let time = event.delivery_time;
    let popped = KernelView { queue: k.queue.remove(event), ..k };
    assert forall|other: Event| #[trigger] popped.queue.contains(other) implies time
        <= other.delivery_time by {
        assert(k.queue.contains(other));
        assert(not_after(event, other));
    }
    match event.payload {
        EventPayload::WakeUp { agent_id } => {
            lemma_routed_due(
                popped.delivered(agent_id, time, event.seq),
                agent_id,
                choices.actions,
                choices.delays,
                time,
            );
        },
        EventPayload::OrderArrival { agent_id, symbol, order } => {
            if let Some(i) = exchange_of(popped.exchanges, symbol) {
                let outcome = popped.exchanges[i].processed(agent_id, order, time);
                lemma_scheduled_queue(
                    KernelView {
                        exchanges: popped.exchanges.update(i, outcome.exchange),
                        ..popped
                    },
                    outcome.messages,
                    choices.delays,
                    time,
                );
            }
        },
        EventPayload::ExchangeResponse { agent_id, response } => {},
        EventPayload::MarketOpen { symbol } => {},
        EventPayload::MarketClose { symbol } => {
            if let Some(i) = exchange_of(popped.exchanges, symbol) {
                let outcome = popped.exchanges[i].closed(time);
                lemma_scheduled_queue(
                    KernelView {
                        exchanges: popped.exchanges.update(i, outcome.exchange),
                        ..popped
                    },
                    outcome.messages,
                    choices.delays,
                    time,
                );
            }
        },
    }
}

/// After some events none is due before the last of them.
proof fn lemma_after_due(k: KernelView, trace: Seq<Choices>)
    requires
        k.runs(trace),
    ensures
        due_from(k.after(trace).queue, k.last_time(trace)),
        k.after(trace).end_time == k.end_time,
        trace.len() > 0 ==> k.last_time(trace.drop_last()) <= k.last_time(trace) <= k.end_time,
    decreases trace.len(),
{
    if trace.len() > 0 {
        lemma_after_due(k, trace.drop_last());
        lemma_step_due(
            k.after(trace.drop_last()),
            k.last_time(trace.drop_last()),
            trace.last(),
        );
    }
}

/// Time never goes back: the events of a run happen in the order of their
/// times, and none after the end.
pub proof fn law_time_never_goes_back(k: KernelView, trace: Seq<Choices>, earlier: int, later: int)
    requires
        k.runs(trace),
        0 <= earlier <= later <= trace.len(),
    ensures
        k.last_time(trace.take(earlier)) <= k.last_time(trace.take(later)),
        later > 0 ==> k.last_time(trace.take(later)) <= k.end_time,
    decreases later,
{
    let now = trace.take(later);
    assert(k.runs(now)) by {
        lemma_runs_prefix(k, trace, later);
    }
    assert(later > 0 ==> k.last_time(now.drop_last()) <= k.last_time(now) <= k.end_time) by {
        lemma_after_due(k, now);
    }
    if earlier < later {
        assert(now.drop_last() =~= trace.take(later - 1));
        law_time_never_goes_back(k, trace, earlier, later - 1);
    }
}

/// The first events of a run are a run.
pub proof fn lemma_runs_prefix(k: KernelView, trace: Seq<Choices>, count: int)
    requires
        k.runs(trace),
        0 <= count <= trace.len(),
    ensures
        k.runs(trace.take(count)),
    decreases trace.len(),
{
    if count < trace.len() {
        lemma_runs_prefix(k, trace.drop_last(), count);
        assert(trace.drop_last().take(count) =~= trace.take(count));
    } else {
        assert(trace.take(count) =~= trace);
    }
}

/// An agent hears every message once and on time: when it wakes it hears what
/// is due by then, in the order in which it is due, and what it has heard
/// leaves its inbox. Nothing else leaves, and no other inbox changes.
pub proof fn law_every_message_is_heard_once(
    k: KernelView,
    cast: Cast,
    agent_id: AgentId,
    now: Nanos,
    seq: u64,
    choices: Choices,
)
    requires
        (agent_id as int) < k.inboxes.len(),
        k.decided_by(cast, EventPayload::WakeUp { agent_id }, now, seq, choices),
    ensures
        ({
            let inbox = k.inboxes[agent_id as int];
            let after = k.dispatched(EventPayload::WakeUp { agent_id }, now, seq, choices).inboxes;
            let kept = after[agent_id as int];
            &&& inbox == choices.heard.to_multiset().add(kept)
            &&& in_due_order(choices.heard)
            &&& forall|i: int|
                0 <= i < choices.heard.len() ==> due_before(#[trigger] choices.heard[i], now, seq)
            &&& forall|entry: InboxEntry| #[trigger]
                kept.contains(entry) ==> !due_before(entry, now, seq)
            &&& after.len() == k.inboxes.len()
            &&& forall|other: int|
                0 <= other < after.len() && other != agent_id ==> #[trigger] after[other]
                    == k.inboxes[other]
        }),
{
    broadcast use vstd::multiset::group_multiset_axioms;

    let inbox = k.inboxes[agent_id as int];
    let told = k.delivered(agent_id, now, seq);
    lemma_routed_exchanges(told, agent_id, choices.actions, choices.delays, now);
    let kept = told.inboxes[agent_id as int];
    assert(inbox =~= choices.heard.to_multiset().add(kept));
    assert forall|i: int| 0 <= i < choices.heard.len() implies due_before(
        #[trigger] choices.heard[i],
        now,
        seq,
    ) by {
        vstd::seq_lib::to_multiset_contains(choices.heard, choices.heard[i]);
        assert(choices.heard.contains(choices.heard[i]));
        assert(k.due(agent_id, now, seq).contains(choices.heard[i]));
    }
}

/// What is due by the end is heard by the end: an agent hears at the end of a
/// run what is due by then, in the order in which it is due. Nothing else
/// leaves its inbox.
pub proof fn law_what_is_due_by_the_end_is_heard(
    k: KernelView,
    heard: Seq<Seq<InboxEntry>>,
    agent: int,
)
    requires
        heard_by_the_end(k.inboxes, k.end_time, heard),
        0 <= agent < k.inboxes.len(),
    ensures
        ({
            let kept = kept_past(k.inboxes, k.end_time)[agent];
            &&& k.inboxes[agent] == heard[agent].to_multiset().add(kept)
            &&& in_due_order(heard[agent])
            &&& forall|i: int|
                0 <= i < heard[agent].len() ==> due_by(#[trigger] heard[agent][i], k.end_time)
            &&& forall|entry: InboxEntry| #[trigger]
                kept.contains(entry) ==> !due_by(entry, k.end_time)
        }),
{
    broadcast use vstd::multiset::group_multiset_axioms;

    let mine = heard[agent];
    let kept = kept_past(k.inboxes, k.end_time)[agent];
    assert(k.inboxes[agent] =~= mine.to_multiset().add(kept));
    assert forall|i: int| 0 <= i < mine.len() implies due_by(#[trigger] mine[i], k.end_time) by {
        vstd::seq_lib::to_multiset_contains(mine, mine[i]);
        assert(mine.contains(mine[i]));
        assert(k.inboxes[agent].filter(|entry: InboxEntry| due_by(entry, k.end_time)).contains(
            mine[i],
        ));
    }
}

/// The two simulations are alike but for the output they keep.
pub open spec fn same_run(a: KernelView, b: KernelView) -> bool {
    &&& a == KernelView { exchanges: a.exchanges, ..b }
    &&& a.exchanges.len() == b.exchanges.len()
    &&& forall|i: int|
        0 <= i < a.exchanges.len() ==> same_output(#[trigger] a.exchanges[i], b.exchanges[i])
}

/// The exchange of a symbol is the same in both.
pub proof fn lemma_same_exchange(a: KernelView, b: KernelView, symbol: Symbol)
    requires
        same_run(a, b),
    ensures
        exchange_of(a.exchanges, symbol) == exchange_of(b.exchanges, symbol),
        exchange_of(a.exchanges, symbol) matches Some(i) ==> 0 <= i < a.exchanges.len(),
{
    assert forall|i: int| serves(a.exchanges, symbol, i) <==> serves(b.exchanges, symbol, i) by {
        if 0 <= i < a.exchanges.len() {
            assert(same_output(a.exchanges[i], b.exchanges[i]));
            assert forall|j: int| 0 <= j < i implies a.exchanges[j].symbol
                == b.exchanges[j].symbol by {
                assert(same_output(a.exchanges[j], b.exchanges[j]));
            }
        }
    }
    if exists|i: int| serves(a.exchanges, symbol, i) {
        let i = choose|i: int| serves(a.exchanges, symbol, i);
        assert(serves(b.exchanges, symbol, i));
        lemma_serves_unique(a.exchanges, symbol, i);
        lemma_serves_unique(b.exchanges, symbol, i);
    } else {
        assert forall|i: int| !serves(b.exchanges, symbol, i) by {
            assert(!serves(a.exchanges, symbol, i));
        }
    }
}

/// Simulations that differ in their exchanges only schedule alike.
proof fn lemma_routed_same(
    a: KernelView,
    b: KernelView,
    agent_id: AgentId,
    actions: Seq<AgentAction>,
    delays: Seq<u64>,
    now: Nanos,
)
    requires
        same_run(a, b),
    ensures
        same_run(
            a.all_routed(agent_id, actions, delays, now),
            b.all_routed(agent_id, actions, delays, now),
        ),
    decreases actions.len(),
{
    if actions.len() > 0 {
        lemma_routed_same(a, b, agent_id, actions.drop_last(), delays, now);
    }
}

/// Simulations that differ in their exchanges only send alike.
proof fn lemma_scheduled_same(
    a: KernelView,
    b: KernelView,
    messages: Seq<RoutedMessage>,
    delays: Seq<u64>,
    now: Nanos,
)
    requires
        same_run(a, b),
    ensures
        same_run(a.scheduled(messages, delays, now), b.scheduled(messages, delays, now)),
    decreases messages.len(),
{
    if messages.len() > 0 {
        lemma_scheduled_same(a, b, messages.drop_last(), delays, now);
    }
}

/// An exchange of each did something alike.
proof fn lemma_exchange_did_same(
    a: KernelView,
    b: KernelView,
    i: int,
    did_a: Outcome,
    did_b: Outcome,
    delays: Seq<u64>,
    now: Nanos,
)
    requires
        same_run(a, b),
        0 <= i < a.exchanges.len(),
        same_output(did_a.exchange, did_b.exchange),
        did_a.messages == did_b.messages,
    ensures
        same_run(a.exchange_did(i, did_a, delays, now), b.exchange_did(i, did_b, delays, now)),
{
    lemma_scheduled_same(
        KernelView { exchanges: a.exchanges.update(i, did_a.exchange), ..a },
        KernelView { exchanges: b.exchanges.update(i, did_b.exchange), ..b },
        did_a.messages,
        delays,
        now,
    );
}

/// The next event keeps the two alike.
pub proof fn lemma_stepped_same(a: KernelView, b: KernelView, choices: Choices)
    requires
        same_run(a, b),
    ensures
        same_run(a.stepped(choices), b.stepped(choices)),
{
    let event = first(a.queue);
    let now = event.delivery_time;
    let pa = KernelView { queue: a.queue.remove(event), ..a };
    let pb = KernelView { queue: b.queue.remove(event), ..b };
    assert(same_run(pa, pb));
    match event.payload {
        EventPayload::WakeUp { agent_id } => {
            lemma_routed_same(
                pa.delivered(agent_id, now, event.seq),
                pb.delivered(agent_id, now, event.seq),
                agent_id,
                choices.actions,
                choices.delays,
                now,
            );
        },
        EventPayload::OrderArrival { agent_id, symbol, order } => {
            lemma_same_exchange(pa, pb, symbol);
            if let Some(i) = exchange_of(pa.exchanges, symbol) {
                let (ea, eb) = (pa.exchanges[i], pb.exchanges[i]);
                law_output_options_change_only_the_output(ea, eb, agent_id, order, now);
                law_output_options_change_no_trading(ea, eb, agent_id, order, now);
                lemma_exchange_did_same(
                    pa,
                    pb,
                    i,
                    ea.processed(agent_id, order, now),
                    eb.processed(agent_id, order, now),
                    choices.delays,
                    now,
                );
            }
        },
        EventPayload::ExchangeResponse { agent_id, response } => {},
        EventPayload::MarketOpen { symbol } => {
            lemma_same_exchange(pa, pb, symbol);
            if let Some(i) = exchange_of(pa.exchanges, symbol) {
                law_output_options_change_only_the_output(
                    pa.exchanges[i],
                    pb.exchanges[i],
                    0,
                    OrderAction::CancelOrder { order_id: 0 },
                    now,
                );
            }
        },
        EventPayload::MarketClose { symbol } => {
            lemma_same_exchange(pa, pb, symbol);
            if let Some(i) = exchange_of(pa.exchanges, symbol) {
                let (ea, eb) = (pa.exchanges[i], pb.exchanges[i]);
                let none = OrderAction::CancelOrder { order_id: 0 };
                law_output_options_change_only_the_output(ea, eb, 0, none, now);
                law_output_options_change_no_trading(ea, eb, 0, none, now);
                lemma_exchange_did_same(
                    pa,
                    pb,
                    i,
                    ea.closed(now),
                    eb.closed(now),
                    choices.delays,
                    now,
                );
            }
        },
    }
}

/// So do all events.
proof fn lemma_after_same(a: KernelView, b: KernelView, trace: Seq<Choices>)
    requires
        same_run(a, b),
    ensures
        same_run(a.after(trace), b.after(trace)),
        a.last_time(trace) == b.last_time(trace),
    decreases trace.len(),
{
    if trace.len() > 0 {
        lemma_after_same(a, b, trace.drop_last());
        lemma_stepped_same(a.after(trace.drop_last()), b.after(trace.drop_last()), trace.last());
    }
}

/// Scheduling the same events keeps the two alike.
proof fn lemma_all_pushed_same(a: KernelView, b: KernelView, events: Seq<(Nanos, EventPayload)>)
    requires
        same_run(a, b),
    ensures
        same_run(a.all_pushed(events), b.all_pushed(events)),
    decreases events.len(),
{
    if events.len() > 0 {
        lemma_all_pushed_same(a, b, events.drop_last());
    }
}

/// Simulations that are set up alike but for the output start alike.
pub proof fn lemma_started_same(full: Setup, lean: Setup)
    requires
        lean == (Setup {
            keep_trades: lean.keep_trades,
            l1_bucket_ns: lean.l1_bucket_ns,
            ..full
        }),
    ensures
        same_run(full.started(), lean.started()),
{
    let a = full.prepared_kernel();
    let b = lean.prepared_kernel();
    assert forall|i: int| 0 <= i < a.exchanges.len() implies same_output(
        #[trigger] a.exchanges[i],
        b.exchanges[i],
    ) by {
        let (ea, eb) = (full.created(i), lean.created(i));
        assert(same_output(ea, eb));
        law_output_options_change_only_the_output(
            ea,
            eb,
            0,
            OrderAction::CancelOrder { order_id: 0 },
            full.start_time,
        );
    }
    assert(full.first_events() =~= lean.first_events());
    lemma_all_pushed_same(a, b, full.first_events());
}

/// Every exchange has these output options.
spec fn options_are(k: KernelView, setup: Setup) -> bool {
    forall|i: int|
        0 <= i < k.exchanges.len() ==> (#[trigger] k.exchanges[i]).keep_trades
            == setup.keep_trades && k.exchanges[i].l1_bucket_ns == setup.l1_bucket_ns
}

/// A request changes no output option.
proof fn lemma_processed_options(
    v: ExchangeView,
    agent_id: AgentId,
    action: OrderAction,
    time: Nanos,
)
    ensures
        v.processed(agent_id, action, time).exchange.keep_trades == v.keep_trades,
        v.processed(agent_id, action, time).exchange.l1_bucket_ns == v.l1_bucket_ns,
{
    let fills = fills_of(v, action, time);
    match action {
        OrderAction::NewLimitOrder { side, price, qty, user_id } => {
            let order = v.new_limit(side, price, qty, user_id);
            let book = after_limit(v.book, v.limit_order(order, time));
            let matched = ExchangeView { book, ..v.admitted(agent_id, order, Some(price), time) };
            lemma_recorded_resting(matched, agent_id, fills, time, v.mid2());
        },
        OrderAction::NewMarketOrder { side, qty, user_id } => {
            let order = v.new_market(side, qty, user_id);
            let book = after_market(v.book, v.market_order(order));
            let matched = ExchangeView { book, ..v.admitted(agent_id, order, None, time) };
            lemma_recorded_resting(matched, agent_id, fills, time, v.mid2());
        },
        OrderAction::CancelOrder { order_id } => {},
    }
}

/// Actions that take their ways change no exchange and no inbox.
pub proof fn lemma_routed_exchanges(
    k: KernelView,
    agent_id: AgentId,
    actions: Seq<AgentAction>,
    delays: Seq<u64>,
    now: Nanos,
)
    ensures
        k.all_routed(agent_id, actions, delays, now).exchanges == k.exchanges,
        k.all_routed(agent_id, actions, delays, now).inboxes == k.inboxes,
    decreases actions.len(),
{
    if actions.len() > 0 {
        lemma_routed_exchanges(k, agent_id, actions.drop_last(), delays, now);
    }
}

/// Messages on their way change no exchange.
proof fn lemma_scheduled_exchanges(
    k: KernelView,
    messages: Seq<RoutedMessage>,
    delays: Seq<u64>,
    now: Nanos,
)
    ensures
        k.scheduled(messages, delays, now).exchanges == k.exchanges,
    decreases messages.len(),
{
    if messages.len() > 0 {
        lemma_scheduled_exchanges(k, messages.drop_last(), delays, now);
    }
}

/// The next event changes no output option.
proof fn lemma_stepped_options(k: KernelView, setup: Setup, choices: Choices)
    requires
        options_are(k, setup),
    ensures
        options_are(k.stepped(choices), setup),
{
    let event = first(k.queue);
    let now = event.delivery_time;
    let p = KernelView { queue: k.queue.remove(event), ..k };
    match event.payload {
        EventPayload::WakeUp { agent_id } => {
            lemma_routed_exchanges(
                p.delivered(agent_id, now, event.seq),
                agent_id,
                choices.actions,
                choices.delays,
                now,
            );
        },
        EventPayload::OrderArrival { agent_id, symbol, order } => {
            if let Some(i) = exchange_of(p.exchanges, symbol) {
                let did = p.exchanges[i].processed(agent_id, order, now);
                lemma_processed_options(p.exchanges[i], agent_id, order, now);
                lemma_scheduled_exchanges(
                    KernelView { exchanges: p.exchanges.update(i, did.exchange), ..p },
                    did.messages,
                    choices.delays,
                    now,
                );
            }
        },
        EventPayload::ExchangeResponse { agent_id, response } => {},
        EventPayload::MarketOpen { symbol } => {},
        EventPayload::MarketClose { symbol } => {
            if let Some(i) = exchange_of(p.exchanges, symbol) {
                let did = p.exchanges[i].closed(now);
                lemma_scheduled_exchanges(
                    KernelView { exchanges: p.exchanges.update(i, did.exchange), ..p },
                    did.messages,
                    choices.delays,
                    now,
                );
            }
        },
    }
}

/// Scheduling events changes no exchange.
proof fn lemma_all_pushed_exchanges(k: KernelView, events: Seq<(Nanos, EventPayload)>)
    ensures
        k.all_pushed(events).exchanges == k.exchanges,
    decreases events.len(),
{
    if events.len() > 0 {
        lemma_all_pushed_exchanges(k, events.drop_last());
    }
}

/// A run keeps the output options that it is set up with.
proof fn lemma_options_kept(setup: Setup, trace: Seq<Choices>)
    ensures
        options_are(setup.started().after(trace), setup),
    decreases trace.len(),
{
    if trace.len() == 0 {
        lemma_all_pushed_exchanges(setup.prepared_kernel(), setup.first_events());
    } else {
        lemma_options_kept(setup, trace.drop_last());
        lemma_stepped_options(setup.started().after(trace.drop_last()), setup, trace.last());
    }
}

/// Simulations that are alike record the same diagnostics.
proof fn lemma_flow_same(a: KernelView, b: KernelView, count: nat)
    requires
        same_run(a, b),
        count <= a.exchanges.len(),
    ensures
        flow_rows(a.exchanges, a.end_time, count) == flow_rows(b.exchanges, b.end_time, count),
        flow_totals(a.exchanges, count) == flow_totals(b.exchanges, count),
    decreases count,
{
    if count > 0 {
        lemma_flow_same(a, b, (count - 1) as nat);
        assert(same_output(a.exchanges[count - 1], b.exchanges[count - 1]));
    }
}

/// The output options change nothing but the output of a run: with the same
/// decisions, a run that keeps less processes the same events and ends at the
/// same time, has the same trades and quotes where it keeps them, and the
/// buckets of each exchange are those of its full quote log.
pub proof fn law_output_options_change_no_run(
    full: Setup,
    lean: Setup,
    cast: Cast,
    trace: Seq<Choices>,
    a: SimulationResult,
    b: SimulationResult,
)
    requires
        lean == (Setup {
            keep_trades: lean.keep_trades,
            l1_bucket_ns: lean.l1_bucket_ns,
            ..full
        }),
        ran(full, cast, trace, a),
        ran(lean, cast, trace, b),
    ensures
        a.events_processed == b.events_processed,
        a.end_time == b.end_time,
        a.flow_totals@ == b.flow_totals@,
        a.flow_buckets@.map_values(|bucket: FlowBucket| bucket@) == b.flow_buckets@.map_values(
            |bucket: FlowBucket| bucket@,
        ),
        full.keep_trades == lean.keep_trades ==> a.trades@ == b.trades@,
        full.l1_bucket_ns == lean.l1_bucket_ns ==> a.l1_snapshots@ == b.l1_snapshots@
            && a.l1_buckets@ == b.l1_buckets@,
        same_run(full.started().after(trace), lean.started().after(trace)),
{
    let (sa, sb) = (full.started(), lean.started());
    lemma_started_same(full, lean);
    lemma_after_same(sa, sb, trace);
    let (ka, kb) = (sa.after(trace), sb.after(trace));
    lemma_options_kept(full, trace);
    lemma_options_kept(lean, trace);
    let n = ka.exchanges.len();
    lemma_flow_same(ka, kb, n);
    if full.keep_trades == lean.keep_trades {
        assert(ka.exchanges.map_values(|exchange: ExchangeView| exchange.trades)
            =~= kb.exchanges.map_values(|exchange: ExchangeView| exchange.trades)) by {
            assert forall|i: int| 0 <= i < n implies ka.exchanges[i].trades
                == kb.exchanges[i].trades by {
                assert(same_output(ka.exchanges[i], kb.exchanges[i]));
            }
        }
    }
    if full.l1_bucket_ns == lean.l1_bucket_ns {
        assert forall|i: int| 0 <= i < n implies {
            &&& ka.exchanges[i].l1_snapshots == kb.exchanges[i].l1_snapshots
            &&& ka.exchanges[i].bucket_flushed().l1_buckets
                == kb.exchanges[i].bucket_flushed().l1_buckets
        } by {
            assert(same_output(ka.exchanges[i], kb.exchanges[i]));
        }
        assert(ka.exchanges.map_values(|exchange: ExchangeView| exchange.l1_snapshots)
            =~= kb.exchanges.map_values(|exchange: ExchangeView| exchange.l1_snapshots));
        assert(ka.exchanges.map_values(
            |exchange: ExchangeView| exchange.bucket_flushed().l1_buckets,
        ) =~= kb.exchanges.map_values(
            |exchange: ExchangeView| exchange.bucket_flushed().l1_buckets,
        ));
    }
    lemma_end_is_unique(ka, sa.last_time(trace), a.end_time, b.end_time);
}

/// Merging logs without records gives none.
proof fn lemma_nothing_to_merge<T: Timed>(logs: Seq<Seq<T>>)
    requires
        forall|i: int| 0 <= i < logs.len() ==> (#[trigger] logs[i]).len() == 0,
    ensures
        merged(logs) == Seq::<T>::empty(),
{
    law_merge_is_a_stable_sort(logs);
    let start = Seq::new(logs.len(), |i: int| 0int);
    let order = merge_order(logs, start, unread(logs, start));
    if order.len() > 0 {
        assert(ahead_of(logs, start, order[0]));
        assert(logs[order[0].log].len() == 0);
    }
    assert(merged(logs) =~= Seq::<T>::empty());
}

/// Of two runs of the same decisions, the one with lean output has no trades
/// where it keeps none, no buckets where it keeps snapshots, no snapshots where
/// it keeps buckets, and then the buckets that the logs of the full run fold
/// into.
pub proof fn law_lean_output_is_folded_from_the_full_log(
    full: Setup,
    lean: Setup,
    cast: Cast,
    trace: Seq<Choices>,
    a: SimulationResult,
    b: SimulationResult,
)
    requires
        lean == (Setup {
            keep_trades: lean.keep_trades,
            l1_bucket_ns: lean.l1_bucket_ns,
            ..full
        }),
        ran(full, cast, trace, a),
        ran(lean, cast, trace, b),
    ensures
        !lean.keep_trades ==> b.trades@ == Seq::<TradeRecord>::empty(),
        lean.l1_bucket_ns is Some ==> b.l1_snapshots@ == Seq::<L1Snapshot>::empty(),
        lean.l1_bucket_ns is None ==> b.l1_buckets@ == Seq::<L1Bucket>::empty(),
        full.l1_bucket_ns is None ==> (lean.l1_bucket_ns matches Some(width) ==> {
            let logs = full.started().after(trace).exchanges.map_values(
                |exchange: ExchangeView| exchange.l1_snapshots,
            );
            &&& a.l1_snapshots@ == merged(logs)
            &&& b.l1_buckets@ == merged(
                logs.map_values(|log: Seq<L1Snapshot>| buckets_of(log, width)),
            )
        }),
{
    let (sa, sb) = (full.started(), lean.started());
    lemma_started_same(full, lean);
    lemma_after_same(sa, sb, trace);
    let (ka, kb) = (sa.after(trace), sb.after(trace));
    lemma_options_kept(full, trace);
    lemma_options_kept(lean, trace);
    let n = ka.exchanges.len();
    assert forall|i: int| 0 <= i < n implies same_output(
        #[trigger] ka.exchanges[i],
        kb.exchanges[i],
    ) by {}
    if !lean.keep_trades {
        let logs = kb.exchanges.map_values(|exchange: ExchangeView| exchange.trades);
        assert forall|i: int| 0 <= i < logs.len() implies (#[trigger] logs[i]).len() == 0 by {
            assert(same_output(ka.exchanges[i], kb.exchanges[i]));
        }
        lemma_nothing_to_merge(logs);
    }
    if lean.l1_bucket_ns is None {
        let none = kb.exchanges.map_values(
            |exchange: ExchangeView| exchange.bucket_flushed().l1_buckets,
        );
        assert forall|i: int| 0 <= i < none.len() implies (#[trigger] none[i]).len() == 0 by {
            assert(same_output(ka.exchanges[i], kb.exchanges[i]));
        }
        lemma_nothing_to_merge(none);
    }
    if let Some(width) = lean.l1_bucket_ns {
        let none = kb.exchanges.map_values(|exchange: ExchangeView| exchange.l1_snapshots);
        assert forall|i: int| 0 <= i < none.len() implies (#[trigger] none[i]).len() == 0 by {
            assert(same_output(ka.exchanges[i], kb.exchanges[i]));
        }
        lemma_nothing_to_merge(none);
        if full.l1_bucket_ns is None {
            let logs = ka.exchanges.map_values(|exchange: ExchangeView| exchange.l1_snapshots);
            let kept = kb.exchanges.map_values(
                |exchange: ExchangeView| exchange.bucket_flushed().l1_buckets,
            );
            let folded = logs.map_values(|log: Seq<L1Snapshot>| buckets_of(log, width));
            assert forall|i: int| 0 <= i < n implies kept[i] == folded[i] by {
                assert(same_output(ka.exchanges[i], kb.exchanges[i]));
                assert(keeps_buckets_of(ka.exchanges[i], kb.exchanges[i], width));
            }
            assert(kept =~= folded);
        }
    }
}

} // verus!
