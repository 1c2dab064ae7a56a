//! What holds of runs whose agents and delays leave no choice.

use crate::agent::{AgentAction, Call};
use crate::event::{Event, EventPayload, OrderAction, RoutedMessage};
use crate::exchange_laws::{buckets_of, law_output_options_change_no_trading, same_output};
use crate::exchange_model::{ExchangeView, Outcome};
use crate::flow::FlowBucket;
use crate::inbox::{in_due_order, no_later};
use crate::kernel::{ran, SimulationResult};
use crate::kernel_laws::{
    law_a_run_is_determined_by_its_decisions, law_lean_output_is_folded_from_the_full_log,
    law_output_options_change_no_run, lemma_first_exists, lemma_runs_prefix, lemma_same_exchange,
    lemma_started_same, lemma_stepped_same, same_run,
};
use crate::kernel_model::{
    exchange_of, first, heard_calls, is_first, market_snapshots, wake_calls, Cast, Choices,
    InboxEntry, KernelView, Setup,
};
use crate::latency::fixed_delays;
use crate::merge::merged;
use crate::order::Side;
use crate::records::{L1Bucket, L1Snapshot, TradeRecord};
use crate::samplers::MovingAverage;
use crate::trend_following_agent::{trend_candles, trend_strategy, TrendTraits};
use crate::types::{AgentId, MarketSnapshot, Nanos};
use vstd::multiset::Multiset;
use vstd::prelude::*;

verus! {

/// A record of calls that ends with a wakeup.
pub open spec fn woken(
    past: Seq<Call>,
    time: Nanos,
    agent_id: AgentId,
    snapshots: Seq<MarketSnapshot>,
    actions: Seq<AgentAction>,
) -> Seq<Call> {
    past.push(Call::Woke { time, agent_id, snapshots, actions })
}

/// On every wakeup there is at most one thing that an agent may do.
pub open spec fn one_move(strategy: spec_fn(Seq<Call>) -> bool) -> bool {
    forall|
        past: Seq<Call>,
        time: Nanos,
        agent_id: AgentId,
        snapshots: Seq<MarketSnapshot>,
        a: Seq<AgentAction>,
        b: Seq<AgentAction>,
    |
        strategy(#[trigger] woken(past, time, agent_id, snapshots, a)) && strategy(
            #[trigger] woken(past, time, agent_id, snapshots, b),
        ) ==> a == b
}

/// There is at most one delay that messages of an agent can get.
pub open spec fn one_delay(may: spec_fn(AgentId, u64) -> bool) -> bool {
    forall|agent_id: AgentId, a: u64, b: u64| #[trigger]
        may(agent_id, a) && #[trigger] may(agent_id, b) ==> a == b
}

/// The cast leaves no choice: every agent keeps a record of its calls and has
/// one thing to do on each wakeup, and every delay is fixed.
pub open spec fn decisive(cast: Cast, agents: nat) -> bool {
    &&& cast.pasts.len() == agents
    &&& cast.strategies.len() == agents
    &&& forall|i: int|
        0 <= i < agents ==> (#[trigger] cast.pasts[i]) is Some && one_move(cast.strategies[i])
    &&& one_delay(cast.to_exchange)
    &&& one_delay(cast.to_agent)
}

/// Entries of an inbox have different sequence numbers, all below `seq`.
spec fn entries_apart(inbox: Multiset<InboxEntry>, seq: u64) -> bool {
    &&& forall|entry: InboxEntry| #[trigger] inbox.contains(entry) ==> entry.seq < seq
    &&& forall|a: InboxEntry, b: InboxEntry| #[trigger]
        inbox.contains(a) && #[trigger] inbox.contains(b) && a.seq == b.seq ==> a == b
}

/// The event is about one of the agents, and is no message to one.
spec fn about_agents(payload: EventPayload, agents: nat) -> bool {
    match payload {
        EventPayload::WakeUp { agent_id } => agent_id < agents,
        EventPayload::ExchangeResponse { .. } => false,
        _ => true,
    }
}

/// There is an inbox for each agent, its entries can be told apart, and events
/// are about agents.
spec fn tidy(k: KernelView, agents: nat) -> bool {
    &&& k.inboxes.len() == agents
    &&& forall|i: int| 0 <= i < agents ==> entries_apart(#[trigger] k.inboxes[i], k.seq)
    &&& forall|event: Event| #[trigger]
        k.queue.contains(event) ==> about_agents(event.payload, agents)
}

/// Entries that can be told apart have one order in which they are due.
proof fn lemma_due_order_unique(s: Seq<InboxEntry>, t: Seq<InboxEntry>)
    requires
        in_due_order(s),
        in_due_order(t),
        s.to_multiset() == t.to_multiset(),
        forall|a: InboxEntry, b: InboxEntry| #[trigger]
            s.to_multiset().contains(a) && #[trigger] s.to_multiset().contains(b) && a.seq == b.seq
                ==> a == b,
    ensures
        s == t,
    decreases s.len(),
{
    broadcast use vstd::seq_lib::group_to_multiset_ensures;
    broadcast use vstd::multiset::group_multiset_axioms;

    assert(s.to_multiset().len() == s.len() && t.to_multiset().len() == t.len());
    if s.len() == 0 {
        assert(s =~= t);
    } else {
        let n = s.len() - 1;
        let (x, y) = (s[n], t[n]);
        let all = s.to_multiset();
        assert(s.contains(x) && t.contains(y));
        assert(all.contains(x) && all.contains(y));
        assert(t.contains(x) && s.contains(y));
        let i = choose|i: int| 0 <= i < t.len() && t[i] == x;
        let j = choose|j: int| 0 <= j < s.len() && s[j] == y;
        assert(no_later(t[i], t[n]));
        assert(no_later(s[j], s[n]));
        assert(x == y);
        vstd::seq_lib::to_multiset_remove(s, n);
        vstd::seq_lib::to_multiset_remove(t, n);
        assert(s.remove(n) =~= s.drop_last());
        assert(t.remove(n) =~= t.drop_last());
        let less = s.drop_last().to_multiset();
        assert forall|a: InboxEntry, b: InboxEntry| #[trigger]
            less.contains(a) && #[trigger] less.contains(b) && a.seq == b.seq implies a == b by {
            assert(all.contains(a) && all.contains(b));
        }
        assert forall|a: int, b: int| 0 <= a <= b < n implies no_later(
            s.drop_last()[a],
            s.drop_last()[b],
        ) by {
            assert(no_later(s[a], s[b]));
        }
        assert forall|a: int, b: int| 0 <= a <= b < n implies no_later(
            t.drop_last()[a],
            t.drop_last()[b],
        ) by {
            assert(no_later(t[a], t[b]));
        }
        lemma_due_order_unique(s.drop_last(), t.drop_last());
        assert(s =~= s.drop_last().push(x));
        assert(t =~= t.drop_last().push(y));
    }
}

/// Scheduling an event about agents keeps a simulation tidy.
proof fn lemma_pushed_tidy(k: KernelView, agents: nat, time: Nanos, payload: EventPayload)
    requires
        tidy(k, agents),
        k.seq < u64::MAX,
        about_agents(payload, agents),
    ensures
        tidy(k.pushed(time, payload), agents),
{
    broadcast use vstd::multiset::group_multiset_axioms;

    let event = Event { delivery_time: time, seq: k.seq, payload };
    let p = k.pushed(time, payload);
    assert forall|e: Event| #[trigger] p.queue.contains(e) implies about_agents(
        e.payload,
        agents,
    ) by {
        assert(k.queue.contains(e) || e == event);
    }
    assert forall|i: int| 0 <= i < agents implies entries_apart(
        #[trigger] p.inboxes[i],
        p.seq,
    ) by {
        assert(entries_apart(k.inboxes[i], k.seq));
    }
}

/// Actions of an agent keep a simulation tidy.
proof fn lemma_routed_tidy(
    k: KernelView,
    agents: nat,
    agent_id: AgentId,
    actions: Seq<AgentAction>,
    delays: Seq<u64>,
    now: Nanos,
)
    requires
        tidy(k, agents),
        agent_id < agents,
        k.all_route_room(agent_id, actions, delays, now),
    ensures
        tidy(k.all_routed(agent_id, actions, delays, now), agents),
    decreases actions.len(),
{
    if actions.len() > 0 {
        let less = actions.drop_last();
        lemma_routed_tidy(k, agents, agent_id, less, delays, now);
        let before = k.all_routed(agent_id, less, delays, now);
        let delay = delays[actions.len() - 1];
        match actions.last() {
            AgentAction::SubmitOrder { symbol, order } => {
                lemma_pushed_tidy(
                    before,
                    agents,
                    (now + delay) as u64,
                    EventPayload::OrderArrival { agent_id, symbol, order },
                );
            },
            AgentAction::CancelOrder { symbol, order_id } => {
                lemma_pushed_tidy(
                    before,
                    agents,
                    (now + delay) as u64,
                    EventPayload::OrderArrival {
                        agent_id,
                        symbol,
                        order: OrderAction::CancelOrder { order_id },
                    },
                );
            },
            AgentAction::ScheduleWakeUp { delay_ns } => {
                if now + delay_ns <= before.end_time {
                    lemma_pushed_tidy(
                        before,
                        agents,
                        (now + delay_ns) as u64,
                        EventPayload::WakeUp { agent_id },
                    );
                }
            },
        }
    }
}

/// Messages on their way keep a simulation tidy.
proof fn lemma_scheduled_tidy(
    k: KernelView,
    agents: nat,
    messages: Seq<RoutedMessage>,
    delays: Seq<u64>,
    now: Nanos,
)
    requires
        tidy(k, agents),
        k.schedule_room(messages, delays, now),
    ensures
        tidy(k.scheduled(messages, delays, now), agents),
    decreases messages.len(),
{
    broadcast use vstd::multiset::group_multiset_axioms;

    if messages.len() > 0 {
        lemma_scheduled_tidy(k, agents, messages.drop_last(), delays, now);
        let before = k.scheduled(messages.drop_last(), delays, now);
        let after = k.scheduled(messages, delays, now);
        let sent = messages.last();
        let entry = InboxEntry {
            delivery_time: (now + delays[messages.len() - 1]) as u64,
            seq: before.seq,
            message: sent.message,
        };
        assert forall|i: int| 0 <= i < agents implies entries_apart(
            #[trigger] after.inboxes[i],
            after.seq,
        ) by {
            let (old_box, new_box) = (before.inboxes[i], after.inboxes[i]);
            assert(entries_apart(old_box, before.seq));
            assert forall|e: InboxEntry| #[trigger] new_box.contains(e) implies old_box.contains(e)
                || e == entry by {}
            assert forall|a: InboxEntry, b: InboxEntry| #[trigger]
                new_box.contains(a) && #[trigger] new_box.contains(b) && a.seq
                    == b.seq implies a == b by {
                assert(old_box.contains(a) || a == entry);
                assert(old_box.contains(b) || b == entry);
            }
        }
    }
}

/// What an exchange did keeps a simulation tidy.
proof fn lemma_exchange_did_tidy(
    k: KernelView,
    agents: nat,
    i: int,
    outcome: Outcome,
    delays: Seq<u64>,
    now: Nanos,
)
    requires
        tidy(k, agents),
        k.exchange_room(i, outcome, delays, now),
    ensures
        tidy(k.exchange_did(i, outcome, delays, now), agents),
{
    lemma_scheduled_tidy(
        KernelView { exchanges: k.exchanges.update(i, outcome.exchange), ..k },
        agents,
        outcome.messages,
        delays,
        now,
    );
}

/// Delivery keeps a simulation tidy.
proof fn lemma_delivered_tidy(
    k: KernelView,
    agents: nat,
    agent_id: AgentId,
    now: Nanos,
    seq: u64,
)
    requires
        tidy(k, agents),
        agent_id < agents,
    ensures
        tidy(k.delivered(agent_id, now, seq), agents),
{
    broadcast use vstd::multiset::group_multiset_axioms;

    let after = k.delivered(agent_id, now, seq);
    assert forall|i: int| 0 <= i < agents implies entries_apart(
        #[trigger] after.inboxes[i],
        after.seq,
    ) by {
        assert(entries_apart(k.inboxes[i], k.seq));
        assert forall|e: InboxEntry| #[trigger] after.inboxes[i].contains(
            e,
        ) implies k.inboxes[i].contains(e) by {}
    }
}

/// The next event keeps a simulation tidy.
proof fn lemma_stepped_tidy(k: KernelView, agents: nat, choices: Choices)
    requires
        tidy(k, agents),
        k.can_step(choices),
    ensures
        tidy(k.stepped(choices), agents),
{
    broadcast use vstd::multiset::group_multiset_axioms;

    lemma_first_exists(k.queue);
    let event = first(k.queue);
    assert(is_first(k.queue, event));
    assert(k.queue.contains(event));
    let now = event.delivery_time;
    let p = KernelView { queue: k.queue.remove(event), ..k };
    assert forall|e: Event| #[trigger] p.queue.contains(e) implies about_agents(
        e.payload,
        agents,
    ) by {
        assert(k.queue.contains(e));
    }
    assert forall|i: int| 0 <= i < agents implies entries_apart(#[trigger] p.inboxes[i], p.seq) by {
        assert(entries_apart(k.inboxes[i], k.seq));
    }
    assert(tidy(p, agents));
    match event.payload {
        EventPayload::WakeUp { agent_id } => {
            lemma_delivered_tidy(p, agents, agent_id, now, event.seq);
            lemma_routed_tidy(
                p.delivered(agent_id, now, event.seq),
                agents,
                agent_id,
                choices.actions,
                choices.delays,
                now,
            );
        },
        EventPayload::OrderArrival { agent_id, symbol, order } => {
            if let Some(i) = exchange_of(p.exchanges, symbol) {
                lemma_exchange_did_tidy(
                    p,
                    agents,
                    i,
                    p.exchanges[i].processed(agent_id, order, now),
                    choices.delays,
                    now,
                );
            }
        },
        EventPayload::ExchangeResponse { agent_id, response } => {},
        EventPayload::MarketOpen { symbol } => {
            if let Some(i) = exchange_of(p.exchanges, symbol) {
                let opened = p.exchanges.update(i, p.exchanges[i].opened(now));
                assert(k.stepped(choices).inboxes == p.inboxes);
            }
        },
        EventPayload::MarketClose { symbol } => {
            if let Some(i) = exchange_of(p.exchanges, symbol) {
                lemma_exchange_did_tidy(
                    p,
                    agents,
                    i,
                    p.exchanges[i].closed(now),
                    choices.delays,
                    now,
                );
            }
        },
    }
}

/// A simulation starts tidy.
proof fn lemma_all_pushed_tidy(k: KernelView, agents: nat, events: Seq<(Nanos, EventPayload)>)
    requires
        tidy(k, agents),
        k.seq + events.len() <= u64::MAX,
        forall|i: int| 0 <= i < events.len() ==> about_agents((#[trigger] events[i]).1, agents),
    ensures
        tidy(k.all_pushed(events), agents),
        k.all_pushed(events).seq == k.seq + events.len(),
    decreases events.len(),
{
    if events.len() > 0 {
        let less = events.drop_last();
        assert forall|i: int| 0 <= i < less.len() implies about_agents(
            (#[trigger] less[i]).1,
            agents,
        ) by {
            assert(less[i] == events[i]);
        }
        lemma_all_pushed_tidy(k, agents, less);
        assert(about_agents(events[events.len() - 1].1, agents));
        lemma_pushed_tidy(k.all_pushed(less), agents, events.last().0, events.last().1);
    }
}

/// A run starts tidy.
proof fn lemma_started_tidy(setup: Setup)
    requires
        setup.start_room(),
        setup.agents <= usize::MAX,
    ensures
        tidy(setup.started(), setup.agents),
{
    broadcast use vstd::multiset::group_multiset_axioms;

    let k = setup.prepared_kernel();
    let events = setup.first_events();
    assert forall|i: int| 0 <= i < events.len() implies about_agents(
        (#[trigger] events[i]).1,
        setup.agents,
    ) by {}
    lemma_all_pushed_tidy(k, setup.agents, events);
}

/// Delays of actions that agree where they matter route alike.
proof fn lemma_routed_alike(
    k: KernelView,
    agent_id: AgentId,
    actions: Seq<AgentAction>,
    a: Seq<u64>,
    b: Seq<u64>,
    now: Nanos,
)
    requires
        forall|j: int|
            #![trigger actions[j]]
            0 <= j < actions.len() && !(actions[j] is ScheduleWakeUp) ==> a[j] == b[j],
    ensures
        k.all_routed(agent_id, actions, a, now) == k.all_routed(agent_id, actions, b, now),
        k.all_route_room(agent_id, actions, a, now) == k.all_route_room(agent_id, actions, b, now),
    decreases actions.len(),
{
    if actions.len() > 0 {
        let less = actions.drop_last();
        assert forall|j: int|
            #![trigger less[j]]
            0 <= j < less.len() && !(less[j] is ScheduleWakeUp) implies a[j] == b[j] by {
            assert(less[j] == actions[j]);
        }
        lemma_routed_alike(k, agent_id, less, a, b, now);
        assert(actions[actions.len() - 1] == actions.last());
    }
}

/// A decisive cast gives messages one sequence of delays.
proof fn lemma_delays_alike(cast: Cast, messages: Seq<RoutedMessage>, a: Seq<u64>, b: Seq<u64>)
    requires
        one_delay(cast.to_agent),
        cast.may_delay_messages(messages, a),
        cast.may_delay_messages(messages, b),
        a.len() == messages.len(),
        b.len() == messages.len(),
    ensures
        a == b,
{
    assert forall|j: int| 0 <= j < a.len() implies a[j] == b[j] by {
        assert((cast.to_agent)(messages[j].agent_id, a[j]));
        assert((cast.to_agent)(messages[j].agent_id, b[j]));
    }
    assert(a =~= b);
}

/// A decisive cast decides a wakeup in one way.
proof fn lemma_one_wakeup(
    k: KernelView,
    cast: Cast,
    agents: nat,
    agent_id: AgentId,
    now: Nanos,
    seq: u64,
    a: Choices,
    b: Choices,
)
    requires
        tidy(k, agents),
        decisive(cast, agents),
        agent_id < agents,
        k.decided_by(cast, EventPayload::WakeUp { agent_id }, now, seq, a),
        k.decided_by(cast, EventPayload::WakeUp { agent_id }, now, seq, b),
    ensures
        a.heard == b.heard,
        a.actions == b.actions,
        k.delivered(agent_id, now, seq).all_routed(agent_id, a.actions, a.delays, now)
            == k.delivered(agent_id, now, seq).all_routed(agent_id, b.actions, b.delays, now),
        k.delivered(agent_id, now, seq).all_route_room(agent_id, a.actions, a.delays, now)
            == k.delivered(agent_id, now, seq).all_route_room(agent_id, b.actions, b.delays, now),
{
    broadcast use vstd::multiset::group_multiset_axioms;

    let at = agent_id as int;
    let due = k.due(agent_id, now, seq);
    assert(entries_apart(k.inboxes[at], k.seq));
    assert forall|x: InboxEntry, y: InboxEntry| #[trigger]
        due.contains(x) && #[trigger] due.contains(y) && x.seq == y.seq implies x == y by {
        assert(k.inboxes[at].contains(x) && k.inboxes[at].contains(y));
    }
    lemma_due_order_unique(a.heard, b.heard);
    let past = cast.pasts[at]->0;
    let heard = past + heard_calls(agent_id, a.heard);
    let snapshots = market_snapshots(k.exchanges);
    assert(past + wake_calls(k.exchanges, agent_id, now, a) =~= woken(
        heard,
        now,
        agent_id,
        snapshots,
        a.actions,
    ));
    assert(past + wake_calls(k.exchanges, agent_id, now, b) =~= woken(
        heard,
        now,
        agent_id,
        snapshots,
        b.actions,
    ));
    assert(cast.pasts[at] is Some && one_move(cast.strategies[at]));
    assert(a.actions == b.actions);
    assert forall|j: int|
        #![trigger a.actions[j]]
        0 <= j < a.actions.len() && !(a.actions[j] is ScheduleWakeUp) implies a.delays[j]
        == b.delays[j] by {
        assert((cast.to_exchange)(agent_id, a.delays[j]));
        assert((cast.to_exchange)(agent_id, b.delays[j]));
    }
    lemma_routed_alike(
        k.delivered(agent_id, now, seq),
        agent_id,
        a.actions,
        a.delays,
        b.delays,
        now,
    );
}

/// A decisive cast decides the next event in one way.
proof fn lemma_one_step(k: KernelView, cast: Cast, agents: nat, a: Choices, b: Choices)
    requires
        tidy(k, agents),
        decisive(cast, agents),
        k.queue.len() > 0,
        k.next_decided_by(cast, a),
        k.next_decided_by(cast, b),
    ensures
        k.stepped(a) == k.stepped(b),
        k.can_step(a) == k.can_step(b),
        k.next_cast(cast, a) == k.next_cast(cast, b),
        decisive(k.next_cast(cast, b), agents),
{
    broadcast use vstd::multiset::group_multiset_axioms;

    lemma_first_exists(k.queue);
    let event = first(k.queue);
    assert(is_first(k.queue, event));
    assert(k.queue.contains(event));
    let now = event.delivery_time;
    let p = KernelView { queue: k.queue.remove(event), ..k };
    assert(p == k.popped());
    let then = k.next_cast(cast, b);
    match event.payload {
        EventPayload::WakeUp { agent_id } => {
            assert forall|e: Event| #[trigger] p.queue.contains(e) implies about_agents(
                e.payload,
                agents,
            ) by {
                assert(k.queue.contains(e));
            }
            assert forall|i: int| 0 <= i < agents implies entries_apart(
                #[trigger] p.inboxes[i],
                p.seq,
            ) by {
                assert(entries_apart(k.inboxes[i], k.seq));
            }
            lemma_one_wakeup(p, cast, agents, agent_id, now, event.seq, a, b);
            assert(wake_calls(k.exchanges, agent_id, now, a) == wake_calls(
                k.exchanges,
                agent_id,
                now,
                b,
            ));
            assert forall|i: int| 0 <= i < agents implies (#[trigger] then.pasts[i]) is Some
                && one_move(then.strategies[i]) by {
                assert(cast.pasts[i] is Some && one_move(cast.strategies[i]));
            }
        },
        EventPayload::OrderArrival { agent_id, symbol, order } => {
            if let Some(i) = exchange_of(p.exchanges, symbol) {
                let messages = p.exchanges[i].processed(agent_id, order, now).messages;
                lemma_delays_alike(cast, messages, a.delays, b.delays);
            }
        },
        EventPayload::ExchangeResponse { agent_id, response } => {},
        EventPayload::MarketOpen { symbol } => {},
        EventPayload::MarketClose { symbol } => {
            if let Some(i) = exchange_of(p.exchanges, symbol) {
                let messages = p.exchanges[i].closed(now).messages;
                lemma_delays_alike(cast, messages, a.delays, b.delays);
            }
        },
    }
}

/// A cast decides alike in simulations that are alike but for their output.
proof fn lemma_decided_alike(a: KernelView, b: KernelView, cast: Cast, choices: Choices)
    requires
        same_run(a, b),
    ensures
        a.next_decided_by(cast, choices) == b.next_decided_by(cast, choices),
        a.next_cast(cast, choices) == b.next_cast(cast, choices),
{
    let event = first(a.queue);
    let now = event.delivery_time;
    let (pa, pb) = (a.popped(), b.popped());
    assert(market_snapshots(a.exchanges) =~= market_snapshots(b.exchanges)) by {
        assert forall|i: int| 0 <= i < a.exchanges.len() implies a.exchanges[i].snapshot()
            == b.exchanges[i].snapshot() by {
            assert(same_output(a.exchanges[i], b.exchanges[i]));
        }
    }
    match event.payload {
        EventPayload::WakeUp { agent_id } => {
            assert(pa.due(agent_id, now, event.seq) == pb.due(agent_id, now, event.seq));
        },
        EventPayload::OrderArrival { agent_id, symbol, order } => {
            lemma_same_exchange(a, b, symbol);
            if let Some(i) = exchange_of(a.exchanges, symbol) {
                assert(same_output(a.exchanges[i], b.exchanges[i]));
                law_output_options_change_no_trading(
                    a.exchanges[i],
                    b.exchanges[i],
                    agent_id,
                    order,
                    now,
                );
            }
        },
        EventPayload::ExchangeResponse { agent_id, response } => {},
        EventPayload::MarketOpen { symbol } => {},
        EventPayload::MarketClose { symbol } => {
            lemma_same_exchange(a, b, symbol);
            if let Some(i) = exchange_of(a.exchanges, symbol) {
                assert(same_output(a.exchanges[i], b.exchanges[i]));
                law_output_options_change_no_trading(
                    a.exchanges[i],
                    b.exchanges[i],
                    0,
                    OrderAction::CancelOrder { order_id: 0 },
                    now,
                );
            }
        },
    }
}

/// The first events are decided by the cast if all are.
proof fn lemma_follows_prefix(k: KernelView, cast: Cast, trace: Seq<Choices>, count: int)
    requires
        k.follows(cast, trace),
        0 <= count <= trace.len(),
    ensures
        k.follows(cast, trace.take(count)),
    decreases trace.len(),
{
    if count < trace.len() {
        lemma_follows_prefix(k, cast, trace.drop_last(), count);
        assert(trace.drop_last().take(count) =~= trace.take(count));
    } else {
        assert(trace.take(count) =~= trace);
    }
}

/// Two simulations that are alike but for their output, under one decisive
/// cast, stay alike, whatever the traces; and the trace of the one is a trace
/// of the other.
proof fn lemma_in_step(
    sa: KernelView,
    sb: KernelView,
    cast: Cast,
    agents: nat,
    ta: Seq<Choices>,
    tb: Seq<Choices>,
    n: int,
)
    requires
        same_run(sa, sb),
        tidy(sb, agents),
        decisive(cast, agents),
        sa.runs(ta),
        sa.follows(cast, ta),
        sb.runs(tb),
        sb.follows(cast, tb),
        0 <= n <= ta.len(),
        n <= tb.len(),
    ensures
        ({
            let (pa, pb) = (ta.take(n), tb.take(n));
            &&& same_run(sa.after(pa), sb.after(pb))
            &&& sb.after(pa) == sb.after(pb)
            &&& sb.runs(pa)
            &&& sb.follows(cast, pa)
            &&& sb.last_time(pa) == sb.last_time(pb)
            &&& sa.cast_after(cast, pa) == sb.cast_after(cast, pb)
            &&& sb.cast_after(cast, pa) == sb.cast_after(cast, pb)
            &&& decisive(sb.cast_after(cast, pb), agents)
            &&& tidy(sb.after(pb), agents)
        }),
    decreases n,
{
    let (pa, pb) = (ta.take(n), tb.take(n));
    if n > 0 {
        lemma_in_step(sa, sb, cast, agents, ta, tb, n - 1);
        let (la, lb) = (ta.take(n - 1), tb.take(n - 1));
        assert(pa.drop_last() =~= la);
        assert(pb.drop_last() =~= lb);
        lemma_runs_prefix(sa, ta, n);
        lemma_runs_prefix(sb, tb, n);
        lemma_follows_prefix(sa, cast, ta, n);
        lemma_follows_prefix(sb, cast, tb, n);
        let (ka, kb) = (sa.after(la), sb.after(lb));
        let players = sb.cast_after(cast, lb);
        let (ca, cb) = (pa.last(), pb.last());
        lemma_decided_alike(ka, kb, players, ca);
        lemma_one_step(kb, players, agents, ca, cb);
        lemma_stepped_same(ka, kb, ca);
        lemma_stepped_tidy(kb, agents, cb);
    }
}

/// A run goes no further than a state in which another is over.
proof fn lemma_over_is_the_end(over: KernelView, k: KernelView, trace: Seq<Choices>, n: int)
    requires
        over.is_over(),
        k.runs(trace),
        0 <= n <= trace.len(),
        k.after(trace.take(n)).queue == over.queue,
        k.after(trace.take(n)).end_time == over.end_time,
    ensures
        n == trace.len(),
{
    if n < trace.len() {
        lemma_runs_prefix(k, trace, n + 1);
        assert(trace.take(n + 1).drop_last() =~= trace.take(n));
        assert(k.after(trace.take(n)).can_step(trace.take(n + 1).last()));
    }
}

/// Two runs of one decisive cast are one run, alike but for their output: the
/// trace of the one is a trace of the other.
proof fn lemma_one_run(
    full: Setup,
    lean: Setup,
    cast: Cast,
    ta: Seq<Choices>,
    tb: Seq<Choices>,
    a: SimulationResult,
    b: SimulationResult,
)
    requires
        lean == (Setup {
            keep_trades: lean.keep_trades,
            l1_bucket_ns: lean.l1_bucket_ns,
            ..full
        }),
        full.agents <= usize::MAX,
        decisive(cast, full.agents),
        ran(full, cast, ta, a),
        ran(lean, cast, tb, b),
    ensures
        ta.len() == tb.len(),
        ran(lean, cast, ta, b),
{
    let (sa, sb) = (full.started(), lean.started());
    lemma_started_same(full, lean);
    lemma_started_tidy(lean);
    let n = if ta.len() <= tb.len() {
        ta.len() as int
    } else {
        tb.len() as int
    };
    lemma_in_step(sa, sb, cast, full.agents, ta, tb, n);
    let (ka, kb) = (sa.after(ta.take(n)), sb.after(tb.take(n)));
    assert(ka.queue == kb.queue && ka.end_time == kb.end_time);
    if n == ta.len() {
        assert(ta.take(n) =~= ta);
        lemma_over_is_the_end(ka, sb, tb, n);
    } else {
        assert(tb.take(n) =~= tb);
        lemma_over_is_the_end(kb, sa, ta, n);
    }
    assert(tb.take(n) =~= tb);
}

/// Agents and delays that leave no choice give one result: two runs of the
/// same set-up report the same.
pub proof fn law_a_decisive_cast_gives_one_result(
    setup: Setup,
    cast: Cast,
    ta: Seq<Choices>,
    tb: Seq<Choices>,
    a: SimulationResult,
    b: SimulationResult,
)
    requires
        setup.agents <= usize::MAX,
        decisive(cast, setup.agents),
        ran(setup, cast, ta, a),
        ran(setup, cast, tb, b),
    ensures
        ta.len() == tb.len(),
        a.trades@ == b.trades@,
        a.l1_snapshots@ == b.l1_snapshots@,
        a.l1_buckets@ == b.l1_buckets@,
        a.flow_buckets@.map_values(|bucket: FlowBucket| bucket@) == b.flow_buckets@.map_values(
            |bucket: FlowBucket| bucket@,
        ),
        a.flow_totals@ == b.flow_totals@,
        a.events_processed == b.events_processed,
        a.end_time == b.end_time,
{
    lemma_one_run(setup, setup, cast, ta, tb, a, b);
    law_a_run_is_determined_by_its_decisions(setup, cast, ta, a, b);
}

/// Agents and delays that leave no choice trade alike whatever the output: of
/// a full run and a lean one, the lean run has the trades of the full one or
/// none, its snapshots or the buckets that its logs fold into, and otherwise
/// the same report.
pub proof fn law_a_decisive_cast_trades_alike_whatever_the_output(
    full: Setup,
    lean: Setup,
    cast: Cast,
    ta: Seq<Choices>,
    tb: Seq<Choices>,
    a: SimulationResult,
    b: SimulationResult,
)
    requires
        lean == (Setup {
            keep_trades: lean.keep_trades,
            l1_bucket_ns: lean.l1_bucket_ns,
            ..full
        }),
        full.keep_trades,
        full.l1_bucket_ns is None,
        full.agents <= usize::MAX,
        decisive(cast, full.agents),
        ran(full, cast, ta, a),
        ran(lean, cast, tb, b),
    ensures
        b.events_processed == a.events_processed,
        b.end_time == a.end_time,
        b.flow_totals@ == a.flow_totals@,
        b.flow_buckets@.map_values(|bucket: FlowBucket| bucket@) == a.flow_buckets@.map_values(
            |bucket: FlowBucket| bucket@,
        ),
        b.trades@ == if lean.keep_trades {
            a.trades@
        } else {
            Seq::<TradeRecord>::empty()
        },
        match lean.l1_bucket_ns {
            None => {
                &&& b.l1_snapshots@ == a.l1_snapshots@
                &&& b.l1_buckets@ == Seq::<L1Bucket>::empty()
            },
            Some(width) => {
                let logs = full.started().after(ta).exchanges.map_values(
                    |exchange: ExchangeView| exchange.l1_snapshots,
                );
                &&& b.l1_snapshots@ == Seq::<L1Snapshot>::empty()
                &&& a.l1_snapshots@ == merged(logs)
                &&& b.l1_buckets@ == merged(
                    logs.map_values(|log: Seq<L1Snapshot>| buckets_of(log, width)),
                )
            },
        },
{
    lemma_one_run(full, lean, cast, ta, tb, a, b);
    law_output_options_change_no_run(full, lean, cast, ta, a, b);
    law_lean_output_is_folded_from_the_full_log(full, lean, cast, ta, a, b);
}

/// Fixed delays leave no choice.
pub proof fn law_fixed_delays_leave_no_choice(bases: Seq<u64>)
    ensures
        one_delay(fixed_delays(bases)),
{
}

/// A trend agent whose samplers have one value to draw has one thing to do on
/// each wakeup.
pub proof fn law_a_trend_agent_with_fixed_draws_has_one_move(traits: TrendTraits)
    requires
        forall|mid: i64, side: Side, a: i64, b: i64| #[trigger]
            (traits.prices)(mid, side, a) && #[trigger] (traits.prices)(mid, side, b) ==> a == b,
        forall|short: MovingAverage, long: MovingAverage, a: u64, b: u64| #[trigger]
            (traits.sizes)(short, long, a) && #[trigger] (traits.sizes)(short, long, b) ==> a == b,
        forall|a: u64, b: u64| #[trigger]
            (traits.delays)(a) && #[trigger] (traits.delays)(b) ==> a == b,
    ensures
        one_move(trend_strategy(traits)),
{
    let strategy = trend_strategy(traits);
    assert forall|
        past: Seq<Call>,
        time: Nanos,
        agent_id: AgentId,
        snapshots: Seq<MarketSnapshot>,
        a: Seq<AgentAction>,
        b: Seq<AgentAction>,
    |
        strategy(#[trigger] woken(past, time, agent_id, snapshots, a)) && strategy(
            #[trigger] woken(past, time, agent_id, snapshots, b),
        ) implies a == b by {
        let (wa, wb) = (
            woken(past, time, agent_id, snapshots, a),
            woken(past, time, agent_id, snapshots, b),
        );
        assert(wa.drop_last() =~= past);
        assert(wb.drop_last() =~= past);
        assert(traits.may_end(wa) && traits.may_end(wb));
        assert(trend_candles(traits.cfg, wa) == trend_candles(traits.cfg, wb));
    }
}

} // verus!
