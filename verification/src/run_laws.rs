//! What a run does with its events and messages, told from times, sequence
//! numbers and places alone.

use crate::agent::{AgentAction, Call};
use crate::book_model::best_level;
use crate::event::{Event, EventPayload, OrderAction, RoutedMessage};
use crate::exchange_model::ExchangeView;
use crate::inbox::{in_due_order, no_later};
use crate::kernel::{ran, SimulationResult};
use crate::kernel_laws::lemma_first_exists;
use crate::kernel_lemmas::{lemma_serves_none, lemma_serves_unique};
use crate::kernel_model::{
    due_before, due_by, due_in_all, first, flow_rows, flow_totals, happened_at, heard_by_the_end,
    is_first, on_its_way, pends_at, serves, wake_calls, Cast, Choices, InboxEntry, KernelView,
    Setup,
};
use crate::merge::{
    ahead_of, law_merge_is_a_stable_sort, merge_order, merged, precedes, time_ordered, unread,
    Place,
};
use crate::order::{RestingOrder, Side};
use crate::records::TradeRecord;
use crate::types::{AgentId, MarketSnapshot, Nanos, Symbol};
use vstd::multiset::Multiset;
use vstd::prelude::*;

verus! {

/// One moment comes before another: at an earlier time, or at the same time
/// with a smaller sequence number.
pub open spec fn sooner(time: Nanos, seq: u64, other_time: Nanos, other_seq: u64) -> bool {
    time < other_time || (time == other_time && seq < other_seq)
}

/// The event that comes next is one of the queue, and none of the queue is
/// sooner.
pub proof fn law_the_soonest_event_comes_next(queue: Multiset<Event>)
    requires
        queue.len() > 0,
    ensures
        ({
            let next = first(queue);
            &&& queue.contains(next)
            &&& forall|other: Event| #[trigger]
                queue.contains(other) ==> !sooner(
                    other.delivery_time,
                    other.seq,
                    next.delivery_time,
                    next.seq,
                )
        }),
{
    lemma_first_exists(queue);
    assert(is_first(queue, first(queue)));
}

/// An event is put into the queue under the next sequence number.
pub open spec fn put(k: KernelView, time: int, payload: EventPayload) -> KernelView {
    KernelView {
        queue: k.queue.insert(Event { delivery_time: time as u64, seq: k.seq, payload }),
        seq: (k.seq + 1) as u64,
        ..k
    }
}

/// An order or a cancel reaches the exchange of its symbol when its delay has
/// passed. A wakeup comes when the agent asked for it, if that is not past the
/// end, and is dropped else.
pub proof fn law_actions_arrive_when_they_are_due(
    k: KernelView,
    agent_id: AgentId,
    symbol: Symbol,
    order: OrderAction,
    order_id: u64,
    delay_ns: u64,
    now: Nanos,
    delay: u64,
)
    ensures
        k.routed(agent_id, AgentAction::SubmitOrder { symbol, order }, now, delay) == put(
            k,
            now + delay,
            EventPayload::OrderArrival { agent_id, symbol, order },
        ),
        k.routed(agent_id, AgentAction::CancelOrder { symbol, order_id }, now, delay) == put(
            k,
            now + delay,
            EventPayload::OrderArrival {
                agent_id,
                symbol,
                order: OrderAction::CancelOrder { order_id },
            },
        ),
        now + delay_ns <= k.end_time ==> k.routed(
            agent_id,
            AgentAction::ScheduleWakeUp { delay_ns },
            now,
            delay,
        ) == put(k, now + delay_ns, EventPayload::WakeUp { agent_id }),
        now + delay_ns > k.end_time ==> k.routed(
            agent_id,
            AgentAction::ScheduleWakeUp { delay_ns },
            now,
            delay,
        ) == k,
        k.push_room() <==> k.seq < u64::MAX && k.queue.len() <= 0xffff_ffff,
{
}

/// The actions of a wakeup take their ways in turn, each with its own delay.
pub proof fn law_actions_take_their_ways_in_turn(
    k: KernelView,
    agent_id: AgentId,
    actions: Seq<AgentAction>,
    delays: Seq<u64>,
    action: AgentAction,
    delay: u64,
    now: Nanos,
)
    requires
        actions.len() == delays.len(),
    ensures
        actions.len() == 0 ==> k.all_routed(agent_id, actions, delays, now) == k,
        k.all_routed(agent_id, actions.push(action), delays.push(delay), now) == k.all_routed(
            agent_id,
            actions,
            delays,
            now,
        ).routed(agent_id, action, now, delay),
{
    assert(actions.push(action).drop_last() =~= actions);
    lemma_routed_prefix(k, agent_id, actions, delays, delay, now);
}

proof fn lemma_routed_prefix(
    k: KernelView,
    agent_id: AgentId,
    actions: Seq<AgentAction>,
    delays: Seq<u64>,
    delay: u64,
    now: Nanos,
)
    requires
        actions.len() <= delays.len(),
    ensures
        k.all_routed(agent_id, actions, delays.push(delay), now) == k.all_routed(
            agent_id,
            actions,
            delays,
            now,
        ),
    decreases actions.len(),
{
    if actions.len() > 0 {
        lemma_routed_prefix(k, agent_id, actions.drop_last(), delays, delay, now);
    }
}

/// Of the first `count` messages those to an agent, as they are on their way:
/// each due when its delay has passed, numbered in the order of the messages.
pub open spec fn sent_to(
    agent: int,
    messages: Seq<RoutedMessage>,
    delays: Seq<u64>,
    now: Nanos,
    seq: u64,
    count: nat,
) -> Multiset<InboxEntry>
    decreases count,
{
    if count == 0 {
        Multiset::empty()
    } else {
        let before = sent_to(agent, messages, delays, now, seq, (count - 1) as nat);
        if messages[count - 1].agent_id == agent {
            before.insert(
                InboxEntry {
                    delivery_time: (now + delays[count - 1]) as u64,
                    seq: (seq + count - 1) as u64,
                    message: messages[count - 1].message,
                },
            )
        } else {
            before
        }
    }
}

/// Every message that an exchange sends is on its way to its own agent, and to
/// no other, due when its delay has passed. Messages are numbered in the order
/// in which they are sent, and no event changes.
pub proof fn law_messages_are_on_their_way(
    k: KernelView,
    messages: Seq<RoutedMessage>,
    delays: Seq<u64>,
    now: Nanos,
)
    requires
        k.schedule_room(messages, delays, now),
    ensures
        ({
            let after = k.scheduled(messages, delays, now);
            &&& after.seq == k.seq + messages.len()
            &&& after.inboxes.len() == k.inboxes.len()
            &&& forall|agent: int|
                0 <= agent < k.inboxes.len() ==> #[trigger] after.inboxes[agent]
                    == k.inboxes[agent].add(
                    sent_to(agent, messages, delays, now, k.seq, messages.len()),
                )
            &&& after == KernelView { seq: after.seq, inboxes: after.inboxes, ..k }
        }),
    decreases messages.len(),
{
    broadcast use vstd::multiset::group_multiset_axioms;

    let after = k.scheduled(messages, delays, now);
    if messages.len() == 0 {
        assert forall|agent: int| 0 <= agent < k.inboxes.len() implies #[trigger]
            after.inboxes[agent] == k.inboxes[agent].add(
            sent_to(agent, messages, delays, now, k.seq, messages.len()),
        ) by {
            assert(after.inboxes[agent] =~= k.inboxes[agent].add(Multiset::empty()));
        }
    } else {
        let less = messages.drop_last();
        let n = less.len();
        law_messages_are_on_their_way(k, less, delays, now);
        let before = k.scheduled(less, delays, now);
        assert forall|agent: int| 0 <= agent < k.inboxes.len() implies #[trigger]
            after.inboxes[agent] == k.inboxes[agent].add(
            sent_to(agent, messages, delays, now, k.seq, messages.len()),
        ) by {
            lemma_sent_prefix(agent, messages, delays, now, k.seq, n);
            assert(before.inboxes[agent] == k.inboxes[agent].add(
                sent_to(agent, less, delays, now, k.seq, n),
            ));
            assert(after.inboxes[agent] =~= k.inboxes[agent].add(
                sent_to(agent, messages, delays, now, k.seq, messages.len()),
            ));
        }
    }
}

proof fn lemma_sent_prefix(
    agent: int,
    messages: Seq<RoutedMessage>,
    delays: Seq<u64>,
    now: Nanos,
    seq: u64,
    count: nat,
)
    requires
        count < messages.len(),
    ensures
        sent_to(agent, messages.drop_last(), delays, now, seq, count) == sent_to(
            agent,
            messages,
            delays,
            now,
            seq,
            count,
        ),
    decreases count,
{
    if count > 0 {
        lemma_sent_prefix(agent, messages, delays, now, seq, (count - 1) as nat);
    }
}

/// An event of a symbol happens at the first exchange that has the symbol, and
/// at no other: an order is processed there, a market opens or closes there.
/// What the exchange says is sent.
pub proof fn law_events_happen_at_the_exchange_of_their_symbol(
    k: KernelView,
    symbol: Symbol,
    i: int,
    agent_id: AgentId,
    order: OrderAction,
    now: Nanos,
    seq: u64,
    choices: Choices,
)
    requires
        0 <= i < k.exchanges.len(),
        k.exchanges[i].symbol == symbol,
        forall|j: int| 0 <= j < i ==> (#[trigger] k.exchanges[j]).symbol != symbol,
    ensures
        ({
            let did = k.exchanges[i].processed(agent_id, order, now);
            k.dispatched(
                EventPayload::OrderArrival { agent_id, symbol, order },
                now,
                seq,
                choices,
            ) == (KernelView { exchanges: k.exchanges.update(i, did.exchange), ..k }).scheduled(
                did.messages,
                choices.delays,
                now,
            )
        }),
        k.dispatched(EventPayload::MarketOpen { symbol }, now, seq, choices) == (KernelView {
            exchanges: k.exchanges.update(i, k.exchanges[i].opened(now)),
            ..k
        }),
        ({
            let did = k.exchanges[i].closed(now);
            k.dispatched(EventPayload::MarketClose { symbol }, now, seq, choices) == (KernelView {
                exchanges: k.exchanges.update(i, did.exchange),
                ..k
            }).scheduled(did.messages, choices.delays, now)
        }),
{
    assert(serves(k.exchanges, symbol, i));
    lemma_serves_unique(k.exchanges, symbol, i);
}

/// Nothing happens to the events of a symbol that no exchange has.
pub proof fn law_unknown_symbols_are_ignored(
    k: KernelView,
    symbol: Symbol,
    agent_id: AgentId,
    order: OrderAction,
    now: Nanos,
    seq: u64,
    choices: Choices,
)
    requires
        forall|j: int| 0 <= j < k.exchanges.len() ==> (#[trigger] k.exchanges[j]).symbol != symbol,
    ensures
        k.dispatched(EventPayload::OrderArrival { agent_id, symbol, order }, now, seq, choices)
            == k,
        k.dispatched(EventPayload::MarketOpen { symbol }, now, seq, choices) == k,
        k.dispatched(EventPayload::MarketClose { symbol }, now, seq, choices) == k,
{
    lemma_serves_none(k.exchanges, symbol);
}

/// An agent that wakes has heard the messages that are sooner than its wakeup,
/// the sooner ones first, and no others; they are counted. Messages at the end
/// are heard up to and including the end.
pub proof fn law_messages_are_heard_when_they_are_due(
    k: KernelView,
    cast: Cast,
    agent_id: AgentId,
    now: Nanos,
    seq: u64,
    choices: Choices,
    heard: Seq<Seq<InboxEntry>>,
    agent: int,
)
    requires
        (agent_id as int) < k.inboxes.len(),
        k.decided_by(cast, EventPayload::WakeUp { agent_id }, now, seq, choices),
        k.deliver_room(agent_id, now, seq),
        heard_by_the_end(k.inboxes, k.end_time, heard),
        0 <= agent < k.inboxes.len(),
    ensures
        forall|entry: InboxEntry| #[trigger]
            choices.heard.contains(entry) <==> k.inboxes[agent_id as int].contains(entry)
                && sooner(entry.delivery_time, entry.seq, now, seq),
        forall|i: int, j: int|
            0 <= i < j < choices.heard.len() ==> !sooner(
                (#[trigger] choices.heard[j]).delivery_time,
                choices.heard[j].seq,
                (#[trigger] choices.heard[i]).delivery_time,
                choices.heard[i].seq,
            ),
        k.dispatched(EventPayload::WakeUp { agent_id }, now, seq, choices).applied_messages
            == k.applied_messages + choices.heard.len(),
        forall|entry: InboxEntry| #[trigger]
            heard[agent].contains(entry) <==> k.inboxes[agent].contains(entry)
                && entry.delivery_time <= k.end_time,
        forall|i: int, j: int|
            0 <= i < j < heard[agent].len() ==> !sooner(
                (#[trigger] heard[agent][j]).delivery_time,
                heard[agent][j].seq,
                (#[trigger] heard[agent][i]).delivery_time,
                heard[agent][i].seq,
            ),
{
    broadcast use vstd::multiset::group_multiset_axioms;

    let told = k.delivered(agent_id, now, seq);
    lemma_routed_counts(told, agent_id, choices.actions, choices.delays, now);
    choices.heard.to_multiset_ensures();
    heard[agent].to_multiset_ensures();
    let due = k.due(agent_id, now, seq);
    assert forall|entry: InboxEntry| #[trigger]
        choices.heard.contains(entry) <==> k.inboxes[agent_id as int].contains(entry) && sooner(
            entry.delivery_time,
            entry.seq,
            now,
            seq,
        ) by {
        assert(choices.heard.to_multiset().contains(entry) <==> due.contains(entry));
        assert(due_before(entry, now, seq) <==> sooner(
            entry.delivery_time,
            entry.seq,
            now,
            seq,
        ));
    }
    let by_the_end = k.inboxes[agent].filter(|entry: InboxEntry| due_by(entry, k.end_time));
    assert forall|entry: InboxEntry| #[trigger]
        heard[agent].contains(entry) <==> k.inboxes[agent].contains(entry) && entry.delivery_time
            <= k.end_time by {
        assert(heard[agent].to_multiset().contains(entry) <==> by_the_end.contains(entry));
    }
    lemma_none_sooner(choices.heard);
    lemma_none_sooner(heard[agent]);
}

proof fn lemma_none_sooner(entries: Seq<InboxEntry>)
    requires
        in_due_order(entries),
    ensures
        forall|i: int, j: int|
            0 <= i < j < entries.len() ==> !sooner(
                (#[trigger] entries[j]).delivery_time,
                entries[j].seq,
                (#[trigger] entries[i]).delivery_time,
                entries[i].seq,
            ),
{
    assert forall|i: int, j: int| 0 <= i < j < entries.len() implies !sooner(
        (#[trigger] entries[j]).delivery_time,
        entries[j].seq,
        (#[trigger] entries[i]).delivery_time,
        entries[i].seq,
    ) by {
        assert(no_later(entries[i], entries[j]));
    }
}

proof fn lemma_routed_counts(
    k: KernelView,
    agent_id: AgentId,
    actions: Seq<AgentAction>,
    delays: Seq<u64>,
    now: Nanos,
)
    ensures
        k.all_routed(agent_id, actions, delays, now).applied_messages == k.applied_messages,
        k.all_routed(agent_id, actions, delays, now).end_time == k.end_time,
    decreases actions.len(),
{
    if actions.len() > 0 {
        lemma_routed_counts(k, agent_id, actions.drop_last(), delays, now);
    }
}

/// An agent that wakes has been told each message at the time at which it was
/// due, and sees then the top of every book and the last trades.
pub proof fn law_an_agent_sees_every_market(
    exchanges: Seq<ExchangeView>,
    agent_id: AgentId,
    now: Nanos,
    choices: Choices,
    i: int,
    m: int,
)
    requires
        0 <= i < exchanges.len(),
        0 <= m < choices.heard.len(),
    ensures
        ({
            let calls = wake_calls(exchanges, agent_id, now, choices);
            &&& calls.len() == choices.heard.len() + 1
            &&& calls[m] == (Call::Heard {
                time: choices.heard[m].delivery_time,
                agent_id,
                message: choices.heard[m].message,
            })
            &&& calls.last() is Woke
            &&& calls.last()->Woke_time == now
            &&& calls.last()->Woke_agent_id == agent_id
            &&& calls.last()->Woke_actions == choices.actions
            &&& calls.last()->Woke_snapshots.len() == exchanges.len()
            &&& calls.last()->Woke_snapshots[i] == (MarketSnapshot {
                best_bid: best_level(exchanges[i].book.bids, Side::Bid),
                best_ask: best_level(exchanges[i].book.asks, Side::Ask),
                last_trade_price: exchanges[i].last_trade_price,
                last_trade_time: exchanges[i].last_trade_time,
            })
        }),
{
}

/// The delays of a step are such as the latency model gives: to the exchange
/// for the orders and cancels of an agent, to its owner for each message, and
/// one for each.
pub proof fn law_delays_are_those_of_the_model(
    k: KernelView,
    cast: Cast,
    agent_id: AgentId,
    symbol: Symbol,
    order: OrderAction,
    i: int,
    now: Nanos,
    seq: u64,
    choices: Choices,
)
    requires
        0 <= i < k.exchanges.len(),
        k.exchanges[i].symbol == symbol,
        forall|j: int| 0 <= j < i ==> (#[trigger] k.exchanges[j]).symbol != symbol,
    ensures
        k.decided_by(cast, EventPayload::WakeUp { agent_id }, now, seq, choices) ==> {
            &&& choices.delays.len() == choices.actions.len()
            &&& forall|j: int|
                0 <= j < choices.delays.len() && !(choices.actions[j] is ScheduleWakeUp) ==> (
                cast.to_exchange)(agent_id, #[trigger] choices.delays[j])
        },
        k.decided_by(
            cast,
            EventPayload::OrderArrival { agent_id, symbol, order },
            now,
            seq,
            choices,
        ) ==> {
            let messages = k.exchanges[i].processed(agent_id, order, now).messages;
            &&& choices.delays.len() == messages.len()
            &&& forall|j: int|
                0 <= j < choices.delays.len() ==> (cast.to_agent)(
                    messages[j].agent_id,
                    #[trigger] choices.delays[j],
                )
        },
        k.decided_by(cast, EventPayload::MarketClose { symbol }, now, seq, choices) ==> {
            let messages = k.exchanges[i].closed(now).messages;
            &&& choices.delays.len() == messages.len()
            &&& forall|j: int|
                0 <= j < choices.delays.len() ==> (cast.to_agent)(
                    messages[j].agent_id,
                    #[trigger] choices.delays[j],
                )
        },
{
    assert(serves(k.exchanges, symbol, i));
    lemma_serves_unique(k.exchanges, symbol, i);
}

proof fn lemma_all_pushed(k: KernelView, events: Seq<(Nanos, EventPayload)>)
    requires
        k.seq + events.len() <= u64::MAX,
    ensures
        ({
            let after = k.all_pushed(events);
            &&& after.seq == k.seq + events.len()
            &&& after.queue.len() == k.queue.len() + events.len()
            &&& after == KernelView { seq: after.seq, queue: after.queue, ..k }
            &&& forall|j: int|
                0 <= j < events.len() ==> after.queue.contains(#[trigger] numbered(events, k.seq, j))
        }),
    decreases events.len(),
{
    broadcast use vstd::multiset::group_multiset_axioms;

    if events.len() > 0 {
        let less = events.drop_last();
        lemma_all_pushed(k, less);
        let before = k.all_pushed(less);
        let after = k.all_pushed(events);
        assert forall|j: int| 0 <= j < events.len() implies after.queue.contains(
            #[trigger] numbered(events, k.seq, j),
        ) by {
            if j < less.len() {
                assert(numbered(events, k.seq, j) == numbered(less, k.seq, j));
            }
        }
    }
}

spec fn numbered(events: Seq<(Nanos, EventPayload)>, seq: u64, j: int) -> Event {
    let (delivery_time, payload) = events[j];
    Event { delivery_time, seq: (seq + j) as u64, payload }
}

/// A run starts with one exchange for each symbol, each with its own range of
/// a thousand million order ids and nothing on its book; its agents have no
/// messages. With market hours, every market opens at the start and closes at
/// the end, and opening comes before any wakeup; without, markets are open.
/// Every agent wakes at the start, in the order of the agents.
pub proof fn law_a_run_starts_with_markets_and_wakeups(setup: Setup, i: int, a: int)
    requires
        setup.start_room(),
        setup.start_time <= setup.end_time,
        0 <= i < setup.symbols.len(),
        0 <= a < setup.agents,
        setup.agents <= usize::MAX,
    ensures
        ({
            let k = setup.started();
            let hours = if setup.no_market_hours {
                0int
            } else {
                2 * setup.symbols.len() as int
            };
            &&& k.exchanges.len() == setup.symbols.len()
            &&& k.exchanges[i].symbol == setup.symbols[i]
            &&& k.exchanges[i].next_order_id == (i + 1) * 1_000_000_000
            &&& k.exchanges[i].is_open == setup.no_market_hours
            &&& k.exchanges[i].book.bids == Map::<i64, Seq<RestingOrder>>::empty()
            &&& k.exchanges[i].book.asks == Map::<i64, Seq<RestingOrder>>::empty()
            &&& k.exchanges[i].resting.dom() == Set::<u64>::empty()
            &&& k.exchanges[i].last_trade_price is None
            &&& k.exchanges[i].trades.len() == 0
            &&& k.exchanges[i].keep_trades == setup.keep_trades
            &&& k.exchanges[i].l1_bucket_ns == setup.l1_bucket_ns
            &&& k.exchanges[i].flow is Some <==> setup.flow is Some
            &&& k.inboxes.len() == setup.agents
            &&& k.inboxes[a] == Multiset::<InboxEntry>::empty()
            &&& k.end_time == setup.end_time
            &&& k.applied_messages == 0
            &&& k.queue.len() == hours + setup.agents
            &&& k.seq == hours + setup.agents
            &&& k.queue.contains(
                Event {
                    delivery_time: setup.start_time,
                    seq: (hours + a) as u64,
                    payload: EventPayload::WakeUp { agent_id: a as usize },
                },
            )
            &&& !setup.no_market_hours ==> k.queue.contains(
                Event {
                    delivery_time: setup.start_time,
                    seq: (2 * i) as u64,
                    payload: EventPayload::MarketOpen { symbol: setup.symbols[i] },
                },
            )
            &&& !setup.no_market_hours ==> k.queue.contains(
                Event {
                    delivery_time: setup.end_time,
                    seq: (2 * i + 1) as u64,
                    payload: EventPayload::MarketClose { symbol: setup.symbols[i] },
                },
            )
        }),
{
    broadcast use vstd::multiset::group_multiset_axioms;

    let k = setup.prepared_kernel();
    let events = setup.first_events();
    let hours = if setup.no_market_hours {
        0int
    } else {
        2 * setup.symbols.len() as int
    };
    lemma_all_pushed(k, events);
    assert(events.len() == hours + setup.agents);
    let after = k.all_pushed(events);
    assert(events[hours + a] == (
        setup.start_time,
        EventPayload::WakeUp { agent_id: a as usize },
    ));
    assert(after.queue.contains(numbered(events, k.seq, hours + a)));
    if !setup.no_market_hours {
        assert((2 * i) / 2 == i && (2 * i) % 2 == 0);
        assert((2 * i + 1) / 2 == i && (2 * i + 1) % 2 == 1);
        assert(events[2 * i] == setup.market_event(2 * i));
        assert(events[2 * i + 1] == setup.market_event(2 * i + 1));
        assert(after.queue.contains(numbered(events, k.seq, 2 * i)));
        assert(after.queue.contains(numbered(events, k.seq, 2 * i + 1)));
    }
    assert(k.exchanges[i] == setup.prepared(i));
    assert((i + 1) * 1_000_000_000 <= u64::MAX) by (nonlinear_arith)
        requires
            0 <= i < setup.symbols.len(),
            setup.symbols.len() * 1_000_000_000 <= u64::MAX,
    ;
    assert(setup.created(i).resting.dom() =~= Set::<u64>::empty());
}

/// A run whose queue holds another event, or with a message past the end on
/// its way, ends on the first such moment. Else it ends on the last moment at
/// which something happened: its last event, or a message that was due by the
/// end.
pub proof fn law_a_run_ends_when_nothing_is_left(
    setup: Setup,
    cast: Cast,
    trace: Seq<Choices>,
    result: SimulationResult,
    agent: int,
    entry: InboxEntry,
)
    requires
        ran(setup, cast, trace, result),
        0 <= agent < setup.started().after(trace).inboxes.len(),
        setup.started().after(trace).inboxes[agent].contains(entry),
    ensures
        ({
            let last = setup.started().after(trace);
            &&& last.queue.len() > 0 ==> result.end_time <= first(last.queue).delivery_time
            &&& entry.delivery_time > last.end_time ==> result.end_time <= entry.delivery_time
            &&& (last.queue.len() > 0 || entry.delivery_time > last.end_time)
                ==> result.end_time > last.end_time
            &&& result.end_time <= last.end_time && entry.delivery_time <= last.end_time
                ==> entry.delivery_time <= result.end_time
            &&& result.end_time <= last.end_time && trace.len() > 0 ==> first(
                setup.started().after(trace.drop_last()).queue,
            ).delivery_time <= result.end_time
        }),
{
    let start = setup.started();
    let last = start.after(trace);
    let beyond = last.next_time();
    let time = result.end_time;
    if last.queue.len() > 0 {
        assert(pends_at(last.inboxes, last.end_time, beyond, first(last.queue).delivery_time));
    }
    assert(on_its_way(last.inboxes, agent, entry));
    if entry.delivery_time > last.end_time {
        assert(pends_at(last.inboxes, last.end_time, beyond, entry.delivery_time));
    } else {
        assert(happened_at(
            last.inboxes,
            last.end_time,
            start.last_time(trace),
            entry.delivery_time,
        ));
    }
    assert(happened_at(
        last.inboxes,
        last.end_time,
        start.last_time(trace),
        start.last_time(trace),
    ));
    if exists|t: Nanos| pends_at(last.inboxes, last.end_time, beyond, t) {
        assert(pends_at(last.inboxes, last.end_time, beyond, time));
        assert(time > last.end_time);
    }
}

/// A message on its way to some agent is due at this time.
pub open spec fn message_due_at(inboxes: Seq<Multiset<InboxEntry>>, time: Nanos) -> bool {
    exists|agent: int, entry: InboxEntry|
        0 <= agent < inboxes.len() && #[trigger] inboxes[agent].contains(entry)
            && entry.delivery_time == time
}

/// The time on which a run ends is one at which something is or was: past the
/// end the next event or a message, else the last event, a message that was
/// due, or zero if there was no event.
pub proof fn law_a_run_ends_on_a_moment(
    setup: Setup,
    cast: Cast,
    trace: Seq<Choices>,
    result: SimulationResult,
)
    requires
        ran(setup, cast, trace, result),
    ensures
        ({
            let start = setup.started();
            let last = start.after(trace);
            let time = result.end_time;
            ||| message_due_at(last.inboxes, time)
            ||| time > last.end_time && last.queue.len() > 0 && time == first(
                last.queue,
            ).delivery_time
            ||| last.queue.len() == 0 && trace.len() == 0 && time == 0
            ||| last.queue.len() == 0 && trace.len() > 0 && time == first(
                start.after(trace.drop_last()).queue,
            ).delivery_time
        }),
{
    let start = setup.started();
    let last = start.after(trace);
    let beyond = last.next_time();
    let time = result.end_time;
    if exists|t: Nanos| pends_at(last.inboxes, last.end_time, beyond, t) {
        assert(pends_at(last.inboxes, last.end_time, beyond, time));
        if beyond != Some(time) {
            let (agent, entry) = choose|agent: int, entry: InboxEntry| #[trigger]
                on_its_way(last.inboxes, agent, entry) && !due_by(entry, last.end_time)
                    && entry.delivery_time == time;
            assert(last.inboxes[agent].contains(entry));
        }
    } else {
        if last.queue.len() > 0 {
            assert(pends_at(
                last.inboxes,
                last.end_time,
                beyond,
                first(last.queue).delivery_time,
            ));
        }
        assert(happened_at(last.inboxes, last.end_time, start.last_time(trace), time));
        if start.last_time(trace) != time {
            let (agent, entry) = choose|agent: int, entry: InboxEntry| #[trigger]
                on_its_way(last.inboxes, agent, entry) && due_by(entry, last.end_time)
                    && entry.delivery_time == time;
            assert(last.inboxes[agent].contains(entry));
        }
    }
}

/// A run counts its events and the messages that were heard, at wakeups and at
/// the end, and stops only when no event is due by the end.
pub proof fn law_a_run_counts_what_happened(
    setup: Setup,
    cast: Cast,
    trace: Seq<Choices>,
    result: SimulationResult,
    heard: Seq<Seq<InboxEntry>>,
)
    requires
        ran(setup, cast, trace, result),
        ({
            let last = setup.started().after(trace);
            heard_by_the_end(last.inboxes, last.end_time, heard)
        }),
    ensures
        ({
            let last = setup.started().after(trace);
            &&& result.events_processed == trace.len() + last.applied_messages + heard_in_all(heard)
            &&& last.queue.len() > 0 ==> first(last.queue).delivery_time > last.end_time
        }),
{
    let last = setup.started().after(trace);
    lemma_due_in_all(last.inboxes, last.end_time, heard, heard.len());
    assert(heard.take(heard.len() as int) =~= heard);
}

/// Number of messages heard.
pub open spec fn heard_in_all(heard: Seq<Seq<InboxEntry>>) -> int
    decreases heard.len(),
{
    if heard.len() == 0 {
        0
    } else {
        heard_in_all(heard.drop_last()) + heard.last().len()
    }
}

proof fn lemma_due_in_all(
    inboxes: Seq<Multiset<InboxEntry>>,
    end_time: Nanos,
    heard: Seq<Seq<InboxEntry>>,
    count: nat,
)
    requires
        heard_by_the_end(inboxes, end_time, heard),
        count <= heard.len(),
    ensures
        due_in_all(inboxes, end_time, count) == heard_in_all(heard.take(count as int)),
    decreases count,
{
    if count > 0 {
        lemma_due_in_all(inboxes, end_time, heard, (count - 1) as nat);
        assert(heard.take(count as int).drop_last() =~= heard.take(count - 1));
        let mine = heard[count - 1];
        mine.to_multiset_ensures();
        assert(heard.take(count as int).last() == mine);
    }
}

/// The one record comes before the other: at an earlier time, or at the same
/// time in an earlier log, or in the same log at an earlier place.
pub open spec fn reported_before(a_time: Nanos, a: Place, b_time: Nanos, b: Place) -> bool {
    a_time < b_time || (a_time == b_time && (a.log < b.log || (a.log == b.log && a.at < b.at)))
}

/// The trades of all exchanges come in the order of their times, each once,
/// those of one time in the order of the exchanges and of their logs.
pub proof fn law_trades_are_reported_in_order(logs: Seq<Seq<TradeRecord>>)
    requires
        forall|i: int, a: int, b: int|
            0 <= i < logs.len() && 0 <= a <= b < logs[i].len() ==> (
            #[trigger] logs[i][a]).timestamp <= (#[trigger] logs[i][b]).timestamp,
    ensures
        exists|places: Seq<Place>| #[trigger] lists_trades(logs, places),
{
    assert forall|i: int| 0 <= i < logs.len() implies time_ordered(
        #[trigger] logs[i],
    ) by {
        let log = logs[i];
        assert forall|a: int, b: int| 0 <= a <= b < log.len() implies log[a].timestamp
            <= log[b].timestamp by {
            assert(logs[i][a].timestamp <= logs[i][b].timestamp);
        }
    }
    law_merge_is_a_stable_sort(logs);
    let start = Seq::new(logs.len(), |i: int| 0int);
    let places = merge_order(logs, start, unread(logs, start));
    assert forall|log: int, at: int|
        0 <= log < logs.len() && 0 <= at < logs[log].len() implies places.contains(
        #[trigger] place(log, at),
    ) by {
        assert(ahead_of(logs, start, place(log, at)));
    }
    assert forall|a: int, b: int| 0 <= a < b < places.len() implies reported_before(
        logs[places[a].log][places[a].at].timestamp,
        #[trigger] places[a],
        logs[places[b].log][places[b].at].timestamp,
        #[trigger] places[b],
    ) by {
        assert(precedes(logs, places[a], places[b]));
    }
    assert forall|k: int| 0 <= k < places.len() implies merged(logs)[k] == logs[(
    #[trigger] places[k]).log][places[k].at] by {
        assert(ahead_of(logs, start, places[k]));
    }
    assert(lists_trades(logs, places));
}

/// A place in the logs.
pub open spec fn place(log: int, at: int) -> Place {
    Place { log, at }
}

/// These are the places of the merged trades.
pub open spec fn lists_trades(logs: Seq<Seq<TradeRecord>>, places: Seq<Place>) -> bool {
    &&& merged(logs).len() == places.len()
    &&& forall|k: int|
        0 <= k < places.len() ==> merged(logs)[k] == logs[(#[trigger] places[k]).log][places[k].at]
    &&& forall|log: int, at: int|
        0 <= log < logs.len() && 0 <= at < logs[log].len() ==> places.contains(
            #[trigger] place(log, at),
        )
    &&& forall|a: int, b: int|
        0 <= a < b < places.len() ==> reported_before(
            logs[places[a].log][places[a].at].timestamp,
            #[trigger] places[a],
            logs[places[b].log][places[b].at].timestamp,
            #[trigger] places[b],
        )
}

/// A result holds the logs of all exchanges: the merged trades, the merged
/// quotes, the merged buckets with the open ones as the last, and one
/// exchange's diagnostics after the other's.
pub proof fn law_a_result_reports_every_exchange(
    setup: Setup,
    cast: Cast,
    trace: Seq<Choices>,
    result: SimulationResult,
)
    requires
        ran(setup, cast, trace, result),
    ensures
        ({
            let exchanges = setup.started().after(trace).exchanges;
            &&& result.trades@ == merged(
                Seq::new(exchanges.len(), |i: int| exchanges[i].trades),
            )
            &&& result.l1_snapshots@ == merged(
                Seq::new(exchanges.len(), |i: int| exchanges[i].l1_snapshots),
            )
            &&& result.l1_buckets@ == merged(
                Seq::new(
                    exchanges.len(),
                    |i: int|
                        match exchanges[i].open_bucket {
                            Some(open) => exchanges[i].l1_buckets.push(open),
                            None => exchanges[i].l1_buckets,
                        },
                ),
            )
        }),
{
    let exchanges = setup.started().after(trace).exchanges;
    assert(Seq::new(exchanges.len(), |i: int| exchanges[i].trades) =~= exchanges.map_values(
        |exchange: ExchangeView| exchange.trades,
    ));
    assert(Seq::new(exchanges.len(), |i: int| exchanges[i].l1_snapshots)
        =~= exchanges.map_values(|exchange: ExchangeView| exchange.l1_snapshots));
    assert(Seq::new(
        exchanges.len(),
        |i: int|
            match exchanges[i].open_bucket {
                Some(open) => exchanges[i].l1_buckets.push(open),
                None => exchanges[i].l1_buckets,
            },
    ) =~= exchanges.map_values(
        |exchange: ExchangeView| exchange.bucket_flushed().l1_buckets,
    ));
}

/// The diagnostics of one more exchange come after those of the others: its
/// finished rows and its totals, or nothing if it keeps none.
pub proof fn law_diagnostics_follow_one_another(
    exchanges: Seq<ExchangeView>,
    end_time: Nanos,
    more: ExchangeView,
)
    ensures
        flow_rows(Seq::empty(), end_time, 0).len() == 0,
        flow_totals(Seq::empty(), 0).len() == 0,
        more.flow is None ==> {
            &&& flow_rows(exchanges.push(more), end_time, exchanges.len() + 1) == flow_rows(
                exchanges,
                end_time,
                exchanges.len(),
            )
            &&& flow_totals(exchanges.push(more), exchanges.len() + 1) == flow_totals(
                exchanges,
                exchanges.len(),
            )
        },
        more.flow matches Some(flow) ==> {
            &&& flow_rows(exchanges.push(more), end_time, exchanges.len() + 1) == flow_rows(
                exchanges,
                end_time,
                exchanges.len(),
            ) + flow.finished(end_time).buckets
            &&& flow_totals(exchanges.push(more), exchanges.len() + 1) == flow_totals(
                exchanges,
                exchanges.len(),
            ).push(flow.totals)
        },
{
    let n = exchanges.len();
    lemma_rows_prefix(exchanges, end_time, more, n);
    if let Some(flow) = more.flow {
        assert(flow_totals(exchanges, n) + seq![flow.totals] =~= flow_totals(exchanges, n).push(
            flow.totals,
        ));
    } else {
        assert(flow_totals(exchanges, n) + Seq::empty() =~= flow_totals(exchanges, n));
        assert(flow_rows(exchanges, end_time, n) + Seq::empty() =~= flow_rows(
            exchanges,
            end_time,
            n,
        ));
    }
}

proof fn lemma_rows_prefix(
    exchanges: Seq<ExchangeView>,
    end_time: Nanos,
    more: ExchangeView,
    count: nat,
)
    requires
        count <= exchanges.len(),
    ensures
        flow_rows(exchanges.push(more), end_time, count) == flow_rows(exchanges, end_time, count),
        flow_totals(exchanges.push(more), count) == flow_totals(exchanges, count),
    decreases count,
{
    if count > 0 {
        lemma_rows_prefix(exchanges, end_time, more, (count - 1) as nat);
        assert(exchanges.push(more)[count - 1] == exchanges[count - 1]);
    }
}

} // verus!
