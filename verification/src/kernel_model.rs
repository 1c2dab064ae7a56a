//! The mathematical kernel: how events move a simulation forward.
//!
//! What agents do and how long messages take is not the kernel's to decide.
//! Each step is a function of the state and of those choices.

use crate::agent::{AgentAction, Call};
use crate::event::{Event, EventPayload, ExchangeMessage, OrderAction, RoutedMessage};
use crate::exchange_model::{ExchangeView, Outcome};
use crate::flow_model::{FlowBucketView, FlowTotals, FlowView, RatioEdge};
use crate::inbox::in_due_order;
use crate::merge::merged;
use crate::records::{L1Bucket, L1Snapshot, TradeRecord};
use crate::queue::not_after;
use crate::types::{AgentId, MarketSnapshot, Nanos, Symbol};
use vstd::multiset::Multiset;
use vstd::prelude::*;

verus! {

/// One exchange message on its way to an agent.
///
/// Responses to an agent never act on shared state: an agent that receives one
/// returns no actions and sees nothing but itself. They therefore stay out of
/// the global queue and are applied from a per-agent inbox right before the
/// agent's next wakeup, each with its original delivery time, in exact
/// (`delivery_time`, `seq`) order. The agent sees the history the global queue
/// would have given it, and the queue stays half as busy.
#[derive(Debug, Clone, Copy, PartialEq, Eq, Structural)]
pub struct InboxEntry {
    pub delivery_time: Nanos,
    pub seq: u64,
    pub message: ExchangeMessage,
}

/// The entry is due strictly before the moment (`time`, `seq`).
pub open spec fn due_before(entry: InboxEntry, time: Nanos, seq: u64) -> bool {
    entry.delivery_time < time || (entry.delivery_time == time && entry.seq < seq)
}

/// The entry is due by `time`.
pub open spec fn due_by(entry: InboxEntry, time: Nanos) -> bool {
    entry.delivery_time <= time
}

/// The inboxes after a message was sent to an agent. There is nothing to send
/// to an agent that does not take part.
pub open spec fn with_entry(
    inboxes: Seq<Multiset<InboxEntry>>,
    agent_id: AgentId,
    entry: InboxEntry,
) -> Seq<Multiset<InboxEntry>> {
    let agent = agent_id as int;
    if agent < inboxes.len() {
        inboxes.update(agent, inboxes[agent].insert(entry))
    } else {
        inboxes
    }
}

/// What one step comes to that the state does not decide: the order in which
/// the agent that wakes hears its messages, its actions, and the delays of the
/// messages that are sent.
pub struct Choices {
    pub heard: Seq<InboxEntry>,
    pub actions: Seq<AgentAction>,
    pub delays: Seq<u64>,
}

/// Who decides: the agents, with the calls they have a record of and the
/// records they can come to have, and the delays that messages can get.
#[verifier::ext_equal]
pub struct Cast {
    pub pasts: Seq<Option<Seq<Call>>>,
    pub strategies: Seq<spec_fn(Seq<Call>) -> bool>,
    pub to_exchange: spec_fn(AgentId, u64) -> bool,
    pub to_agent: spec_fn(AgentId, u64) -> bool,
}

/// A record of calls, if one is kept, after more of them.
pub open spec fn extended(past: Option<Seq<Call>>, calls: Seq<Call>) -> Option<Seq<Call>> {
    match past {
        Some(past) => Some(past + calls),
        None => None,
    }
}

/// Messages heard, each at the time at which it was due.
pub open spec fn heard_calls(agent_id: AgentId, heard: Seq<InboxEntry>) -> Seq<Call> {
    heard.map_values(
        |entry: InboxEntry| Call::Heard {
            time: entry.delivery_time,
            agent_id,
            message: entry.message,
        },
    )
}

/// The top of each book, in the order of the exchanges.
pub open spec fn market_snapshots(exchanges: Seq<ExchangeView>) -> Seq<MarketSnapshot> {
    exchanges.map_values(|exchange: ExchangeView| exchange.snapshot())
}

/// The calls of a wakeup: what was due is heard, then the agent wakes and sees
/// the markets.
pub open spec fn wake_calls(
    exchanges: Seq<ExchangeView>,
    agent_id: AgentId,
    now: Nanos,
    choices: Choices,
) -> Seq<Call> {
    heard_calls(agent_id, choices.heard).push(
        Call::Woke {
            time: now,
            agent_id,
            snapshots: market_snapshots(exchanges),
            actions: choices.actions,
        },
    )
}

impl Cast {
    /// An agent has been called.
    pub open spec fn called(self, agent_id: AgentId, calls: Seq<Call>) -> Cast {
        Cast {
            pasts: self.pasts.update(
                agent_id as int,
                extended(self.pasts[agent_id as int], calls),
            ),
            ..self
        }
    }

    /// An event has happened: a wakeup or a message is a call.
    pub open spec fn after_event(
        self,
        exchanges: Seq<ExchangeView>,
        payload: EventPayload,
        now: Nanos,
        choices: Choices,
    ) -> Cast {
        match payload {
            EventPayload::WakeUp { agent_id } => self.called(
                agent_id,
                wake_calls(exchanges, agent_id, now, choices),
            ),
            EventPayload::ExchangeResponse { agent_id, response } => self.called(
                agent_id,
                seq![Call::Heard { time: now, agent_id, message: response }],
            ),
            _ => self,
        }
    }

    /// The agent may end its calls so, if it keeps a record of them.
    pub open spec fn may_end(self, agent_id: AgentId) -> bool {
        self.pasts[agent_id as int] matches Some(past) ==> (self.strategies[agent_id as int])(past)
    }

    /// The orders and cancels among the actions get delays that they can get.
    pub open spec fn may_delay_actions(
        self,
        agent_id: AgentId,
        actions: Seq<AgentAction>,
        delays: Seq<u64>,
    ) -> bool {
        forall|j: int|
            0 <= j < delays.len() && !(actions[j] is ScheduleWakeUp) ==> (self.to_exchange)(
                agent_id,
                #[trigger] delays[j],
            )
    }

    /// The messages get delays that they can get.
    pub open spec fn may_delay_messages(
        self,
        messages: Seq<RoutedMessage>,
        delays: Seq<u64>,
    ) -> bool {
        forall|j: int|
            0 <= j < delays.len() ==> (self.to_agent)(
                messages[j].agent_id,
                #[trigger] delays[j],
            )
    }
}

/// The state of a simulation.
#[verifier::ext_equal]
pub struct KernelView {
    pub queue: Multiset<Event>,
    /// Sequence number of the next event or message.
    pub seq: u64,
    pub exchanges: Seq<ExchangeView>,
    /// Messages on their way to each agent.
    pub inboxes: Seq<Multiset<InboxEntry>>,
    pub end_time: Nanos,
    /// Messages applied from the inboxes.
    pub applied_messages: u64,
}

/// The event comes out of the queue next.
pub open spec fn is_first(queue: Multiset<Event>, event: Event) -> bool {
    &&& queue.contains(event)
    &&& forall|other: Event| #[trigger] queue.contains(other) ==> not_after(event, other)
}

/// The event that comes out of the queue next.
pub open spec fn first(queue: Multiset<Event>) -> Event {
    choose|event: Event| is_first(queue, event)
}

/// The exchange of a symbol: the first that serves it.
pub open spec fn serves(exchanges: Seq<ExchangeView>, symbol: Symbol, i: int) -> bool {
    &&& 0 <= i < exchanges.len()
    &&& exchanges[i].symbol == symbol
    &&& forall|j: int| 0 <= j < i ==> (#[trigger] exchanges[j]).symbol != symbol
}

/// The exchange of a symbol, if there is one.
pub open spec fn exchange_of(exchanges: Seq<ExchangeView>, symbol: Symbol) -> Option<int> {
    if exists|i: int| serves(exchanges, symbol, i) {
        Some(choose|i: int| serves(exchanges, symbol, i))
    } else {
        None
    }
}

/// The agent that an event is about is one of `agents`.
pub open spec fn payload_within(payload: EventPayload, agents: nat) -> bool {
    match payload {
        EventPayload::WakeUp { agent_id } => agent_id < agents,
        EventPayload::OrderArrival { agent_id, symbol, order } => agent_id < agents,
        EventPayload::ExchangeResponse { agent_id, response } => agent_id < agents,
        EventPayload::MarketOpen { symbol } => true,
        EventPayload::MarketClose { symbol } => true,
    }
}

impl KernelView {
    /// An event is scheduled.
    pub open spec fn pushed(self, delivery_time: Nanos, payload: EventPayload) -> KernelView {
        KernelView {
            queue: self.queue.insert(Event { delivery_time, seq: self.seq, payload }),
            seq: (self.seq + 1) as u64,
            ..self
        }
    }

    pub open spec fn push_room(self) -> bool {
        self.seq < u64::MAX && self.queue.len() <= u32::MAX
    }

    /// An agent's action takes its way: orders and cancels reach the exchange
    /// after a delay, a wakeup is scheduled unless it lies past the end.
    pub open spec fn routed(
        self,
        agent_id: AgentId,
        action: AgentAction,
        now: Nanos,
        delay: u64,
    ) -> KernelView {
        match action {
            AgentAction::SubmitOrder { symbol, order } => self.pushed(
                (now + delay) as u64,
                EventPayload::OrderArrival { agent_id, symbol, order },
            ),
            AgentAction::CancelOrder { symbol, order_id } => self.pushed(
                (now + delay) as u64,
                EventPayload::OrderArrival {
                    agent_id,
                    symbol,
                    order: OrderAction::CancelOrder { order_id },
                },
            ),
            AgentAction::ScheduleWakeUp { delay_ns } => if now + delay_ns <= self.end_time {
                self.pushed((now + delay_ns) as u64, EventPayload::WakeUp { agent_id })
            } else {
                self
            },
        }
    }

    pub open spec fn route_room(self, action: AgentAction, now: Nanos, delay: u64) -> bool {
        match action {
            AgentAction::SubmitOrder { symbol, order } => now + delay <= u64::MAX
                && self.push_room(),
            AgentAction::CancelOrder { symbol, order_id } => now + delay <= u64::MAX
                && self.push_room(),
            AgentAction::ScheduleWakeUp { delay_ns } => now + delay_ns <= u64::MAX && (now
                + delay_ns <= self.end_time ==> self.push_room()),
        }
    }

    /// Actions take their ways one after the other.
    pub open spec fn all_routed(
        self,
        agent_id: AgentId,
        actions: Seq<AgentAction>,
        delays: Seq<u64>,
        now: Nanos,
    ) -> KernelView
        decreases actions.len(),
    {
        if actions.len() == 0 {
            self
        } else {
            self.all_routed(agent_id, actions.drop_last(), delays, now).routed(
                agent_id,
                actions.last(),
                now,
                delays[actions.len() - 1],
            )
        }
    }

    pub open spec fn all_route_room(
        self,
        agent_id: AgentId,
        actions: Seq<AgentAction>,
        delays: Seq<u64>,
        now: Nanos,
    ) -> bool
        decreases actions.len(),
    {
        actions.len() > 0 ==> {
            &&& self.all_route_room(agent_id, actions.drop_last(), delays, now)
            &&& self.all_routed(agent_id, actions.drop_last(), delays, now).route_room(
                actions.last(),
                now,
                delays[actions.len() - 1],
            )
        }
    }

    /// Messages go out to their agents, each with its own delay.
    pub open spec fn scheduled(
        self,
        messages: Seq<RoutedMessage>,
        delays: Seq<u64>,
        now: Nanos,
    ) -> KernelView
        decreases messages.len(),
    {
        if messages.len() == 0 {
            self
        } else {
            let before = self.scheduled(messages.drop_last(), delays, now);
            let sent = messages.last();
            let entry = InboxEntry {
                delivery_time: (now + delays[messages.len() - 1]) as u64,
                seq: before.seq,
                message: sent.message,
            };
            KernelView {
                seq: (before.seq + 1) as u64,
                inboxes: with_entry(before.inboxes, sent.agent_id, entry),
                ..before
            }
        }
    }

    pub open spec fn schedule_room(
        self,
        messages: Seq<RoutedMessage>,
        delays: Seq<u64>,
        now: Nanos,
    ) -> bool
        decreases messages.len(),
    {
        messages.len() > 0 ==> {
            &&& self.schedule_room(messages.drop_last(), delays, now)
            &&& self.scheduled(messages.drop_last(), delays, now).seq < u64::MAX
            &&& now + delays[messages.len() - 1] <= u64::MAX
        }
    }

    /// The messages to an agent that are due before its wakeup.
    pub open spec fn due(self, agent_id: AgentId, now: Nanos, seq: u64) -> Multiset<InboxEntry> {
        self.inboxes[agent_id as int].filter(|entry: InboxEntry| due_before(entry, now, seq))
    }

    /// Those messages have been applied.
    pub open spec fn delivered(self, agent_id: AgentId, now: Nanos, seq: u64) -> KernelView {
        KernelView {
            inboxes: self.inboxes.update(
                agent_id as int,
                self.inboxes[agent_id as int].filter(
                    |entry: InboxEntry| !due_before(entry, now, seq),
                ),
            ),
            applied_messages: (self.applied_messages + self.due(agent_id, now, seq).len()) as u64,
            ..self
        }
    }

    pub open spec fn deliver_room(self, agent_id: AgentId, now: Nanos, seq: u64) -> bool {
        self.applied_messages + self.due(agent_id, now, seq).len() <= u64::MAX
    }

    /// An exchange did something and sends messages.
    pub open spec fn exchange_did(
        self,
        i: int,
        outcome: Outcome,
        delays: Seq<u64>,
        now: Nanos,
    ) -> KernelView {
        KernelView { exchanges: self.exchanges.update(i, outcome.exchange), ..self }.scheduled(
            outcome.messages,
            delays,
            now,
        )
    }

    pub open spec fn exchange_room(
        self,
        i: int,
        outcome: Outcome,
        delays: Seq<u64>,
        now: Nanos,
    ) -> bool {
        KernelView { exchanges: self.exchanges.update(i, outcome.exchange), ..self }.schedule_room(
            outcome.messages,
            delays,
            now,
        )
    }

    /// An event happens.
    pub open spec fn dispatched(
        self,
        payload: EventPayload,
        now: Nanos,
        seq: u64,
        choices: Choices,
    ) -> KernelView {
        match payload {
            EventPayload::WakeUp { agent_id } => self.delivered(agent_id, now, seq).all_routed(
                agent_id,
                choices.actions,
                choices.delays,
                now,
            ),
            EventPayload::OrderArrival { agent_id, symbol, order } => match exchange_of(
                self.exchanges,
                symbol,
            ) {
                Some(i) => self.exchange_did(
                    i,
                    self.exchanges[i].processed(agent_id, order, now),
                    choices.delays,
                    now,
                ),
                None => self,
            },
            EventPayload::ExchangeResponse { agent_id, response } => self,
            EventPayload::MarketOpen { symbol } => match exchange_of(self.exchanges, symbol) {
                Some(i) => KernelView {
                    exchanges: self.exchanges.update(i, self.exchanges[i].opened(now)),
                    ..self
                },
                None => self,
            },
            EventPayload::MarketClose { symbol } => match exchange_of(self.exchanges, symbol) {
                Some(i) => self.exchange_did(
                    i,
                    self.exchanges[i].closed(now),
                    choices.delays,
                    now,
                ),
                None => self,
            },
        }
    }

    /// Everything that the event brings about can be represented.
    pub open spec fn dispatch_room(
        self,
        payload: EventPayload,
        now: Nanos,
        seq: u64,
        choices: Choices,
    ) -> bool {
        match payload {
            EventPayload::WakeUp { agent_id } => {
                &&& self.deliver_room(agent_id, now, seq)
                &&& self.delivered(agent_id, now, seq).all_route_room(
                    agent_id,
                    choices.actions,
                    choices.delays,
                    now,
                )
            },
            EventPayload::OrderArrival { agent_id, symbol, order } => match exchange_of(
                self.exchanges,
                symbol,
            ) {
                Some(i) => {
                    &&& self.exchanges[i].process_room(agent_id, order, now)
                    &&& self.exchange_room(
                        i,
                        self.exchanges[i].processed(agent_id, order, now),
                        choices.delays,
                        now,
                    )
                },
                None => true,
            },
            EventPayload::ExchangeResponse { agent_id, response } => true,
            EventPayload::MarketOpen { symbol } => match exchange_of(self.exchanges, symbol) {
                Some(i) => self.exchanges[i].l1_room(now),
                None => true,
            },
            EventPayload::MarketClose { symbol } => match exchange_of(self.exchanges, symbol) {
                Some(i) => {
                    &&& self.exchanges[i].close_room(now)
                    &&& self.exchange_room(
                        i,
                        self.exchanges[i].closed(now),
                        choices.delays,
                        now,
                    )
                },
                None => true,
            },
        }
    }

    /// The agent that wakes hears what is due in the order in which it is due,
    /// and then does what it may do.
    pub open spec fn woken_by(
        self,
        cast: Cast,
        agent_id: AgentId,
        now: Nanos,
        seq: u64,
        choices: Choices,
    ) -> bool {
        &&& in_due_order(choices.heard)
        &&& choices.heard.to_multiset() == self.due(agent_id, now, seq)
        &&& cast.called(agent_id, wake_calls(self.exchanges, agent_id, now, choices)).may_end(
            agent_id,
        )
        &&& cast.may_delay_actions(agent_id, choices.actions, choices.delays)
    }

    /// The choices are those of the cast.
    pub open spec fn decided_by(
        self,
        cast: Cast,
        payload: EventPayload,
        now: Nanos,
        seq: u64,
        choices: Choices,
    ) -> bool {
        match payload {
            EventPayload::WakeUp { agent_id } => {
                &&& self.woken_by(cast, agent_id, now, seq, choices)
                &&& choices.delays.len() == choices.actions.len()
            },
            EventPayload::OrderArrival { agent_id, symbol, order } => match exchange_of(
                self.exchanges,
                symbol,
            ) {
                Some(i) => {
                    let messages = self.exchanges[i].processed(agent_id, order, now).messages;
                    &&& cast.may_delay_messages(messages, choices.delays)
                    &&& choices.delays.len() == messages.len()
                },
                None => true,
            },
            EventPayload::ExchangeResponse { agent_id, response } => true,
            EventPayload::MarketOpen { symbol } => true,
            EventPayload::MarketClose { symbol } => match exchange_of(self.exchanges, symbol) {
                Some(i) => {
                    let messages = self.exchanges[i].closed(now).messages;
                    &&& cast.may_delay_messages(messages, choices.delays)
                    &&& choices.delays.len() == messages.len()
                },
                None => true,
            },
        }
    }

    /// The messages of an exchange cannot all be sent: one that was given a
    /// delay does not fit.
    pub open spec fn sending_fails(
        self,
        cast: Cast,
        i: int,
        outcome: Outcome,
        delays: Seq<u64>,
        now: Nanos,
    ) -> bool {
        let sent = Outcome { messages: outcome.messages.take(delays.len() as int), ..outcome };
        &&& delays.len() <= outcome.messages.len()
        &&& cast.may_delay_messages(outcome.messages, delays)
        &&& !self.exchange_room(i, sent, delays, now)
    }

    /// What the event brings about cannot be represented, as far as the cast
    /// has decided.
    pub open spec fn stuck_on(
        self,
        cast: Cast,
        payload: EventPayload,
        now: Nanos,
        seq: u64,
        choices: Choices,
    ) -> bool {
        match payload {
            EventPayload::WakeUp { agent_id } => {
                ||| !self.deliver_room(agent_id, now, seq)
                ||| {
                    &&& self.woken_by(cast, agent_id, now, seq, choices)
                    &&& choices.delays.len() <= choices.actions.len()
                    &&& !self.delivered(agent_id, now, seq).all_route_room(
                        agent_id,
                        choices.actions.take(choices.delays.len() as int),
                        choices.delays,
                        now,
                    )
                }
            },
            EventPayload::OrderArrival { agent_id, symbol, order } => match exchange_of(
                self.exchanges,
                symbol,
            ) {
                Some(i) => {
                    ||| !self.exchanges[i].process_room(agent_id, order, now)
                    ||| self.sending_fails(
                        cast,
                        i,
                        self.exchanges[i].processed(agent_id, order, now),
                        choices.delays,
                        now,
                    )
                },
                None => false,
            },
            EventPayload::ExchangeResponse { agent_id, response } => false,
            EventPayload::MarketOpen { symbol } => match exchange_of(self.exchanges, symbol) {
                Some(i) => !self.exchanges[i].l1_room(now),
                None => false,
            },
            EventPayload::MarketClose { symbol } => match exchange_of(self.exchanges, symbol) {
                Some(i) => {
                    ||| !self.exchanges[i].close_room(now)
                    ||| self.sending_fails(
                        cast,
                        i,
                        self.exchanges[i].closed(now),
                        choices.delays,
                        now,
                    )
                },
                None => false,
            },
        }
    }

    /// The state without its next event.
    pub open spec fn popped(self) -> KernelView {
        KernelView { queue: self.queue.remove(first(self.queue)), ..self }
    }

    /// The next event is decided by the cast.
    pub open spec fn next_decided_by(self, cast: Cast, choices: Choices) -> bool {
        let event = first(self.queue);
        self.popped().decided_by(cast, event.payload, event.delivery_time, event.seq, choices)
    }

    /// The next event is due by the end, but cannot happen.
    pub open spec fn next_stuck(self, cast: Cast, choices: Choices) -> bool {
        let event = first(self.queue);
        &&& !self.is_over()
        &&& self.popped().stuck_on(cast, event.payload, event.delivery_time, event.seq, choices)
    }

    /// The cast after the next event.
    pub open spec fn next_cast(self, cast: Cast, choices: Choices) -> Cast {
        let event = first(self.queue);
        cast.after_event(self.exchanges, event.payload, event.delivery_time, choices)
    }

    /// The cast after as many events as there are choices.
    pub open spec fn cast_after(self, cast: Cast, trace: Seq<Choices>) -> Cast
        decreases trace.len(),
    {
        if trace.len() == 0 {
            cast
        } else {
            self.after(trace.drop_last()).next_cast(
                self.cast_after(cast, trace.drop_last()),
                trace.last(),
            )
        }
    }

    /// Each of those events is decided by the cast.
    pub open spec fn follows(self, cast: Cast, trace: Seq<Choices>) -> bool
        decreases trace.len(),
    {
        trace.len() > 0 ==> {
            &&& self.follows(cast, trace.drop_last())
            &&& self.after(trace.drop_last()).next_decided_by(
                self.cast_after(cast, trace.drop_last()),
                trace.last(),
            )
        }
    }

    /// The next event happens.
    pub open spec fn stepped(self, choices: Choices) -> KernelView {
        let event = first(self.queue);
        KernelView { queue: self.queue.remove(event), ..self }.dispatched(
            event.payload,
            event.delivery_time,
            event.seq,
            choices,
        )
    }

    /// The next event can happen: there is one, it is not past the end, and
    /// what it brings about can be represented.
    pub open spec fn can_step(self, choices: Choices) -> bool {
        let event = first(self.queue);
        &&& self.queue.len() > 0
        &&& event.delivery_time <= self.end_time
        &&& KernelView { queue: self.queue.remove(event), ..self }.dispatch_room(
            event.payload,
            event.delivery_time,
            event.seq,
            choices,
        )
    }

    /// As many events happen as there are choices.
    pub open spec fn after(self, trace: Seq<Choices>) -> KernelView
        decreases trace.len(),
    {
        if trace.len() == 0 {
            self
        } else {
            self.after(trace.drop_last()).stepped(trace.last())
        }
    }

    /// Each of those events can happen.
    pub open spec fn runs(self, trace: Seq<Choices>) -> bool
        decreases trace.len(),
    {
        trace.len() > 0 ==> {
            &&& self.runs(trace.drop_last())
            &&& self.after(trace.drop_last()).can_step(trace.last())
        }
    }

    /// All events but the last of those happen. The last is due by the end, but
    /// what it brings about cannot be represented, or the events cannot be
    /// counted.
    pub open spec fn gets_stuck(self, cast: Cast, trace: Seq<Choices>) -> bool {
        let before = self.after(trace.drop_last());
        let players = self.cast_after(cast, trace.drop_last());
        &&& trace.len() > 0
        &&& self.runs(trace.drop_last())
        &&& self.follows(cast, trace.drop_last())
        &&& before.next_stuck(players, trace.last()) || (before.can_step(trace.last())
            && before.next_decided_by(players, trace.last()) && trace.len() > u64::MAX)
    }

    /// Nothing more happens by the end.
    pub open spec fn is_over(self) -> bool {
        self.queue.len() == 0 || first(self.queue).delivery_time > self.end_time
    }

    /// The time of the last of those events, 0 without one.
    pub open spec fn last_time(self, trace: Seq<Choices>) -> Nanos {
        if trace.len() == 0 {
            0
        } else {
            first(self.after(trace.drop_last()).queue).delivery_time
        }
    }

    /// Events scheduled one after the other.
    pub open spec fn all_pushed(self, events: Seq<(Nanos, EventPayload)>) -> KernelView
        decreases events.len(),
    {
        if events.len() == 0 {
            self
        } else {
            self.all_pushed(events.drop_last()).pushed(events.last().0, events.last().1)
        }
    }

    /// The time of the next event, if there is one.
    pub open spec fn next_time(self) -> Option<Nanos> {
        if self.queue.len() == 0 {
            None
        } else {
            Some(first(self.queue).delivery_time)
        }
    }
}

/// Diagnostics that each exchange records.
#[verifier::ext_equal]
pub struct FlowSetup {
    pub agent_id: AgentId,
    pub interval_ns: Nanos,
    pub horizons_ns: Seq<Nanos>,
    pub ratio_edges: Seq<RatioEdge>,
}

/// What a run starts from.
#[verifier::ext_equal]
pub struct Setup {
    pub start_time: Nanos,
    pub end_time: Nanos,
    pub symbols: Seq<Symbol>,
    pub no_market_hours: bool,
    pub keep_trades: bool,
    pub l1_bucket_ns: Option<Nanos>,
    pub flow: Option<FlowSetup>,
    pub agents: nat,
}

impl Setup {
    /// The `i`-th exchange as it is created. Each has its own range of order
    /// ids.
    pub open spec fn created(self, i: int) -> ExchangeView {
        ExchangeView {
            keep_trades: self.keep_trades,
            l1_bucket_ns: self.l1_bucket_ns,
            flow: match self.flow {
                Some(flow) => Some(
                    FlowView::fresh(
                        flow.agent_id,
                        flow.interval_ns,
                        flow.horizons_ns,
                        flow.ratio_edges,
                        self.symbols[i],
                    ),
                ),
                None => None,
            },
            ..ExchangeView::fresh(self.symbols[i], ((i + 1) * 1_000_000_000) as u64)
        }
    }

    /// The `i`-th exchange as the run starts: open already where markets have
    /// no hours.
    pub open spec fn prepared(self, i: int) -> ExchangeView {
        if self.no_market_hours {
            self.created(i).opened(self.start_time)
        } else {
            self.created(i)
        }
    }

    /// The event at which the `j / 2`-th market opens or closes.
    pub open spec fn market_event(self, j: int) -> (Nanos, EventPayload) {
        let symbol = self.symbols[j / 2];
        if j % 2 == 0 {
            (self.start_time, EventPayload::MarketOpen { symbol })
        } else {
            (self.end_time, EventPayload::MarketClose { symbol })
        }
    }

    /// The first events of a run: markets open and close at their hours, and
    /// every agent wakes at the start.
    pub open spec fn first_events(self) -> Seq<(Nanos, EventPayload)> {
        let hours = if self.no_market_hours {
            Seq::empty()
        } else {
            Seq::new(2 * self.symbols.len(), |j: int| self.market_event(j))
        };
        hours + Seq::new(
            self.agents,
            |a: int| (self.start_time, EventPayload::WakeUp { agent_id: a as usize }),
        )
    }

    /// The simulation before its first events.
    pub open spec fn prepared_kernel(self) -> KernelView {
        KernelView {
            queue: Multiset::empty(),
            seq: 0,
            exchanges: Seq::new(self.symbols.len(), |i: int| self.prepared(i)),
            inboxes: Seq::new(self.agents, |a: int| Multiset::empty()),
            end_time: self.end_time,
            applied_messages: 0,
        }
    }

    /// The simulation at its start.
    pub open spec fn started(self) -> KernelView {
        self.prepared_kernel().all_pushed(self.first_events())
    }

    /// The start of the run can be represented: order ids and first events can
    /// be counted, and open markets record their quotes.
    pub open spec fn start_room(self) -> bool {
        &&& self.symbols.len() * 1_000_000_000 <= u64::MAX
        &&& self.no_market_hours ==> forall|i: int|
            0 <= i < self.symbols.len() ==> (#[trigger] self.created(i)).l1_room(self.start_time)
        &&& self.first_events().len() <= u32::MAX + 1
    }
}

/// A message is on its way to an agent.
pub open spec fn on_its_way(
    inboxes: Seq<Multiset<InboxEntry>>,
    agent: int,
    entry: InboxEntry,
) -> bool {
    0 <= agent < inboxes.len() && inboxes[agent].contains(entry)
}

/// Something is still pending at `time`, past the end: a message, or the
/// event at `beyond`.
pub open spec fn pends_at(
    inboxes: Seq<Multiset<InboxEntry>>,
    end_time: Nanos,
    beyond: Option<Nanos>,
    time: Nanos,
) -> bool {
    ||| beyond == Some(time)
    ||| exists|agent: int, entry: InboxEntry| #[trigger]
        on_its_way(inboxes, agent, entry) && !due_by(entry, end_time) && entry.delivery_time
            == time
}

/// Something happened at `time`: the last event, or a message due by the end.
pub open spec fn happened_at(
    inboxes: Seq<Multiset<InboxEntry>>,
    end_time: Nanos,
    last_time: Nanos,
    time: Nanos,
) -> bool {
    ||| last_time == time
    ||| exists|agent: int, entry: InboxEntry| #[trigger]
        on_its_way(inboxes, agent, entry) && due_by(entry, end_time) && entry.delivery_time == time
}

/// A run ends on `time`: the first pending moment past the end if there is
/// one, else the last moment that happened.
pub open spec fn ends_on(
    inboxes: Seq<Multiset<InboxEntry>>,
    end_time: Nanos,
    last_time: Nanos,
    beyond: Option<Nanos>,
    time: Nanos,
) -> bool {
    if exists|t: Nanos| pends_at(inboxes, end_time, beyond, t) {
        &&& pends_at(inboxes, end_time, beyond, time)
        &&& forall|t: Nanos| #[trigger] pends_at(inboxes, end_time, beyond, t) ==> time <= t
    } else {
        &&& happened_at(inboxes, end_time, last_time, time)
        &&& forall|t: Nanos| #[trigger] happened_at(inboxes, end_time, last_time, t) ==> t <= time
    }
}

/// Messages due by the end in the first `count` inboxes.
pub open spec fn due_in_all(
    inboxes: Seq<Multiset<InboxEntry>>,
    end_time: Nanos,
    count: nat,
) -> nat
    decreases count,
{
    if count == 0 {
        0
    } else {
        due_in_all(inboxes, end_time, (count - 1) as nat) + inboxes[count - 1].filter(
            |entry: InboxEntry| due_by(entry, end_time),
        ).len()
    }
}

/// What each agent hears at the end of a run: the messages that are due by the
/// end, in the order in which they are due.
pub open spec fn heard_by_the_end(
    inboxes: Seq<Multiset<InboxEntry>>,
    end_time: Nanos,
    heard: Seq<Seq<InboxEntry>>,
) -> bool {
    &&& heard.len() == inboxes.len()
    &&& forall|agent: int|
        #![trigger heard[agent]]
        0 <= agent < heard.len() ==> {
            &&& in_due_order(heard[agent])
            &&& heard[agent].to_multiset() == inboxes[agent].filter(
                |entry: InboxEntry| due_by(entry, end_time),
            )
        }
}

/// What the inboxes keep at the end of a run: the messages past the end.
pub open spec fn kept_past(
    inboxes: Seq<Multiset<InboxEntry>>,
    end_time: Nanos,
) -> Seq<Multiset<InboxEntry>> {
    Seq::new(
        inboxes.len(),
        |agent: int| inboxes[agent].filter(|entry: InboxEntry| !due_by(entry, end_time)),
    )
}

/// The records of the agents after they have heard messages, each its own.
pub open spec fn pasts_after_hearing(
    pasts: Seq<Option<Seq<Call>>>,
    heard: Seq<Seq<InboxEntry>>,
) -> Seq<Option<Seq<Call>>> {
    Seq::new(
        pasts.len(),
        |agent: int| extended(pasts[agent], heard_calls(agent as usize, heard[agent])),
    )
}

/// All trades, in the order of time.
pub open spec fn all_trades(exchanges: Seq<ExchangeView>) -> Seq<TradeRecord> {
    merged(exchanges.map_values(|exchange: ExchangeView| exchange.trades))
}

/// All quotes of the full log, in the order of time.
pub open spec fn all_snapshots(exchanges: Seq<ExchangeView>) -> Seq<L1Snapshot> {
    merged(exchanges.map_values(|exchange: ExchangeView| exchange.l1_snapshots))
}

/// All buckets, the open ones included, in the order of time.
pub open spec fn all_buckets(exchanges: Seq<ExchangeView>) -> Seq<L1Bucket> {
    merged(exchanges.map_values(|exchange: ExchangeView| exchange.bucket_flushed().l1_buckets))
}

/// The diagnostic rows of the first `count` exchanges, one exchange after the
/// other.
pub open spec fn flow_rows(
    exchanges: Seq<ExchangeView>,
    end_time: Nanos,
    count: nat,
) -> Seq<FlowBucketView>
    decreases count,
{
    if count == 0 {
        Seq::empty()
    } else {
        flow_rows(exchanges, end_time, (count - 1) as nat) + match exchanges[count - 1].flow {
            Some(flow) => flow.finished(end_time).buckets,
            None => Seq::empty(),
        }
    }
}

/// The diagnostic totals of the first `count` exchanges.
pub open spec fn flow_totals(exchanges: Seq<ExchangeView>, count: nat) -> Seq<FlowTotals>
    decreases count,
{
    if count == 0 {
        Seq::empty()
    } else {
        flow_totals(exchanges, (count - 1) as nat) + match exchanges[count - 1].flow {
            Some(flow) => seq![flow.totals],
            None => Seq::empty(),
        }
    }
}

/// The diagnostics of all exchanges can be summed up.
pub open spec fn flow_room(exchanges: Seq<ExchangeView>, end_time: Nanos) -> bool {
    forall|i: int|
        0 <= i < exchanges.len() ==> ((#[trigger] exchanges[i]).flow matches Some(flow)
            ==> flow.finish_room(end_time))
}

} // verus!
