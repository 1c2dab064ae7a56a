//! Discrete-event simulation kernel.

use crate::agent::{after_call, Agent, AgentAction, Call};
use crate::config::{RunOptions, SimulationConfig};
use crate::event::{Event, EventPayload, ExchangeMessage, OrderAction, RoutedMessage};
use crate::exchange::Exchange;
use crate::exchange_model::{ExchangeView, Outcome};
use crate::exchange_lemmas::lemma_in_order_exists;
use crate::flow::FlowBucket;
use crate::flow_model::FlowTotals;
use crate::inbox::{in_due_order, no_later, take_due, take_due_by};
use crate::kernel_lemmas::{
    lemma_closed_keeps, lemma_first, lemma_l1_logs, lemma_log_push, lemma_popped_valid,
    lemma_processed_keeps, lemma_pushed_valid, lemma_routed_agree, lemma_scheduled_agree,
    lemma_serves_none, lemma_serves_unique, logs_until, owners_within, sent_within, valid,
};
use crate::kernel_model::{
    all_buckets, all_snapshots, all_trades, due_by, due_in_all, ends_on, exchange_of, extended,
    first, flow_room, flow_rows, flow_totals, happened_at, heard_by_the_end, heard_calls, is_first,
    kept_past, market_snapshots, on_its_way, pasts_after_hearing, payload_within, pends_at, serves,
    wake_calls, Cast, Choices, FlowSetup, InboxEntry, KernelView, Setup,
};
use crate::latency::Latency;
use crate::merge::{law_merge_is_a_stable_sort, merge_by_time, time_ordered};
use crate::queue::EventQueue;
use crate::records::{L1Bucket, L1Snapshot, TradeRecord};
use crate::slot::Slot;
use crate::types::{AgentId, MarketSnapshot, Nanos, Symbol};
use vstd::multiset::Multiset;
use vstd::prelude::*;

verus! {

/// Discrete-event simulation kernel.
pub struct Kernel {
    queue: EventQueue,
    seq: u64,
    latency: Slot<Box<dyn Latency>>,
    exchanges: Vec<Exchange>,
    end_time: Nanos,
    /// One response inbox per agent.
    inboxes: Vec<Vec<InboxEntry>>,
    /// Messages applied from the inboxes.
    applied_messages: u64,
}

/// The calls that agents have a record of.
pub open spec fn pasts_of(agents: Seq<Box<dyn Agent>>) -> Seq<Option<Seq<Call>>> {
    agents.map_values(|agent: Box<dyn Agent>| agent.past())
}

/// The records that agents can come to have.
pub open spec fn strategies_of(agents: Seq<Box<dyn Agent>>) -> Seq<spec_fn(Seq<Call>) -> bool> {
    agents.map_values(|agent: Box<dyn Agent>| agent.strategy())
}

/// Those who decide in a run: the agents, and the delays that messages can get.
pub open spec fn cast_of(
    agents: Seq<Box<dyn Agent>>,
    to_exchange: spec_fn(AgentId, u64) -> bool,
    to_agent: spec_fn(AgentId, u64) -> bool,
) -> Cast {
    Cast { pasts: pasts_of(agents), strategies: strategies_of(agents), to_exchange, to_agent }
}

/// Exchanges as they are shown.
spec fn shown_exchanges(exchanges: Seq<Exchange>) -> Seq<ExchangeView> {
    exchanges.map_values(|exchange: Exchange| exchange@)
}

/// Inboxes as they are shown.
spec fn shown_inboxes(inboxes: Seq<Vec<InboxEntry>>) -> Seq<Multiset<InboxEntry>> {
    inboxes.map_values(|inbox: Vec<InboxEntry>| inbox@.to_multiset())
}

impl View for Kernel {
    type V = KernelView;

    closed spec fn view(&self) -> KernelView {
        KernelView {
            queue: self.queue@,
            seq: self.seq,
            exchanges: shown_exchanges(self.exchanges@),
            inboxes: shown_inboxes(self.inboxes@),
            end_time: self.end_time,
            applied_messages: self.applied_messages,
        }
    }
}

impl Kernel {
    /// Queue and exchanges are in order.
    pub closed spec fn stored_wf(&self) -> bool {
        &&& self.queue.wf()
        &&& forall|i: int| 0 <= i < self.exchanges@.len() ==> (#[trigger] self.exchanges@[i]).wf()
    }

    /// The simulation is valid at time `now`.
    pub open spec fn wf(&self, now: Nanos) -> bool {
        &&& self.stored_wf()
        &&& valid(self@, now)
    }

    /// The delays that messages can get are the same.
    spec fn sends_as(&self, other: Kernel) -> bool {
        &&& self.latency.item.to_exchange() == other.latency.item.to_exchange()
        &&& self.latency.item.to_agent() == other.latency.item.to_agent()
    }

    /// Those who decide.
    spec fn cast(&self, agents: Seq<Box<dyn Agent>>) -> Cast {
        cast_of(agents, self.latency.item.to_exchange(), self.latency.item.to_agent())
    }

    /// Schedule an event. Says whether there was room for it.
    fn push(&mut self, delivery_time: Nanos, payload: EventPayload, Ghost(now): Ghost<Nanos>) -> (ok:
        bool)
        requires
            old(self).wf(now),
            now <= delivery_time,
            payload_within(payload, old(self)@.inboxes.len()),
        ensures
            ok == old(self)@.push_room(),
            ok ==> final(self)@ == old(self)@.pushed(delivery_time, payload),
            ok ==> final(self).wf(now),
            final(self).sends_as(*old(self)),
    {
        let seq: u64 = self.seq;
        if seq == u64::MAX {
            return false;
        }
        proof {
            if self@.push_room() {
                lemma_pushed_valid(self@, now, delivery_time, payload);
            }
        }
        if !self.queue.try_push(delivery_time, seq, payload) {
            return false;
        }
        self.seq = seq + 1;
        true
    }

    /// Let an agent's action take its way. Says whether there was room for
    /// what it schedules, and the delay it was given.
    fn route_action(&mut self, agent_id: AgentId, action: AgentAction, now: Nanos) -> (routed: (
        bool,
        Ghost<u64>,
    ))
        requires
            old(self).wf(now),
            agent_id < old(self)@.inboxes.len(),
        ensures
            routed.0 == old(self)@.route_room(action, now, routed.1@),
            routed.0 ==> final(self)@ == old(self)@.routed(agent_id, action, now, routed.1@),
            routed.0 ==> final(self).wf(now),
            final(self).sends_as(*old(self)),
            !(action is ScheduleWakeUp) ==> (old(self).latency.item.to_exchange())(
                agent_id,
                routed.1@,
            ),
    {
        match action {
            AgentAction::SubmitOrder { symbol, order } => {
                let delay: u64 = self.latency.item.agent_to_exchange(agent_id);
                match now.checked_add(delay) {
                    Some(arrival) => {
                        let ok = self.push(
                            arrival,
                            EventPayload::OrderArrival { agent_id, symbol, order },
                            Ghost(now),
                        );
                        (ok, Ghost(delay))
                    },
                    None => (false, Ghost(delay)),
                }
            },
            AgentAction::CancelOrder { symbol, order_id } => {
                let delay: u64 = self.latency.item.agent_to_exchange(agent_id);
                let order = OrderAction::CancelOrder { order_id };
                match now.checked_add(delay) {
                    Some(arrival) => {
                        let ok = self.push(
                            arrival,
                            EventPayload::OrderArrival { agent_id, symbol, order },
                            Ghost(now),
                        );
                        (ok, Ghost(delay))
                    },
                    None => (false, Ghost(delay)),
                }
            },
            AgentAction::ScheduleWakeUp { delay_ns } => match now.checked_add(delay_ns) {
                Some(wake) => {
                    if wake <= self.end_time {
                        let ok = self.push(wake, EventPayload::WakeUp { agent_id }, Ghost(now));
                        (ok, Ghost(0))
                    } else {
                        (true, Ghost(0))
                    }
                },
                None => (false, Ghost(0)),
            },
        }
    }

    /// Let an agent's actions take their ways one after the other. Says
    /// whether there was room, and the delays they were given, up to the first
    /// one without room.
    fn route_actions(&mut self, agent_id: AgentId, actions: &Vec<AgentAction>, now: Nanos) -> (routed:
        (bool, Ghost<Seq<u64>>))
        requires
            old(self).wf(now),
            agent_id < old(self)@.inboxes.len(),
        ensures
            final(self).sends_as(*old(self)),
            delays_of_actions(*old(self), agent_id, actions@, routed.1@),
            routed.1@.len() <= actions@.len(),
            if routed.0 {
                &&& routed.1@.len() == actions@.len()
                &&& old(self)@.all_route_room(agent_id, actions@, routed.1@, now)
                &&& final(self)@ == old(self)@.all_routed(agent_id, actions@, routed.1@, now)
                &&& final(self).wf(now)
                &&& final(self)@.inboxes.len() == old(self)@.inboxes.len()
            } else {
                !old(self)@.all_route_room(
                    agent_id,
                    actions@.take(routed.1@.len() as int),
                    routed.1@,
                    now,
                )
            },
    {
        let ghost before = self@;
        let ghost mut delays: Seq<u64> = Seq::empty();
        let ghost all = actions@;
        assert(all.take(0) =~= Seq::<AgentAction>::empty());
        for i in 0..actions.len()
            invariant
                before == old(self)@,
                all == actions@,
                self.wf(now),
                self.sends_as(*old(self)),
                agent_id < before.inboxes.len(),
                self@.inboxes.len() == before.inboxes.len(),
                delays.len() == i,
                delays_of_actions(*old(self), agent_id, all, delays),
                before.all_route_room(agent_id, all.take(i as int), delays, now),
                self@ == before.all_routed(agent_id, all.take(i as int), delays, now),
        {
            let ghost done = all.take(i as int);
            let ghost next = all.take(i + 1);
            let ghost earlier = delays;
            let (ok, delay) = self.route_action(agent_id, actions[i], now);
            proof {
                delays = delays.push(delay@);
                assert(next.drop_last() =~= done);
                assert(next.last() == all[i as int]);
                lemma_routed_agree(before, agent_id, done, earlier, delays, now);
            }
            if !ok {
                return (false, Ghost(delays));
            }
        }
        assert(all.take(all.len() as int) =~= all);
        (true, Ghost(delays))
    }
}

/// The delays of an agent's actions are such as they can get.
spec fn delays_of_actions(
    kernel: Kernel,
    agent_id: AgentId,
    actions: Seq<AgentAction>,
    delays: Seq<u64>,
) -> bool {
    forall|j: int|
        0 <= j < delays.len() && !(actions[j] is ScheduleWakeUp) ==> (
        kernel.latency.item.to_exchange())(agent_id, #[trigger] delays[j])
}

/// The delays of messages are such as they can get.
spec fn delays_of_messages(
    kernel: Kernel,
    messages: Seq<RoutedMessage>,
    delays: Seq<u64>,
) -> bool {
    forall|j: int|
        0 <= j < delays.len() ==> (kernel.latency.item.to_agent())(
            messages[j].agent_id,
            #[trigger] delays[j],
        )
}

impl Kernel {
    /// Send one message on its way. Says whether there was room, and the delay
    /// it was given.
    fn schedule_message(&mut self, sent: RoutedMessage, now: Nanos) -> (scheduled: (
        bool,
        Ghost<u64>,
    ))
        requires
            old(self).wf(now),
            sent.agent_id < old(self)@.inboxes.len(),
        ensures
            final(self).sends_as(*old(self)),
            (old(self).latency.item.to_agent())(sent.agent_id, scheduled.1@),
            scheduled.0 == (old(self)@.seq < u64::MAX && now + scheduled.1@ <= u64::MAX),
            scheduled.0 ==> {
                let agent = sent.agent_id as int;
                let entry = InboxEntry {
                    delivery_time: (now + scheduled.1@) as u64,
                    seq: old(self)@.seq,
                    message: sent.message,
                };
                &&& final(self).wf(now)
                &&& final(self)@ == KernelView {
                    seq: (old(self)@.seq + 1) as u64,
                    inboxes: old(self)@.inboxes.update(
                        agent,
                        old(self)@.inboxes[agent].insert(entry),
                    ),
                    ..old(self)@
                }
            },
    {
        broadcast use vstd::seq_lib::group_to_multiset_ensures;

        let ghost before = self@;
        let delay: u64 = self.latency.item.exchange_to_agent(sent.agent_id);
        let seq: u64 = self.seq;
        let delivery_time: u64 = match now.checked_add(delay) {
            Some(time) => time,
            None => {
                return (false, Ghost(delay));
            },
        };
        if seq == u64::MAX {
            return (false, Ghost(delay));
        }
        self.seq = seq + 1;
        let entry = InboxEntry { delivery_time, seq, message: sent.message };
        let ghost inbox = self.inboxes@[sent.agent_id as int]@;
        self.inboxes[sent.agent_id].push(entry);
        proof {
            let agent = sent.agent_id as int;
            assert(self.inboxes@[agent]@ == inbox.push(entry));
            assert(self@.inboxes =~= before.inboxes.update(
                agent,
                before.inboxes[agent].insert(entry),
            ));
        }
        (true, Ghost(delay))
    }

    /// Send messages on their ways. Says whether there was room, and the
    /// delays they were given, up to the first one without room.
    fn schedule_messages(&mut self, messages: &Vec<RoutedMessage>, now: Nanos) -> (scheduled: (
        bool,
        Ghost<Seq<u64>>,
    ))
        requires
            old(self).wf(now),
            sent_within(messages@, old(self)@.inboxes.len()),
        ensures
            final(self).sends_as(*old(self)),
            delays_of_messages(*old(self), messages@, scheduled.1@),
            scheduled.1@.len() <= messages@.len(),
            if scheduled.0 {
                &&& scheduled.1@.len() == messages@.len()
                &&& old(self)@.schedule_room(messages@, scheduled.1@, now)
                &&& final(self)@ == old(self)@.scheduled(messages@, scheduled.1@, now)
                &&& final(self).wf(now)
                &&& final(self)@.inboxes.len() == old(self)@.inboxes.len()
            } else {
                !old(self)@.schedule_room(
                    messages@.take(scheduled.1@.len() as int),
                    scheduled.1@,
                    now,
                )
            },
    {
        let ghost before = self@;
        let ghost mut delays: Seq<u64> = Seq::empty();
        let ghost all = messages@;
        assert(all.take(0) =~= Seq::<RoutedMessage>::empty());
        for i in 0..messages.len()
            invariant
                before == old(self)@,
                all == messages@,
                self.wf(now),
                self.sends_as(*old(self)),
                sent_within(all, before.inboxes.len()),
                self@.inboxes.len() == before.inboxes.len(),
                delays.len() == i,
                delays_of_messages(*old(self), all, delays),
                before.schedule_room(all.take(i as int), delays, now),
                self@ == before.scheduled(all.take(i as int), delays, now),
        {
            let ghost done = all.take(i as int);
            let ghost next = all.take(i + 1);
            let ghost earlier = delays;
            assert(all[i as int].agent_id < before.inboxes.len());
            let (ok, delay) = self.schedule_message(messages[i], now);
            proof {
                delays = delays.push(delay@);
                assert(next.drop_last() =~= done);
                assert(next.last() == all[i as int]);
                lemma_scheduled_agree(before, done, earlier, delays, now);
            }
            if !ok {
                return (false, Ghost(delays));
            }
        }
        assert(all.take(all.len() as int) =~= all);
        (true, Ghost(delays))
    }

    /// The first exchange that serves a symbol.
    fn find_exchange_idx(&self, symbol: Symbol) -> (index: Option<usize>)
        ensures
            match index {
                Some(i) => i < self@.exchanges.len() && exchange_of(self@.exchanges, symbol)
                    == Some(i as int),
                None => exchange_of(self@.exchanges, symbol) is None,
            },
    {
        for i in 0..self.exchanges.len()
            invariant
                forall|j: int| 0 <= j < i ==> (#[trigger] self@.exchanges[j]).symbol != symbol,
        {
            if self.exchanges[i].symbol() == symbol {
                proof {
                    assert(self@.exchanges[i as int] == self.exchanges@[i as int]@);
                    assert(serves(self@.exchanges, symbol, i as int));
                    lemma_serves_unique(self@.exchanges, symbol, i as int);
                }
                return Some(i);
            }
            assert(self@.exchanges[i as int] == self.exchanges@[i as int]@);
        }
        proof {
            lemma_serves_none(self@.exchanges, symbol);
        }
        None
    }

    /// Apply the responses of an agent that are due strictly before its
    /// wakeup at (`now`, `wake_seq`), in the order in which they are due. Says
    /// whether they could be counted, and what was heard.
    fn deliver_due(
        &mut self,
        agent_id: AgentId,
        now: Nanos,
        wake_seq: u64,
        agents: &mut Vec<Box<dyn Agent>>,
    ) -> (delivered: (bool, Ghost<Seq<InboxEntry>>))
        requires
            old(self).wf(now),
            agent_id < old(self)@.inboxes.len(),
            old(agents)@.len() == old(self)@.inboxes.len(),
        ensures
            final(self).sends_as(*old(self)),
            final(agents)@.len() == old(agents)@.len(),
            delivered.0 == old(self)@.deliver_room(agent_id, now, wake_seq),
            delivered.0 ==> {
                &&& final(self)@ == old(self)@.delivered(agent_id, now, wake_seq)
                &&& final(self).wf(now)
                &&& in_due_order(delivered.1@)
                &&& delivered.1@.to_multiset() == old(self)@.due(agent_id, now, wake_seq)
                &&& final(self).cast(final(agents)@) == old(self).cast(old(agents)@).called(
                    agent_id,
                    heard_calls(agent_id, delivered.1@),
                )
            },
    {
        broadcast use vstd::seq_lib::group_to_multiset_ensures;

        let ghost before = self@;
        let ghost cast = self.cast(agents@);
        let due = take_due(&mut self.inboxes[agent_id], now, wake_seq);
        proof {
            assert(due@.len() == before.due(agent_id, now, wake_seq).len());
        }
        let count: usize = due.len();
        let applied: u64 = match self.applied_messages.checked_add(count as u64) {
            Some(applied) => applied,
            None => {
                return (false, Ghost(due@));
            },
        };
        tell_all(agents, agent_id, &due);
        self.applied_messages = applied;
        proof {
            let after = before.delivered(agent_id, now, wake_seq);
            assert(self@.inboxes =~= after.inboxes);
            assert(self@ =~= after);
            assert(self.cast(agents@) =~= cast.called(agent_id, heard_calls(agent_id, due@)));
        }
        (true, Ghost(due@))
    }
}

/// Let an agent hear a message.
fn tell(agents: &mut Vec<Box<dyn Agent>>, agent_id: AgentId, time: Nanos, message: ExchangeMessage)
    requires
        agent_id < old(agents)@.len(),
    ensures
        final(agents)@.len() == old(agents)@.len(),
        strategies_of(final(agents)@) == strategies_of(old(agents)@),
        pasts_of(final(agents)@) == pasts_of(old(agents)@).update(
            agent_id as int,
            after_call(
                pasts_of(old(agents)@)[agent_id as int],
                Call::Heard { time, agent_id, message },
            ),
        ),
{
    let ghost before = agents@;
    agents[agent_id].on_exchange_message(time, agent_id, message);
    proof {
        let at = agent_id as int;
        assert(forall|j: int| 0 <= j < before.len() && j != at ==> agents@[j] == before[j]);
        assert(strategies_of(agents@) =~= strategies_of(before));
        assert(pasts_of(agents@) =~= pasts_of(before).update(at, agents@[at].past()));
    }
}

/// Wake an agent and let it see the markets.
fn wake(
    agents: &mut Vec<Box<dyn Agent>>,
    agent_id: AgentId,
    time: Nanos,
    snapshots: &Vec<MarketSnapshot>,
    actions: &mut Vec<AgentAction>,
)
    requires
        agent_id < old(agents)@.len(),
        old(actions)@.len() == 0,
    ensures
        final(agents)@.len() == old(agents)@.len(),
        strategies_of(final(agents)@) == strategies_of(old(agents)@),
        pasts_of(final(agents)@) == pasts_of(old(agents)@).update(
            agent_id as int,
            after_call(
                pasts_of(old(agents)@)[agent_id as int],
                Call::Woke {
                    time,
                    agent_id,
                    snapshots: snapshots@,
                    actions: final(actions)@,
                },
            ),
        ),
        pasts_of(final(agents)@)[agent_id as int] matches Some(past) ==> (strategies_of(
            final(agents)@,
        )[agent_id as int])(past),
{
    let ghost before = agents@;
    agents[agent_id].wakeup_into(time, agent_id, snapshots, actions);
    proof {
        let at = agent_id as int;
        assert(actions@.skip(0) =~= actions@);
        assert(forall|j: int| 0 <= j < before.len() && j != at ==> agents@[j] == before[j]);
        assert(strategies_of(agents@) =~= strategies_of(before));
        assert(pasts_of(agents@) =~= pasts_of(before).update(at, agents@[at].past()));
    }
}

/// Let an agent hear messages, one after the other.
fn tell_all(agents: &mut Vec<Box<dyn Agent>>, agent_id: AgentId, entries: &Vec<InboxEntry>)
    requires
        agent_id < old(agents)@.len(),
    ensures
        final(agents)@.len() == old(agents)@.len(),
        strategies_of(final(agents)@) == strategies_of(old(agents)@),
        pasts_of(final(agents)@) == pasts_of(old(agents)@).update(
            agent_id as int,
            extended(pasts_of(old(agents)@)[agent_id as int], heard_calls(agent_id, entries@)),
        ),
{
    let ghost strategies = strategies_of(agents@);
    let ghost pasts = pasts_of(agents@);
    let ghost at = agent_id as int;
    let ghost nothing = heard_calls(agent_id, entries@.take(0));
    proof {
        assert(nothing =~= Seq::<Call>::empty());
        if let Some(past) = pasts[at] {
            assert(past + nothing =~= past);
        }
        assert(pasts.update(at, extended(pasts[at], nothing)) =~= pasts);
    }
    for i in 0..entries.len()
        invariant
            agents@.len() == old(agents)@.len(),
            agent_id < agents@.len(),
            at == agent_id,
            pasts.len() == agents@.len(),
            strategies_of(agents@) == strategies,
            pasts_of(agents@) == pasts.update(
                at,
                extended(pasts[at], heard_calls(agent_id, entries@.take(i as int))),
            ),
    {
        let entry: InboxEntry = entries[i];
        let ghost heard = heard_calls(agent_id, entries@.take(i as int));
        let ghost more = heard_calls(agent_id, entries@.take(i + 1));
        tell(agents, agent_id, entry.delivery_time, entry.message);
        proof {
            let call = Call::Heard {
                time: entry.delivery_time,
                agent_id,
                message: entry.message,
            };
            assert(more =~= heard.push(call));
            if let Some(past) = pasts[at] {
                assert((past + heard).push(call) =~= past + more);
            }
            assert(pasts_of(agents@) =~= pasts.update(at, extended(pasts[at], more)));
        }
    }
    assert(entries@.take(entries@.len() as int) =~= entries@);
}

impl Kernel {
    /// What an exchange did is entered, and its messages go out. Says whether
    /// there was room, and the delays the messages were given.
    fn finish_exchange(
        &mut self,
        index: usize,
        messages: &Vec<RoutedMessage>,
        now: Nanos,
        Ghost(before): Ghost<KernelView>,
        Ghost(outcome): Ghost<Outcome>,
    ) -> (scheduled: (bool, Ghost<Seq<u64>>))
        requires
            old(self).stored_wf(),
            valid(before, now),
            index < before.exchanges.len(),
            old(self)@ == (KernelView {
                exchanges: before.exchanges.update(index as int, outcome.exchange),
                ..before
            }),
            messages@ == outcome.messages,
            outcome.exchange.wf(),
            owners_within(outcome.exchange, before.inboxes.len()),
            logs_until(outcome.exchange, now),
            sent_within(outcome.messages, before.inboxes.len()),
        ensures
            final(self).sends_as(*old(self)),
            delays_of_messages(*old(self), outcome.messages, scheduled.1@),
            scheduled.1@.len() <= outcome.messages.len(),
            if scheduled.0 {
                &&& scheduled.1@.len() == outcome.messages.len()
                &&& before.exchange_room(index as int, outcome, scheduled.1@, now)
                &&& final(self)@ == before.exchange_did(
                    index as int,
                    outcome,
                    scheduled.1@,
                    now,
                )
                &&& final(self).wf(now)
                &&& final(self)@.inboxes.len() == before.inboxes.len()
            } else {
                !before.exchange_room(
                    index as int,
                    Outcome {
                        messages: outcome.messages.take(scheduled.1@.len() as int),
                        ..outcome
                    },
                    scheduled.1@,
                    now,
                )
            },
    {
        assert forall|i: int| 0 <= i < self@.exchanges.len() implies {
            &&& (#[trigger] self@.exchanges[i]).wf()
            &&& owners_within(self@.exchanges[i], self@.inboxes.len())
            &&& logs_until(self@.exchanges[i], now)
        } by {
            if i != index {
                assert(before.exchanges[i].wf());
            }
        }
        self.schedule_messages(messages, now)
    }

    /// Wake an agent: it hears what is due, sees the markets, and its actions
    /// take their ways. Says whether all of it could be represented, and what
    /// was decided.
    fn wake_agent(
        &mut self,
        agent_id: AgentId,
        now: Nanos,
        seq: u64,
        agents: &mut Vec<Box<dyn Agent>>,
    ) -> (done: (bool, Ghost<Choices>))
        requires
            old(self).wf(now),
            agent_id < old(self)@.inboxes.len(),
            old(agents)@.len() == old(self)@.inboxes.len(),
        ensures
            ({
                let payload = EventPayload::WakeUp { agent_id };
                let cast = old(self).cast(old(agents)@);
                &&& final(agents)@.len() == old(agents)@.len()
                &&& if done.0 {
                    &&& old(self)@.dispatch_room(payload, now, seq, done.1@)
                    &&& old(self)@.decided_by(cast, payload, now, seq, done.1@)
                    &&& final(self)@ == old(self)@.dispatched(payload, now, seq, done.1@)
                    &&& final(self).wf(now)
                    &&& final(self)@.inboxes.len() == old(self)@.inboxes.len()
                    &&& final(self).cast(final(agents)@) == cast.after_event(
                        old(self)@.exchanges,
                        payload,
                        now,
                        done.1@,
                    )
                } else {
                    old(self)@.stuck_on(cast, payload, now, seq, done.1@)
                }
            }),
    {
        let ghost before = self@;
        let ghost cast = self.cast(agents@);
        let (ok, heard) = self.deliver_due(agent_id, now, seq, agents);
        if !ok {
            return (
                false,
                Ghost(Choices { heard: heard@, actions: Seq::empty(), delays: Seq::empty() }),
            );
        }
        let snapshots = self.snapshots();
        let mut actions: Vec<AgentAction> = Vec::new();
        wake(agents, agent_id, now, &snapshots, &mut actions);
        let ghost awake = self.cast(agents@);
        let (ok, delays) = self.route_actions(agent_id, &actions, now);
        let ghost choices = Choices { heard: heard@, actions: actions@, delays: delays@ };
        proof {
            let heard_all = heard_calls(agent_id, heard@);
            let calls = wake_calls(before.exchanges, agent_id, now, choices);
            let at = agent_id as int;
            if let Some(past) = cast.pasts[at] {
                assert((past + heard_all).push(calls.last()) =~= past + calls);
            }
            assert(awake =~= cast.called(agent_id, calls));
            assert(awake.may_end(agent_id));
            assert(before.woken_by(cast, agent_id, now, seq, choices));
        }
        (ok, Ghost(choices))
    }

    /// Let an exchange take a request, and its messages go out. Says whether
    /// all of it could be represented, and the delays the messages were given.
    fn arrive(
        &mut self,
        agent_id: AgentId,
        symbol: Symbol,
        order: OrderAction,
        now: Nanos,
        Ghost(seq): Ghost<u64>,
        Ghost(cast): Ghost<Cast>,
    ) -> (done: (bool, Ghost<Choices>))
        requires
            old(self).wf(now),
            agent_id < old(self)@.inboxes.len(),
            cast.to_agent == old(self).latency.item.to_agent(),
        ensures
            final(self).sends_as(*old(self)),
            ({
                let payload = EventPayload::OrderArrival { agent_id, symbol, order };
                if done.0 {
                    &&& old(self)@.dispatch_room(payload, now, seq, done.1@)
                    &&& old(self)@.decided_by(cast, payload, now, seq, done.1@)
                    &&& final(self)@ == old(self)@.dispatched(payload, now, seq, done.1@)
                    &&& final(self).wf(now)
                    &&& final(self)@.inboxes.len() == old(self)@.inboxes.len()
                } else {
                    old(self)@.stuck_on(cast, payload, now, seq, done.1@)
                }
            }),
    {
        let ghost before = self@;
        let ghost nothing = Choices {
            heard: Seq::empty(),
            actions: Seq::empty(),
            delays: Seq::empty(),
        };
        let index = match self.find_exchange_idx(symbol) {
            Some(index) => index,
            None => {
                return (true, Ghost(nothing));
            },
        };
        let ghost exchange = before.exchanges[index as int];
        let ghost outcome = exchange.processed(agent_id, order, now);
        let mut messages: Vec<RoutedMessage> = Vec::new();
        proof {
            assert(exchange == self.exchanges@[index as int]@);
            if exchange.process_room(agent_id, order, now) {
                lemma_processed_keeps(exchange, agent_id, order, now, before.inboxes.len());
            }
        }
        if !self.exchanges[index].try_process_into(agent_id, order, now, &mut messages) {
            return (false, Ghost(nothing));
        }
        proof {
            assert(messages@ =~= outcome.messages);
            assert(self@.exchanges =~= before.exchanges.update(index as int, outcome.exchange));
        }
        let (ok, delays) = self.finish_exchange(
            index,
            &messages,
            now,
            Ghost(before),
            Ghost(outcome),
        );
        proof {
            assert(cast.may_delay_messages(outcome.messages, delays@));
        }
        (ok, Ghost(Choices { delays: delays@, ..nothing }))
    }

    /// Close a market, and its messages go out. Says whether all of it could be
    /// represented, and the delays the messages were given.
    fn close_market(
        &mut self,
        symbol: Symbol,
        now: Nanos,
        Ghost(seq): Ghost<u64>,
        Ghost(cast): Ghost<Cast>,
    ) -> (done: (bool, Ghost<Choices>))
        requires
            old(self).wf(now),
            cast.to_agent == old(self).latency.item.to_agent(),
        ensures
            final(self).sends_as(*old(self)),
            ({
                let payload = EventPayload::MarketClose { symbol };
                if done.0 {
                    &&& old(self)@.dispatch_room(payload, now, seq, done.1@)
                    &&& old(self)@.decided_by(cast, payload, now, seq, done.1@)
                    &&& final(self)@ == old(self)@.dispatched(payload, now, seq, done.1@)
                    &&& final(self).wf(now)
                    &&& final(self)@.inboxes.len() == old(self)@.inboxes.len()
                } else {
                    old(self)@.stuck_on(cast, payload, now, seq, done.1@)
                }
            }),
    {
        let ghost before = self@;
        let ghost nothing = Choices {
            heard: Seq::empty(),
            actions: Seq::empty(),
            delays: Seq::empty(),
        };
        let index = match self.find_exchange_idx(symbol) {
            Some(index) => index,
            None => {
                return (true, Ghost(nothing));
            },
        };
        let ghost exchange = before.exchanges[index as int];
        let ghost outcome = exchange.closed(now);
        let mut messages: Vec<RoutedMessage> = Vec::new();
        proof {
            assert(exchange == self.exchanges@[index as int]@);
            lemma_in_order_exists(exchange.resting.dom());
            if exchange.close_room(now) {
                lemma_closed_keeps(exchange, now, before.inboxes.len());
            }
        }
        if !self.exchanges[index].try_close_into(now, &mut messages) {
            return (false, Ghost(nothing));
        }
        proof {
            assert(messages@ =~= outcome.messages);
            assert(self@.exchanges =~= before.exchanges.update(index as int, outcome.exchange));
        }
        let (ok, delays) = self.finish_exchange(
            index,
            &messages,
            now,
            Ghost(before),
            Ghost(outcome),
        );
        proof {
            assert(cast.may_delay_messages(outcome.messages, delays@));
        }
        (ok, Ghost(Choices { delays: delays@, ..nothing }))
    }

    /// Let an event happen. Says whether everything that it brings about could
    /// be represented, and what agents and delays decided.
    #[verifier::rlimit(60)]
    fn dispatch(
        &mut self,
        payload: EventPayload,
        now: Nanos,
        seq: u64,
        agents: &mut Vec<Box<dyn Agent>>,
    ) -> (done: (bool, Ghost<Choices>))
        requires
            old(self).wf(now),
            payload_within(payload, old(self)@.inboxes.len()),
            old(agents)@.len() == old(self)@.inboxes.len(),
        ensures
            ({
                let cast = old(self).cast(old(agents)@);
                &&& final(agents)@.len() == old(agents)@.len()
                &&& if done.0 {
                    &&& old(self)@.dispatch_room(payload, now, seq, done.1@)
                    &&& old(self)@.decided_by(cast, payload, now, seq, done.1@)
                    &&& final(self)@ == old(self)@.dispatched(payload, now, seq, done.1@)
                    &&& final(self).wf(now)
                    &&& final(self)@.inboxes.len() == old(self)@.inboxes.len()
                    &&& final(self).cast(final(agents)@) == cast.after_event(
                        old(self)@.exchanges,
                        payload,
                        now,
                        done.1@,
                    )
                } else {
                    old(self)@.stuck_on(cast, payload, now, seq, done.1@)
                }
            }),
    {
        let ghost cast = self.cast(agents@);
        let ghost nothing = Choices {
            heard: Seq::empty(),
            actions: Seq::empty(),
            delays: Seq::empty(),
        };
        match payload {
            EventPayload::WakeUp { agent_id } => self.wake_agent(agent_id, now, seq, agents),
            EventPayload::OrderArrival { agent_id, symbol, order } => self.arrive(
                agent_id,
                symbol,
                order,
                now,
                Ghost(seq),
                Ghost(cast),
            ),
            EventPayload::ExchangeResponse { agent_id, response } => {
                tell(agents, agent_id, now, response);
                proof {
                    let call = Call::Heard { time: now, agent_id, message: response };
                    if let Some(past) = cast.pasts[agent_id as int] {
                        assert(past.push(call) =~= past + seq![call]);
                    }
                    assert(self.cast(agents@) =~= cast.called(agent_id, seq![call]));
                }
                (true, Ghost(nothing))
            },
            EventPayload::MarketOpen { symbol } => {
                let index = match self.find_exchange_idx(symbol) {
                    Some(index) => index,
                    None => {
                        return (true, Ghost(nothing));
                    },
                };
                let ok = self.open_exchange(index, now);
                (ok, Ghost(nothing))
            },
            EventPayload::MarketClose { symbol } => self.close_market(
                symbol,
                now,
                Ghost(seq),
                Ghost(cast),
            ),
        }
    }

    /// Open one exchange. Says whether its bucket could take the quotes.
    fn open_exchange(&mut self, index: usize, now: Nanos) -> (ok: bool)
        requires
            old(self).wf(now),
            index < old(self)@.exchanges.len(),
        ensures
            final(self).sends_as(*old(self)),
            ok == old(self)@.exchanges[index as int].l1_room(now),
            ok ==> final(self).wf(now),
            ok ==> final(self)@ == (KernelView {
                exchanges: old(self)@.exchanges.update(
                    index as int,
                    old(self)@.exchanges[index as int].opened(now),
                ),
                ..old(self)@
            }),
    {
        let ghost before = self@;
        let ghost exchange = before.exchanges[index as int];
        proof {
            assert(exchange == self.exchanges@[index as int]@);
        }
        if !self.exchanges[index].try_open(now) {
            return false;
        }
        proof {
            let open = ExchangeView { is_open: true, ..exchange };
            lemma_l1_logs(open, now);
            assert(open.with_l1(now).resting == exchange.resting);
            assert(self@.exchanges =~= before.exchanges.update(
                index as int,
                exchange.opened(now),
            ));
            assert(self.exchanges@[index as int].wf());
            assert forall|i: int| 0 <= i < self@.exchanges.len() implies {
                &&& (#[trigger] self@.exchanges[i]).wf()
                &&& owners_within(self@.exchanges[i], self@.inboxes.len())
                &&& logs_until(self@.exchanges[i], now)
            } by {
                if i != index {
                    assert(before.exchanges[i].wf());
                }
            }
        }
        true
    }

    /// The top of each book, in the order of the exchanges.
    fn snapshots(&self) -> (snapshots: Vec<MarketSnapshot>)
        requires
            self.stored_wf(),
        ensures
            snapshots@ == market_snapshots(self@.exchanges),
    {
        let mut snapshots: Vec<MarketSnapshot> = Vec::new();
        for i in 0..self.exchanges.len()
            invariant
                self.stored_wf(),
                snapshots@.len() == i,
                forall|j: int|
                    0 <= j < i ==> #[trigger] snapshots@[j] == self@.exchanges[j].snapshot(),
        {
            assert(self@.exchanges[i as int] == self.exchanges@[i as int]@);
            snapshots.push(self.exchanges[i].snapshot());
        }
        assert(snapshots@ =~= market_snapshots(self@.exchanges));
        snapshots
    }
}

/// What became of one turn of the event loop.
enum Turn {
    /// An event happened at this time.
    Happened(Nanos),
    /// Nothing more happens by the end; the next event, if there is one, is at
    /// this time.
    Over(Option<Nanos>),
    /// Something that the event brings about cannot be represented.
    Stuck,
}

/// How the event loop ended.
struct LoopEnd {
    /// Events that happened.
    count: u64,
    /// Time of the last of them.
    last_time: Nanos,
    /// Time of the first event past the end.
    beyond: Option<Nanos>,
}

impl Kernel {
    /// Let the next event happen, unless it is past the end.
    fn turn(&mut self, agents: &mut Vec<Box<dyn Agent>>, Ghost(now): Ghost<Nanos>) -> (turned: (
        Turn,
        Ghost<Choices>,
    ))
        requires
            old(self).wf(now),
            old(agents)@.len() == old(self)@.inboxes.len(),
        ensures
            final(agents)@.len() == old(agents)@.len(),
            match turned.0 {
                Turn::Happened(time) => {
                    &&& old(self)@.can_step(turned.1@)
                    &&& old(self)@.next_decided_by(old(self).cast(old(agents)@), turned.1@)
                    &&& final(self).cast(final(agents)@) == old(self)@.next_cast(
                        old(self).cast(old(agents)@),
                        turned.1@,
                    )
                    &&& final(self)@ == old(self)@.stepped(turned.1@)
                    &&& final(self).wf(time)
                    &&& final(self)@.inboxes.len() == old(self)@.inboxes.len()
                    &&& time == first(old(self)@.queue).delivery_time
                },
                Turn::Over(beyond) => {
                    &&& old(self)@.is_over()
                    &&& beyond == old(self)@.next_time()
                    &&& final(self)@ == KernelView { queue: final(self)@.queue, ..old(self)@ }
                    &&& final(self).stored_wf()
                },
                Turn::Stuck => old(self)@.next_stuck(old(self).cast(old(agents)@), turned.1@),
            },
    {
        let ghost state = self@;
        let ghost nothing = Choices {
            heard: Seq::empty(),
            actions: Seq::empty(),
            delays: Seq::empty(),
        };
        match self.queue.pop() {
            None => {
                assert(state.queue.len() == 0);
                (Turn::Over(None), Ghost(nothing))
            },
            Some((time, seq, payload)) => {
                let ghost event = Event { delivery_time: time, seq, payload };
                proof {
                    assert(is_first(state.queue, event));
                    lemma_first(state, now, event);
                    lemma_popped_valid(state, now, event);
                    vstd::multiset::lemma_multiset_empty_len(state.queue);
                    assert(state.queue.count(event) > 0);
                    assert(self@ =~= (KernelView { queue: state.queue.remove(event), ..state }));
                }
                if time > self.end_time {
                    return (Turn::Over(Some(time)), Ghost(nothing));
                }
                let (ok, choices) = self.dispatch(payload, time, seq, agents);
                if ok {
                    (Turn::Happened(time), choices)
                } else {
                    (Turn::Stuck, choices)
                }
            },
        }
    }

    /// Let events happen in the order in which they are due, up to the end.
    /// `None` means that something an event brings about could not be
    /// represented. The trace says what agents and delays decided.
    #[verifier::rlimit(60)]
    fn event_loop(&mut self, agents: &mut Vec<Box<dyn Agent>>, Ghost(start): Ghost<Nanos>) -> (ended:
        (Option<LoopEnd>, Ghost<Seq<Choices>>))
        requires
            old(self).wf(start),
            old(agents)@.len() == old(self)@.inboxes.len(),
        ensures
            final(agents)@.len() == old(agents)@.len(),
            ({
                let trace = ended.1@;
                let last = old(self)@.after(trace);
                match ended.0 {
                    Some(end) => {
                        &&& old(self)@.runs(trace)
                        &&& old(self)@.follows(old(self).cast(old(agents)@), trace)
                        &&& last.is_over()
                        &&& end.count == trace.len()
                        &&& end.last_time == old(self)@.last_time(trace)
                        &&& end.beyond == last.next_time()
                        &&& final(self)@ == KernelView { queue: final(self)@.queue, ..last }
                        &&& final(self).stored_wf()
                        &&& exists|now: Nanos| valid(last, now)
                        &&& last.inboxes.len() == old(self)@.inboxes.len()
                    },
                    None => old(self)@.gets_stuck(old(self).cast(old(agents)@), trace),
                }
            }),
    {
        let ghost first_state = self@;
        let ghost cast = self.cast(agents@);
        let ghost mut trace: Seq<Choices> = Seq::empty();
        let ghost mut now: Nanos = start;
        let mut count: u64 = 0;
        let mut last_time: u64 = 0;
        loop
            invariant
                first_state == old(self)@,
                self.wf(now),
                agents@.len() == old(agents)@.len(),
                agents@.len() == self@.inboxes.len(),
                self@.inboxes.len() == first_state.inboxes.len(),
                first_state.runs(trace),
                cast == old(self).cast(old(agents)@),
                first_state.follows(cast, trace),
                self.cast(agents@) == first_state.cast_after(cast, trace),
                self@ == first_state.after(trace),
                count == trace.len(),
                last_time == first_state.last_time(trace),
            decreases u64::MAX - count,
        {
            let ghost state = self@;
            let (turn, choices) = self.turn(agents, Ghost(now));
            let ghost longer = trace.push(choices@);
            assert(longer.drop_last() =~= trace);
            match turn {
                Turn::Happened(time) => {
                    if count == u64::MAX {
                        return (None, Ghost(longer));
                    }
                    last_time = time;
                    count = count + 1;
                    proof {
                        now = time;
                        trace = longer;
                    }
                },
                Turn::Over(beyond) => {
                    assert(valid(state, now));
                    return (Some(LoopEnd { count, last_time, beyond }), Ghost(trace));
                },
                Turn::Stuck => {
                    return (None, Ghost(longer));
                },
            }
        }
    }
}

/// The time of the last thing known to have happened, over the first `count`
/// agents.
spec fn latest(
    inboxes: Seq<Multiset<InboxEntry>>,
    end_time: Nanos,
    last_time: Nanos,
    count: int,
    time: Nanos,
) -> bool {
    &&& last_time <= time
    &&& forall|agent: int, entry: InboxEntry| #[trigger]
        on_its_way(inboxes, agent, entry) && agent < count && due_by(entry, end_time)
            ==> entry.delivery_time <= time
    &&& last_time == time || exists|agent: int, entry: InboxEntry| #[trigger]
        on_its_way(inboxes, agent, entry) && agent < count && due_by(entry, end_time)
            && entry.delivery_time == time
}

/// The time of the first thing known to be pending, over the first `count`
/// agents.
spec fn earliest(
    inboxes: Seq<Multiset<InboxEntry>>,
    end_time: Nanos,
    beyond: Option<Nanos>,
    count: int,
    time: Option<Nanos>,
) -> bool {
    match time {
        Some(time) => {
            &&& beyond matches Some(t) ==> time <= t
            &&& forall|agent: int, entry: InboxEntry| #[trigger]
                on_its_way(inboxes, agent, entry) && agent < count && !due_by(entry, end_time)
                    ==> time <= entry.delivery_time
            &&& beyond == Some(time) || exists|agent: int, entry: InboxEntry| #[trigger]
                on_its_way(inboxes, agent, entry) && agent < count && !due_by(entry, end_time)
                    && entry.delivery_time == time
        },
        None => {
            &&& beyond is None
            &&& forall|agent: int, entry: InboxEntry| #[trigger]
                on_its_way(inboxes, agent, entry) && agent < count ==> due_by(entry, end_time)
        },
    }
}

/// Over all agents, the two say on which time a run ends.
proof fn lemma_ends_on(
    inboxes: Seq<Multiset<InboxEntry>>,
    end_time: Nanos,
    last_time: Nanos,
    beyond: Option<Nanos>,
    last_applied: Nanos,
    first_beyond: Option<Nanos>,
)
    requires
        latest(inboxes, end_time, last_time, inboxes.len() as int, last_applied),
        earliest(inboxes, end_time, beyond, inboxes.len() as int, first_beyond),
    ensures
        ends_on(
            inboxes,
            end_time,
            last_time,
            beyond,
            match first_beyond {
                Some(time) => time,
                None => last_applied,
            },
        ),
{
    match first_beyond {
        Some(time) => {
            assert(pends_at(inboxes, end_time, beyond, time));
        },
        None => {
            assert forall|t: Nanos| !pends_at(inboxes, end_time, beyond, t) by {}
            assert(happened_at(inboxes, end_time, last_time, last_applied));
        },
    }
}

/// One more agent's inbox, split into what is due and what is not.
proof fn lemma_one_more_inbox(
    inboxes: Seq<Multiset<InboxEntry>>,
    end_time: Nanos,
    agent: int,
    due: Seq<InboxEntry>,
    rest: Seq<InboxEntry>,
    last_time: Nanos,
    beyond: Option<Nanos>,
    last_applied: Nanos,
    first_beyond: Option<Nanos>,
)
    requires
        0 <= agent < inboxes.len(),
        in_due_order(due),
        in_due_order(rest),
        due.to_multiset() == inboxes[agent].filter(|entry: InboxEntry| due_by(entry, end_time)),
        rest.to_multiset() == inboxes[agent].filter(|entry: InboxEntry| !due_by(entry, end_time)),
        latest(inboxes, end_time, last_time, agent, last_applied),
        earliest(inboxes, end_time, beyond, agent, first_beyond),
    ensures
        ({
            let later = if due.len() > 0 && due.last().delivery_time > last_applied {
                due.last().delivery_time
            } else {
                last_applied
            };
            let sooner = if rest.len() > 0 && (first_beyond is None || rest[0].delivery_time
                < first_beyond->0) {
                Some(rest[0].delivery_time)
            } else {
                first_beyond
            };
            &&& latest(inboxes, end_time, last_time, agent + 1, later)
            &&& earliest(inboxes, end_time, beyond, agent + 1, sooner)
        }),
{
    broadcast use vstd::multiset::group_multiset_axioms;

    let inbox = inboxes[agent];
    assert forall|entry: InboxEntry| #[trigger] due.contains(entry) <==> inbox.contains(entry)
        && due_by(entry, end_time) by {
        vstd::seq_lib::to_multiset_contains(due, entry);
    }
    assert forall|entry: InboxEntry| #[trigger] rest.contains(entry) <==> inbox.contains(entry)
        && !due_by(entry, end_time) by {
        vstd::seq_lib::to_multiset_contains(rest, entry);
    }
    assert forall|entry: InboxEntry|
        on_its_way(inboxes, agent, entry) && due_by(entry, end_time) implies due.len() > 0
        && entry.delivery_time <= due.last().delivery_time by {
        assert(due.contains(entry));
        let i = choose|i: int| 0 <= i < due.len() && due[i] == entry;
        assert(no_later(due[i], due[due.len() - 1]));
    }
    assert forall|entry: InboxEntry|
        on_its_way(inboxes, agent, entry) && !due_by(entry, end_time) implies rest.len() > 0
        && rest[0].delivery_time <= entry.delivery_time by {
        assert(rest.contains(entry));
        let i = choose|i: int| 0 <= i < rest.len() && rest[i] == entry;
        assert(no_later(rest[0], rest[i]));
    }
    if due.len() > 0 {
        assert(due.contains(due.last()));
        assert(on_its_way(inboxes, agent, due.last()));
    }
    if rest.len() > 0 {
        assert(rest.contains(rest[0]));
        assert(on_its_way(inboxes, agent, rest[0]));
    }
}

impl Kernel {
    /// Apply every response due by the end that no wakeup consumed, to its
    /// agent and in the order in which they are due, and give the time the run
    /// ends on: the first pending moment past the end when one exists, else
    /// the last moment that happened. `None` means that the responses cannot
    /// be counted. What the agents heard comes along.
    #[verifier::rlimit(60)]
    fn drain_inboxes(
        &mut self,
        last_time: Nanos,
        beyond: Option<Nanos>,
        agents: &mut Vec<Box<dyn Agent>>,
    ) -> (drained: (Option<Nanos>, Ghost<Seq<Seq<InboxEntry>>>))
        requires
            old(agents)@.len() == old(self)@.inboxes.len(),
        ensures
            ({
                let k = old(self)@;
                let heard = drained.1@;
                let applied = k.applied_messages + due_in_all(k.inboxes, k.end_time, k.inboxes.len());
                match drained.0 {
                    Some(time) => {
                        &&& ends_on(k.inboxes, k.end_time, last_time, beyond, time)
                        &&& applied <= u64::MAX
                        &&& heard_by_the_end(k.inboxes, k.end_time, heard)
                        &&& pasts_of(final(agents)@) == pasts_after_hearing(
                            pasts_of(old(agents)@),
                            heard,
                        )
                        &&& strategies_of(final(agents)@) == strategies_of(old(agents)@)
                        &&& final(self)@ == KernelView {
                            applied_messages: applied as u64,
                            inboxes: kept_past(k.inboxes, k.end_time),
                            ..k
                        }
                        &&& old(self).stored_wf() ==> final(self).stored_wf()
                    },
                    None => applied > u64::MAX,
                }
            }),
    {
        let ghost k = self@;
        let ghost pasts = pasts_of(agents@);
        let ghost strategies = strategies_of(agents@);
        let ghost mut heard: Seq<Seq<InboxEntry>> = Seq::empty();
        let mut last_applied: u64 = last_time;
        let mut first_beyond: Option<Nanos> = beyond;
        let count: usize = self.inboxes.len();
        for agent_id in 0..count
            invariant
                k == old(self)@,
                count == k.inboxes.len(),
                self.inboxes@.len() == count,
                agents@.len() == count,
                self.exchanges == old(self).exchanges,
                self.queue == old(self).queue,
                self@ == (KernelView {
                    applied_messages: self@.applied_messages,
                    inboxes: self@.inboxes,
                    ..k
                }),
                self.applied_messages == k.applied_messages + due_in_all(
                    k.inboxes,
                    k.end_time,
                    agent_id as nat,
                ),
                forall|j: int|
                    agent_id <= j < count ==> (#[trigger] self.inboxes@[j])@.to_multiset()
                        == k.inboxes[j],
                forall|j: int|
                    0 <= j < agent_id ==> (#[trigger] self.inboxes@[j])@.to_multiset()
                        == k.inboxes[j].filter(|entry: InboxEntry| !due_by(entry, k.end_time)),
                heard.len() == agent_id,
                forall|j: int|
                    0 <= j < agent_id ==> in_due_order(#[trigger] heard[j])
                        && heard[j].to_multiset() == k.inboxes[j].filter(
                        |entry: InboxEntry| due_by(entry, k.end_time),
                    ),
                pasts.len() == count,
                strategies_of(agents@) == strategies,
                forall|j: int|
                    agent_id <= j < count ==> (#[trigger] pasts_of(agents@)[j]) == pasts[j],
                forall|j: int|
                    0 <= j < agent_id ==> (#[trigger] pasts_of(agents@)[j]) == extended(
                        pasts[j],
                        heard_calls(j as usize, heard[j]),
                    ),
                latest(k.inboxes, k.end_time, last_time, agent_id as int, last_applied),
                earliest(k.inboxes, k.end_time, beyond, agent_id as int, first_beyond),
        {
            let end_time: u64 = self.end_time;
            let due = take_due_by(&mut self.inboxes[agent_id], end_time);
            let ghost rest = self.inboxes@[agent_id as int]@;
            proof {
                broadcast use vstd::seq_lib::group_to_multiset_ensures;

                assert(due@.to_multiset().len() == due@.len());
                lemma_one_more_inbox(
                    k.inboxes,
                    k.end_time,
                    agent_id as int,
                    due@,
                    rest,
                    last_time,
                    beyond,
                    last_applied,
                    first_beyond,
                );
            }
            let waiting: usize = due.len();
            match self.applied_messages.checked_add(waiting as u64) {
                Some(applied) => {
                    self.applied_messages = applied;
                },
                None => {
                    proof {
                        lemma_due_grows(
                            k.inboxes,
                            k.end_time,
                            (agent_id + 1) as nat,
                            k.inboxes.len(),
                        );
                    }
                    return (None, Ghost(heard));
                },
            }
            tell_all(agents, agent_id, &due);
            proof {
                heard = heard.push(due@);
            }
            if waiting > 0 && due[waiting - 1].delivery_time > last_applied {
                last_applied = due[waiting - 1].delivery_time;
            }
            if self.inboxes[agent_id].len() > 0 {
                let time: u64 = self.inboxes[agent_id][0].delivery_time;
                let sooner = match first_beyond {
                    Some(first) => time < first,
                    None => true,
                };
                if sooner {
                    first_beyond = Some(time);
                }
            }
        }
        proof {
            lemma_ends_on(k.inboxes, k.end_time, last_time, beyond, last_applied, first_beyond);
            assert(self@.inboxes =~= kept_past(k.inboxes, k.end_time));
            assert(pasts_of(agents@) =~= pasts_after_hearing(pasts, heard));
        }
        let end = match first_beyond {
            Some(time) => time,
            None => last_applied,
        };
        (Some(end), Ghost(heard))
    }
}

/// More inboxes hold no fewer messages.
proof fn lemma_due_grows(inboxes: Seq<Multiset<InboxEntry>>, end_time: Nanos, a: nat, b: nat)
    requires
        a <= b,
    ensures
        due_in_all(inboxes, end_time, a) <= due_in_all(inboxes, end_time, b),
    decreases b - a,
{
    if a < b {
        lemma_due_grows(inboxes, end_time, a, (b - 1) as nat);
    }
}

/// Result of a completed simulation run.
pub struct SimulationResult {
    pub trades: Vec<TradeRecord>,
    pub l1_snapshots: Vec<L1Snapshot>,
    /// L1 bucket aggregates. Empty unless [`RunOptions::l1_bucket_ns`] is set.
    pub l1_buckets: Vec<L1Bucket>,
    /// Diagnostic rows, one exchange after the other. Empty unless
    /// [`RunOptions::flow`] is set.
    pub flow_buckets: Vec<FlowBucket>,
    /// Diagnostic totals, one for each exchange. Empty unless
    /// [`RunOptions::flow`] is set.
    pub flow_totals: Vec<FlowTotals>,
    pub events_processed: u64,
    pub end_time: Nanos,
}

/// Why a run ended without a result.
#[derive(Debug, Clone, Copy, PartialEq, Eq, Structural)]
pub enum RunError {
    /// An order, a time or a counter left the range that a simulation can
    /// represent: an order without quantity or at a negative price, or a sum
    /// that does not fit.
    OutOfRange,
}

/// What a run starts from.
pub open spec fn setup_of(config: &SimulationConfig, options: &RunOptions, agents: nat) -> Setup {
    Setup {
        start_time: config.start_time,
        end_time: config.end_time,
        symbols: config.symbols@,
        no_market_hours: config.no_market_hours,
        keep_trades: options.keep_trades,
        l1_bucket_ns: options.l1_bucket_ns,
        flow: match options.flow {
            Some(flow) => Some(
                FlowSetup {
                    agent_id: flow.agent_id,
                    interval_ns: flow.interval_ns,
                    horizons_ns: flow.horizons_ns@,
                    ratio_edges: flow.ratio_edges@,
                },
            ),
            None => None,
        },
        agents,
    }
}

impl Kernel {
    /// Create one exchange, open already where markets have no hours.
    fn prepare_exchange(
        config: &SimulationConfig,
        options: &RunOptions,
        index: usize,
        Ghost(agents): Ghost<nat>,
    ) -> (exchange: Option<Exchange>)
        requires
            index < config.symbols@.len(),
            config.symbols@.len() * 1_000_000_000 <= u64::MAX,
            options.flow matches Some(flow) ==> flow.interval_ns > 0,
        ensures
            ({
                let setup = setup_of(config, options, agents);
                let i = index as int;
                match exchange {
                    Some(exchange) => {
                        &&& exchange.wf()
                        &&& exchange@ == setup.prepared(i)
                        &&& config.no_market_hours ==> setup.created(i).l1_room(config.start_time)
                    },
                    None => config.no_market_hours && !setup.created(i).l1_room(
                        config.start_time,
                    ),
                }
            }),
    {
        let first_id: u64 = (index as u64 + 1) * 1_000_000_000;
        let mut exchange = Exchange::new(config.symbols[index], first_id);
        exchange.set_run_options(options.keep_trades, options.l1_bucket_ns);
        let flow = match &options.flow {
            Some(flow) => Some(flow.copied()),
            None => None,
        };
        exchange.set_flow_options(flow);
        assert(exchange@ =~= setup_of(config, options, agents).created(index as int));
        if config.no_market_hours && !exchange.try_open(config.start_time) {
            return None;
        }
        Some(exchange)
    }

    /// Create the simulation, with no events yet.
    fn init(
        config: &SimulationConfig,
        options: &RunOptions,
        num_agents: usize,
        latency: Slot<Box<dyn Latency>>,
    ) -> (kernel: Option<Kernel>)
        requires
            options.flow matches Some(flow) ==> flow.interval_ns > 0,
        ensures
            ({
                let setup = setup_of(config, options, num_agents as nat);
                match kernel {
                    Some(kernel) => {
                        &&& kernel.stored_wf()
                        &&& kernel@ == setup.prepared_kernel()
                        &&& kernel.latency == latency
                        &&& setup.symbols.len() * 1_000_000_000 <= u64::MAX
                        &&& setup.no_market_hours ==> forall|i: int|
                            0 <= i < setup.symbols.len() ==> (#[trigger] setup.created(i)).l1_room(
                                setup.start_time,
                            )
                    },
                    None => !setup.start_room(),
                }
            }),
    {
        let ghost setup = setup_of(config, options, num_agents as nat);
        let count: usize = config.symbols.len();
        if (count as u64).checked_mul(1_000_000_000).is_none() {
            return None;
        }
        let mut exchanges: Vec<Exchange> = Vec::new();
        for i in 0..count
            invariant
                count == config.symbols@.len(),
                count * 1_000_000_000 <= u64::MAX,
                options.flow matches Some(flow) ==> flow.interval_ns > 0,
                setup == setup_of(config, options, num_agents as nat),
                exchanges@.len() == i,
                forall|j: int|
                    0 <= j < i ==> (#[trigger] exchanges@[j]).wf() && exchanges@[j]@
                        == setup.prepared(j),
                setup.no_market_hours ==> forall|j: int|
                    0 <= j < i ==> (#[trigger] setup.created(j)).l1_room(setup.start_time),
        {
            match Self::prepare_exchange(config, options, i, Ghost(num_agents as nat)) {
                Some(exchange) => {
                    exchanges.push(exchange);
                },
                None => {
                    assert(!setup.created(i as int).l1_room(setup.start_time));
                    return None;
                },
            }
        }
        let mut inboxes: Vec<Vec<InboxEntry>> = Vec::new();
        for a in 0..num_agents
            invariant
                inboxes@.len() == a,
                forall|j: int|
                    0 <= j < a ==> (#[trigger] inboxes@[j])@ == Seq::<InboxEntry>::empty(),
        {
            inboxes.push(Vec::new());
        }
        let kernel = Kernel {
            queue: EventQueue::with_capacity(0),
            seq: 0,
            latency,
            exchanges,
            end_time: config.end_time,
            inboxes,
            applied_messages: 0,
        };
        proof {
            broadcast use vstd::seq_lib::group_to_multiset_ensures;

            let goal = setup.prepared_kernel();
            assert(kernel@.exchanges =~= goal.exchanges);
            assert(kernel@.inboxes =~= goal.inboxes) by {
                assert(Seq::<InboxEntry>::empty().to_multiset() =~= Multiset::empty());
            }
            assert(kernel@ =~= goal);
        }
        Some(kernel)
    }
}

/// The time at which a simulation is valid before its first events.
spec fn first_moment(setup: Setup) -> Nanos {
    if setup.no_market_hours {
        setup.start_time
    } else {
        0
    }
}

/// A simulation is valid before its first events.
proof fn lemma_prepared_valid(kernel: Kernel, setup: Setup)
    requires
        kernel.stored_wf(),
        kernel@ == setup.prepared_kernel(),
        setup.no_market_hours ==> forall|i: int|
            0 <= i < setup.symbols.len() ==> (#[trigger] setup.created(i)).l1_room(
                setup.start_time,
            ),
    ensures
        kernel.wf(first_moment(setup)),
{
    let now = first_moment(setup);
    assert forall|i: int| 0 <= i < kernel@.exchanges.len() implies {
        &&& (#[trigger] kernel@.exchanges[i]).wf()
        &&& owners_within(kernel@.exchanges[i], kernel@.inboxes.len())
        &&& logs_until(kernel@.exchanges[i], now)
    } by {
        assert(kernel.exchanges@[i].wf());
        assert(kernel@.exchanges[i] == kernel.exchanges@[i]@);
        let created = setup.created(i);
        assert(logs_until(created, now));
        if setup.no_market_hours {
            let open = ExchangeView { is_open: true, ..created };
            assert(created.l1_room(setup.start_time));
            lemma_l1_logs(open, now);
            assert(open.with_l1(now).resting == created.resting);
        }
    }
}

/// Scheduled events are counted.
proof fn lemma_all_pushed_counts(k: KernelView, events: Seq<(Nanos, EventPayload)>)
    requires
        k.queue == Multiset::<Event>::empty(),
        k.seq == 0,
        events.len() < u64::MAX,
    ensures
        k.all_pushed(events).queue.len() == events.len(),
        k.all_pushed(events).seq == events.len(),
        k.all_pushed(events).inboxes == k.inboxes,
    decreases events.len(),
{
    broadcast use vstd::multiset::group_multiset_axioms;

    if events.len() > 0 {
        lemma_all_pushed_counts(k, events.drop_last());
    }
}

impl Kernel {
    /// Schedule the next of the first events. Says whether there was room.
    fn push_first(
        &mut self,
        delivery_time: Nanos,
        payload: EventPayload,
        Ghost(setup): Ghost<Setup>,
        Ghost(done): Ghost<int>,
    ) -> (ok: bool)
        requires
            old(self).wf(first_moment(setup)),
            0 <= done < setup.first_events().len(),
            old(self)@ == setup.prepared_kernel().all_pushed(setup.first_events().take(done)),
            done <= u32::MAX + 1,
            setup.first_events()[done] == (delivery_time, payload),
            first_moment(setup) <= delivery_time,
            payload_within(payload, setup.agents),
        ensures
            final(self).sends_as(*old(self)),
            !ok ==> !setup.start_room(),
            ok ==> {
                &&& final(self).wf(first_moment(setup))
                &&& final(self)@ == setup.prepared_kernel().all_pushed(
                    setup.first_events().take(done + 1),
                )
                &&& done + 1 <= u32::MAX + 1
            },
    {
        let ghost k = setup.prepared_kernel();
        let ghost events = setup.first_events();
        proof {
            lemma_all_pushed_counts(k, events.take(done));
            assert(events.take(done + 1).drop_last() =~= events.take(done));
            assert(events.take(done + 1).last() == events[done]);
        }
        self.push(delivery_time, payload, Ghost(first_moment(setup)))
    }

    /// Schedule the first events of a run: market hours, and a wakeup of every
    /// agent. Says whether there was room.
    fn schedule_lifecycle(
        &mut self,
        config: &SimulationConfig,
        num_agents: usize,
        Ghost(setup): Ghost<Setup>,
    ) -> (ok: bool)
        requires
            old(self).wf(first_moment(setup)),
            old(self)@ == setup.prepared_kernel(),
            setup.start_time == config.start_time,
            setup.end_time == config.end_time,
            setup.symbols == config.symbols@,
            setup.no_market_hours == config.no_market_hours,
            setup.agents == num_agents,
        ensures
            final(self).sends_as(*old(self)),
            !ok ==> !setup.start_room(),
            ok ==> final(self).wf(first_moment(setup)),
            ok ==> final(self)@ == setup.started(),
            ok ==> setup.first_events().len() <= u32::MAX + 1,
    {
        let ghost k = setup.prepared_kernel();
        let ghost events = setup.first_events();
        let ghost mut done: int = 0;
        assert(events.take(0) =~= Seq::empty());
        if !config.no_market_hours {
            for i in 0..config.symbols.len()
                invariant
                    self.wf(first_moment(setup)),
                    self.sends_as(*old(self)),
                    events == setup.first_events(),
                    k == setup.prepared_kernel(),
                    setup.start_time == config.start_time,
                    setup.end_time == config.end_time,
                    setup.symbols == config.symbols@,
                    !setup.no_market_hours,
                    setup.agents == num_agents,
                    done == 2 * i,
                    done <= u32::MAX + 1,
                    self@ == k.all_pushed(events.take(done)),
            {
                let symbol: Symbol = config.symbols[i];
                proof {
                    assert(events[done] == setup.market_event(done));
                    assert(events[done + 1] == setup.market_event(done + 1));
                    assert(done / 2 == i && (done + 1) / 2 == i);
                }
                if !self.push_first(
                    config.start_time,
                    EventPayload::MarketOpen { symbol },
                    Ghost(setup),
                    Ghost(done),
                ) {
                    return false;
                }
                if !self.push_first(
                    config.end_time,
                    EventPayload::MarketClose { symbol },
                    Ghost(setup),
                    Ghost(done + 1),
                ) {
                    return false;
                }
                proof {
                    done = done + 2;
                }
            }
        }
        let ghost hours = done;
        for agent_id in 0..num_agents
            invariant
                self.wf(first_moment(setup)),
                self.sends_as(*old(self)),
                events == setup.first_events(),
                k == setup.prepared_kernel(),
                setup.start_time == config.start_time,
                setup.agents == num_agents,
                hours == if setup.no_market_hours {
                    0
                } else {
                    2 * setup.symbols.len()
                },
                done == hours + agent_id,
                done <= u32::MAX + 1,
                self@ == k.all_pushed(events.take(done)),
        {
            assert(events[done] == (setup.start_time, EventPayload::WakeUp { agent_id }));
            if !self.push_first(
                config.start_time,
                EventPayload::WakeUp { agent_id },
                Ghost(setup),
                Ghost(done),
            ) {
                return false;
            }
            proof {
                done = done + 1;
            }
        }
        assert(events.take(done) =~= events);
        true
    }
}

/// The result says what the exchanges have recorded, in the order of time.
pub open spec fn reports(
    result: SimulationResult,
    exchanges: Seq<ExchangeView>,
    end_time: Nanos,
) -> bool {
    &&& result.trades@ == all_trades(exchanges)
    &&& result.l1_snapshots@ == all_snapshots(exchanges)
    &&& result.l1_buckets@ == all_buckets(exchanges)
    &&& result.flow_buckets@.map_values(|bucket: FlowBucket| bucket@) == flow_rows(
        exchanges,
        end_time,
        exchanges.len(),
    )
    &&& result.flow_totals@ == flow_totals(exchanges, exchanges.len())
    &&& time_ordered(result.trades@)
    &&& time_ordered(result.l1_snapshots@)
    &&& time_ordered(result.l1_buckets@)
}

/// The result is that of the run in which the cast decided as the trace says.
pub open spec fn ran(
    setup: Setup,
    cast: Cast,
    trace: Seq<Choices>,
    result: SimulationResult,
) -> bool {
    let start = setup.started();
    let last = start.after(trace);
    &&& setup.start_room()
    &&& start.runs(trace)
    &&& start.follows(cast, trace)
    &&& last.is_over()
    &&& flow_room(last.exchanges, last.end_time)
    &&& reports(result, last.exchanges, last.end_time)
    &&& result.events_processed == trace.len() + last.applied_messages + due_in_all(
        last.inboxes,
        last.end_time,
        last.inboxes.len(),
    )
    &&& ends_on(
        last.inboxes,
        last.end_time,
        start.last_time(trace),
        last.next_time(),
        result.end_time,
    )
}

/// Something in the run in which the cast decided as the trace says cannot be
/// represented.
pub open spec fn failed(setup: Setup, cast: Cast, trace: Seq<Choices>) -> bool {
    let start = setup.started();
    let last = start.after(trace);
    ||| !setup.start_room()
    ||| start.gets_stuck(cast, trace)
    ||| {
        &&& start.runs(trace)
        &&& start.follows(cast, trace)
        &&& last.is_over()
        &&& !flow_room(last.exchanges, last.end_time) || trace.len() + last.applied_messages
            + due_in_all(last.inboxes, last.end_time, last.inboxes.len()) > u64::MAX
    }
}

/// Every exchange is valid and its logs end by now.
spec fn all_until(exchanges: Seq<ExchangeView>, now: Nanos) -> bool {
    forall|i: int| 0 <= i < exchanges.len() ==> logs_until(#[trigger] exchanges[i], now)
}

/// Logs that end by now merge into logs in the order of time.
proof fn lemma_logs_merge(exchanges: Seq<ExchangeView>, now: Nanos)
    requires
        all_until(exchanges, now),
    ensures
        time_ordered(all_trades(exchanges)),
        time_ordered(all_snapshots(exchanges)),
        time_ordered(all_buckets(exchanges)),
{
    let trades = exchanges.map_values(|exchange: ExchangeView| exchange.trades);
    let snapshots = exchanges.map_values(|exchange: ExchangeView| exchange.l1_snapshots);
    let buckets = exchanges.map_values(
        |exchange: ExchangeView| exchange.bucket_flushed().l1_buckets,
    );
    assert forall|i: int| 0 <= i < trades.len() implies time_ordered(#[trigger] trades[i]) by {
        assert(logs_until(exchanges[i], now));
    }
    assert forall|i: int| 0 <= i < snapshots.len() implies time_ordered(
        #[trigger] snapshots[i],
    ) by {
        assert(logs_until(exchanges[i], now));
    }
    assert forall|i: int| 0 <= i < buckets.len() implies time_ordered(#[trigger] buckets[i]) by {
        let exchange = exchanges[i];
        assert(logs_until(exchange, now));
        if let Some(open) = exchange.open_bucket {
            lemma_log_push(exchange.l1_buckets, open, now);
        }
    }
    law_merge_is_a_stable_sort(trades);
    law_merge_is_a_stable_sort(snapshots);
    law_merge_is_a_stable_sort(buckets);
}

impl Kernel {
    /// Gather what the exchanges recorded. `None` means that the diagnostics
    /// could not be summed up.
    fn collect_results(self, events_processed: u64, end_time: Nanos, Ghost(now): Ghost<Nanos>) -> (result:
        Option<SimulationResult>)
        requires
            self.stored_wf(),
            all_until(self@.exchanges, now),
        ensures
            match result {
                Some(result) => {
                    &&& flow_room(self@.exchanges, self@.end_time)
                    &&& reports(result, self@.exchanges, self@.end_time)
                    &&& result.events_processed == events_processed
                    &&& result.end_time == end_time
                },
                None => !flow_room(self@.exchanges, self@.end_time),
            },
    {
        let ghost k = self@.exchanges;
        let mut exchanges = self.exchanges;
        let run_end: u64 = self.end_time;
        let count: usize = exchanges.len();
        let mut trades: Vec<Vec<TradeRecord>> = Vec::new();
        let mut l1_snapshots: Vec<Vec<L1Snapshot>> = Vec::new();
        let mut l1_buckets: Vec<Vec<L1Bucket>> = Vec::new();
        let mut flow_buckets: Vec<FlowBucket> = Vec::new();
        let mut totals: Vec<FlowTotals> = Vec::new();
        assert(flow_buckets@.map_values(|bucket: FlowBucket| bucket@) =~= flow_rows(
            k,
            run_end,
            0,
        ));
        for i in 0..count
            invariant
                k == self@.exchanges,
                count == k.len(),
                exchanges@.len() == count,
                run_end == self@.end_time,
                forall|j: int|
                    i <= j < count ==> (#[trigger] exchanges@[j]).wf() && exchanges@[j]@ == k[j],
                trades@.len() == i,
                l1_snapshots@.len() == i,
                l1_buckets@.len() == i,
                forall|j: int| 0 <= j < i ==> (#[trigger] trades@[j])@ == k[j].trades,
                forall|j: int| 0 <= j < i ==> (#[trigger] l1_snapshots@[j])@ == k[j].l1_snapshots,
                forall|j: int|
                    0 <= j < i ==> (#[trigger] l1_buckets@[j])@ == k[j].bucket_flushed().l1_buckets,
                flow_buckets@.map_values(|bucket: FlowBucket| bucket@) == flow_rows(
                    k,
                    run_end,
                    i as nat,
                ),
                totals@ == flow_totals(k, i as nat),
                forall|j: int|
                    0 <= j < i ==> ((#[trigger] k[j]).flow matches Some(flow) ==> flow.finish_room(
                        run_end,
                    )),
        {
            assert(exchanges@[i as int].wf() && exchanges@[i as int]@ == k[i as int]);
            exchanges[i].flush_l1_bucket();
            trades.push(exchanges[i].take_trades());
            l1_snapshots.push(exchanges[i].take_l1_snapshots());
            l1_buckets.push(exchanges[i].take_l1_buckets());
            let ghost rows_before = flow_buckets@;
            match exchanges[i].try_flush_flow(run_end) {
                Ok(Some((mut rows, total))) => {
                    let ghost added = rows@;
                    flow_buckets.append(&mut rows);
                    totals.push(total);
                    assert(flow_buckets@.map_values(|bucket: FlowBucket| bucket@)
                        =~= rows_before.map_values(|bucket: FlowBucket| bucket@)
                        + added.map_values(|bucket: FlowBucket| bucket@));
                    assert(totals@ =~= flow_totals(k, (i + 1) as nat));
                },
                Ok(None) => {
                    assert(flow_rows(k, run_end, (i + 1) as nat) =~= flow_rows(
                        k,
                        run_end,
                        i as nat,
                    ));
                    assert(flow_totals(k, (i + 1) as nat) =~= flow_totals(k, i as nat));
                },
                Err(()) => {
                    assert(!flow_room(k, run_end));
                    return None;
                },
            }
        }
        proof {
            assert(trades@.map_values(|log: Vec<TradeRecord>| log@) =~= k.map_values(
                |exchange: ExchangeView| exchange.trades,
            ));
            assert(l1_snapshots@.map_values(|log: Vec<L1Snapshot>| log@) =~= k.map_values(
                |exchange: ExchangeView| exchange.l1_snapshots,
            ));
            assert(l1_buckets@.map_values(|log: Vec<L1Bucket>| log@) =~= k.map_values(
                |exchange: ExchangeView| exchange.bucket_flushed().l1_buckets,
            ));
            lemma_logs_merge(k, now);
        }
        let trades = merge_by_time(&trades);
        let l1_snapshots = merge_by_time(&l1_snapshots);
        let l1_buckets = merge_by_time(&l1_buckets);
        Some(
            SimulationResult {
                trades,
                l1_snapshots,
                l1_buckets,
                flow_buckets,
                flow_totals: totals,
                events_processed,
                end_time,
            },
        )
    }

    /// End a run whose events have happened: deliver what is due, and gather
    /// the result.
    fn finish(
        self,
        end: LoopEnd,
        agents: Vec<Box<dyn Agent>>,
        Ghost(setup): Ghost<Setup>,
        Ghost(cast): Ghost<Cast>,
        Ghost(trace): Ghost<Seq<Choices>>,
    ) -> (result: Result<SimulationResult, RunError>)
        requires
            self.stored_wf(),
            setup.start_room(),
            setup.started().runs(trace),
            setup.started().follows(cast, trace),
            ({
                let start = setup.started();
                let last = start.after(trace);
                &&& last.is_over()
                &&& exists|now: Nanos| valid(last, now)
                &&& self@ == KernelView { queue: self@.queue, ..last }
                &&& agents@.len() == last.inboxes.len()
                &&& end.count == trace.len()
                &&& end.last_time == start.last_time(trace)
                &&& end.beyond == last.next_time()
            }),
        ensures
            match result {
                Ok(result) => ran(setup, cast, trace, result),
                Err(_) => failed(setup, cast, trace),
            },
    {
        let ghost last = setup.started().after(trace);
        let ghost now = choose|now: Nanos| valid(last, now);
        let mut kernel = self;
        let mut agents = agents;
        let (drained, _) = kernel.drain_inboxes(end.last_time, end.beyond, &mut agents);
        let end_time = match drained {
            Some(end_time) => end_time,
            None => {
                return Err(RunError::OutOfRange);
            },
        };
        let events_processed = match end.count.checked_add(kernel.applied_messages) {
            Some(events_processed) => events_processed,
            None => {
                return Err(RunError::OutOfRange);
            },
        };
        proof {
            assert forall|i: int| 0 <= i < last.exchanges.len() implies logs_until(
                #[trigger] last.exchanges[i],
                now,
            ) by {
                assert(last.exchanges[i].wf());
            }
        }
        match kernel.collect_results(events_processed, end_time, Ghost(now)) {
            Some(result) => Ok(result),
            None => Err(RunError::OutOfRange),
        }
    }

    /// Run the simulation to completion.
    #[verifier::rlimit(60)]
    fn run_from(
        config: &SimulationConfig,
        agents: Vec<Box<dyn Agent>>,
        latency: Slot<Box<dyn Latency>>,
        options: &RunOptions,
    ) -> (result: Result<SimulationResult, RunError>)
        requires
            options.l1_bucket_ns != Some(0u64),
            options.flow matches Some(flow) ==> flow.interval_ns > 0,
        ensures
            ({
                let setup = setup_of(config, options, agents@.len());
                let cast = cast_of(
                    agents@,
                    latency.item.to_exchange(),
                    latency.item.to_agent(),
                );
                match result {
                    Ok(result) => exists|trace: Seq<Choices>| ran(setup, cast, trace, result),
                    Err(_) => exists|trace: Seq<Choices>| failed(setup, cast, trace),
                }
            }),
    {
        let ghost cast = cast_of(
            agents@,
            latency.item.to_exchange(),
            latency.item.to_agent(),
        );
        let mut agents = agents;
        let num_agents: usize = agents.len();
        let ghost setup = setup_of(config, options, num_agents as nat);
        let ghost none: Seq<Choices> = Seq::empty();
        let mut kernel = match Self::init(config, options, num_agents, latency) {
            Some(kernel) => kernel,
            None => {
                assert(failed(setup, cast, none));
                return Err(RunError::OutOfRange);
            },
        };
        proof {
            lemma_prepared_valid(kernel, setup);
        }
        if !kernel.schedule_lifecycle(config, num_agents, Ghost(setup)) {
            assert(failed(setup, cast, none));
            return Err(RunError::OutOfRange);
        }
        proof {
            lemma_all_pushed_counts(setup.prepared_kernel(), setup.first_events());
            assert(kernel.cast(agents@) =~= cast);
        }
        let (ended, trace) = kernel.event_loop(&mut agents, Ghost(first_moment(setup)));
        match ended {
            Some(end) => kernel.finish(end, agents, Ghost(setup), Ghost(cast), trace),
            None => {
                assert(failed(setup, cast, trace@));
                Err(RunError::OutOfRange)
            },
        }
    }

    /// Run the simulation to completion, with explicit output options.
    ///
    /// Whatever the agents may do and however long messages may take, the run
    /// is one that follows from it: events happen in the order of their times
    /// and of their scheduling, up to the end of the run, and every agent is
    /// called with the messages that are due and the markets as they are.
    pub fn run_with(
        config: &SimulationConfig,
        agents: Vec<Box<dyn Agent>>,
        latency: Box<dyn Latency>,
        options: &RunOptions,
    ) -> (result: Result<SimulationResult, RunError>)
        requires
            options.l1_bucket_ns != Some(0u64),
            options.flow matches Some(flow) ==> flow.interval_ns > 0,
        ensures
            ({
                let setup = setup_of(config, options, agents@.len());
                let cast = cast_of(agents@, latency.to_exchange(), latency.to_agent());
                match result {
                    Ok(result) => exists|trace: Seq<Choices>| ran(setup, cast, trace, result),
                    Err(_) => exists|trace: Seq<Choices>| failed(setup, cast, trace),
                }
            }),
    {
        let latency = Slot { item: latency };
        Self::run_from(config, agents, latency, options)
    }

    /// Run the simulation to completion, with the default output: every trade
    /// and every L1 snapshot stays in memory.
    pub fn run(
        config: &SimulationConfig,
        agents: Vec<Box<dyn Agent>>,
        latency: Box<dyn Latency>,
    ) -> (result: Result<SimulationResult, RunError>)
        ensures
            ({
                let setup = Setup {
                    start_time: config.start_time,
                    end_time: config.end_time,
                    symbols: config.symbols@,
                    no_market_hours: config.no_market_hours,
                    keep_trades: true,
                    l1_bucket_ns: None,
                    flow: None,
                    agents: agents@.len(),
                };
                let cast = cast_of(agents@, latency.to_exchange(), latency.to_agent());
                match result {
                    Ok(result) => exists|trace: Seq<Choices>| ran(setup, cast, trace, result),
                    Err(_) => exists|trace: Seq<Choices>| failed(setup, cast, trace),
                }
            }),
    {
        let latency = Slot { item: latency };
        let options = RunOptions { keep_trades: true, l1_bucket_ns: None, flow: None };
        Self::run_from(config, agents, latency, &options)
    }
}

} // verus!
