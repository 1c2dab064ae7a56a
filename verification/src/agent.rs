//! What an agent is to the kernel.

use crate::event::{ExchangeMessage, OrderAction};
use crate::types::{AgentId, MarketSnapshot, Nanos, Symbol};
use vstd::prelude::*;

verus! {

/// An action returned by an agent during its wakeup callback.
#[derive(Debug, Clone, Copy, PartialEq, Eq, Structural)]
pub enum AgentAction {
    SubmitOrder { symbol: Symbol, order: OrderAction },
    CancelOrder { symbol: Symbol, order_id: u64 },
    ScheduleWakeUp { delay_ns: Nanos },
}

/// What an agent went through: a message that it heard, or a wakeup with what
/// it saw of the markets and what it did.
#[verifier::ext_equal]
pub enum Call {
    Heard { time: Nanos, agent_id: AgentId, message: ExchangeMessage },
    Woke {
        time: Nanos,
        agent_id: AgentId,
        snapshots: Seq<MarketSnapshot>,
        actions: Seq<AgentAction>,
    },
}

/// Trait implemented by all simulation agents. Must be object-safe.
///
/// An agent may keep a record of its calls. It then says which records can
/// come about, and so what it may do on a wakeup.
pub trait Agent {
    /// The calls so far, if the agent keeps a record of them.
    open spec fn past(&self) -> Option<Seq<Call>> {
        None
    }

    /// The records that can come about, up to a wakeup.
    open spec fn strategy(&self) -> spec_fn(Seq<Call>) -> bool {
        |past: Seq<Call>| true
    }

    /// Called when the agent's wakeup event fires.
    /// Writes actions into the provided buffer to avoid allocation.
    fn wakeup_into(
        &mut self,
        time: Nanos,
        agent_id: AgentId,
        snapshots: &[MarketSnapshot],
        actions: &mut Vec<AgentAction>,
    )
        ensures
            final(self).strategy() == old(self).strategy(),
            final(self).past() == after_call(
                old(self).past(),
                Call::Woke {
                    time,
                    agent_id,
                    snapshots: snapshots@,
                    actions: final(actions)@.skip(old(actions)@.len() as int),
                },
            ),
            final(self).past() matches Some(past) ==> (final(self).strategy())(past),
    ;

    /// Called when the exchange sends a message to this agent.
    fn on_exchange_message(&mut self, time: Nanos, agent_id: AgentId, message: ExchangeMessage)
        ensures
            final(self).strategy() == old(self).strategy(),
            final(self).past() == after_call(
                old(self).past(),
                Call::Heard { time, agent_id, message },
            ),
    ;
}

/// A record of calls, if one is kept, after one more.
pub open spec fn after_call(past: Option<Seq<Call>>, call: Call) -> Option<Seq<Call>> {
    match past {
        Some(past) => Some(past.push(call)),
        None => None,
    }
}

} // verus!
