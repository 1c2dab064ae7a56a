//! How long messages take between agents and exchanges.

use crate::types::AgentId;
use vstd::prelude::*;

verus! {

/// One-way delays, in nanoseconds. An implementation may draw them at random,
/// and says which delays each agent can get.
pub trait Latency {
    /// The agent can get this delay to the exchange.
    open spec fn to_exchange(&self) -> spec_fn(AgentId, u64) -> bool {
        |agent_id: AgentId, delay: u64| true
    }

    /// The agent can get this delay from the exchange.
    open spec fn to_agent(&self) -> spec_fn(AgentId, u64) -> bool {
        |agent_id: AgentId, delay: u64| true
    }

    /// Delay from agent to exchange.
    fn agent_to_exchange(&mut self, agent_id: AgentId) -> (delay: u64)
        ensures
            (old(self).to_exchange())(agent_id, delay),
            final(self).to_exchange() == old(self).to_exchange(),
            final(self).to_agent() == old(self).to_agent(),
    ;

    /// Delay from exchange to agent.
    fn exchange_to_agent(&mut self, agent_id: AgentId) -> (delay: u64)
        ensures
            (old(self).to_agent())(agent_id, delay),
            final(self).to_exchange() == old(self).to_exchange(),
            final(self).to_agent() == old(self).to_agent(),
    ;
}

/// The delay of an agent: nothing for one that has none.
pub open spec fn base_of(bases: Seq<u64>, agent_id: AgentId) -> u64 {
    if agent_id < bases.len() {
        bases[agent_id as int]
    } else {
        0
    }
}

/// Every agent gets its own delay, always the same.
pub open spec fn fixed_delays(bases: Seq<u64>) -> spec_fn(AgentId, u64) -> bool {
    |agent_id: AgentId, delay: u64| delay == base_of(bases, agent_id)
}

/// Fixed per-agent delays, the same in both directions.
#[derive(Debug, Clone)]
pub struct LatencyModel {
    base_latencies: Vec<u64>,
}

impl LatencyModel {
    /// The delay of each agent.
    pub closed spec fn bases(&self) -> Seq<u64> {
        self.base_latencies@
    }

    /// Every agent has the same delay.
    #[must_use]
    pub fn uniform(base_ns: u64, num_agents: usize) -> (model: Self)
        ensures
            model.bases() == Seq::new(num_agents as nat, |i: int| base_ns),
    {
        let mut base_latencies: Vec<u64> = Vec::new();
        for i in 0..num_agents
            invariant
                base_latencies@ == Seq::new(i as nat, |j: int| base_ns),
        {
            base_latencies.push(base_ns);
            assert(base_latencies@ =~= Seq::new((i + 1) as nat, |j: int| base_ns));
        }
        LatencyModel { base_latencies }
    }

    /// No delay at all.
    #[must_use]
    pub fn none(num_agents: usize) -> (model: Self)
        ensures
            model.bases() == Seq::new(num_agents as nat, |i: int| 0u64),
    {
        Self::uniform(0, num_agents)
    }

    /// Each agent has its own delay.
    #[must_use]
    pub fn with_bases(bases: Vec<u64>) -> (model: Self)
        ensures
            model.bases() == bases@,
    {
        LatencyModel { base_latencies: bases }
    }

    /// The delay of an agent: nothing for one that the model does not know.
    #[must_use]
    pub fn base(&self, agent_id: AgentId) -> (base_ns: u64)
        ensures
            base_ns == base_of(self.bases(), agent_id),
    {
        if agent_id < self.base_latencies.len() {
            self.base_latencies[agent_id]
        } else {
            0
        }
    }
}

impl Latency for LatencyModel {
    open spec fn to_exchange(&self) -> spec_fn(AgentId, u64) -> bool {
        fixed_delays(self.bases())
    }

    open spec fn to_agent(&self) -> spec_fn(AgentId, u64) -> bool {
        fixed_delays(self.bases())
    }

    fn agent_to_exchange(&mut self, agent_id: AgentId) -> (delay: u64)
        ensures
            delay == base_of(old(self).bases(), agent_id),
            final(self).bases() == old(self).bases(),
    {
        self.base(agent_id)
    }

    fn exchange_to_agent(&mut self, agent_id: AgentId) -> (delay: u64)
        ensures
            delay == base_of(old(self).bases(), agent_id),
            final(self).bases() == old(self).bases(),
    {
        self.base(agent_id)
    }
}

} // verus!
