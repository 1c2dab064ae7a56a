//! The zero-intelligence agent.

use crate::agent::{Agent, AgentAction, Call};
use crate::event::{ExchangeMessage, OrderAction};
use crate::order::Side;
use crate::rng::{coin, seeded};
use crate::samplers::{OrderSizeSampler, PriceSampler, WakeupSampler};
use crate::slot::Slot;
use crate::types::{AgentId, MarketSnapshot, Nanos, Symbol};
use crate::utils::{
    cancel_all, cancels, every_wakeup, known_resting, law_outstanding_orders_are_known, mid_at,
    outstanding, resting_after, spec_mid_at, track, IndexedSet, IndexedView,
};
use rand::rngs::SmallRng;
use vstd::prelude::*;

verus! {

/// What a zero-intelligence agent draws on a wakeup.
pub struct ZiDraw {
    pub side: Side,
    pub qty: u64,
    pub price: i64,
    pub delay_ns: u64,
}

/// What a zero-intelligence agent does on a wakeup: cancel what rests, place
/// one limit order, and schedule the next wakeup.
pub open spec fn zi_actions(symbol: Symbol, resting: Seq<u64>, draw: ZiDraw) -> Seq<AgentAction> {
    cancels(symbol, resting).push(
        AgentAction::SubmitOrder {
            symbol,
            order: OrderAction::NewLimitOrder {
                side: draw.side,
                price: draw.price,
                qty: draw.qty,
                user_id: 0,
            },
        },
    ).push(AgentAction::ScheduleWakeUp { delay_ns: draw.delay_ns })
}

/// What makes up a zero-intelligence agent: what it trades, and what its
/// samplers may draw.
#[verifier::ext_equal]
pub struct ZiTraits {
    pub reference: i64,
    pub symbol: Symbol,
    pub prices: spec_fn(i64, i64) -> bool,
    pub sizes: spec_fn(u64) -> bool,
    pub delays: spec_fn(u64) -> bool,
}

/// The orders that a zero-intelligence agent knows to rest after its calls: a
/// wakeup cancels them all.
pub open spec fn zi_resting(past: Seq<Call>) -> IndexedView {
    known_resting(past, every_wakeup())
}

impl ZiTraits {
    /// The samplers may draw these values at the mid-price.
    pub open spec fn may_draw(self, mid: i64, draw: ZiDraw) -> bool {
        &&& (self.sizes)(draw.qty)
        &&& (self.prices)(mid, draw.price)
        &&& (self.delays)(draw.delay_ns)
    }

    /// With these resting orders and markets, the agent does this on what it
    /// drew: it cancels what rests, places one order of values drawn at the
    /// mid-price, and schedules its next wakeup.
    pub open spec fn acts_on(
        self,
        resting: Seq<u64>,
        snapshots: Seq<MarketSnapshot>,
        draw: ZiDraw,
        actions: Seq<AgentAction>,
    ) -> bool {
        &&& self.may_draw(spec_mid_at(snapshots, self.symbol, self.reference), draw)
        &&& actions == zi_actions(self.symbol, resting, draw)
    }

    /// The last of the calls can have come about.
    pub open spec fn may_end(self, past: Seq<Call>) -> bool {
        &&& past.len() > 0
        &&& past.last() matches Call::Woke { time, agent_id, snapshots, actions } && exists|
            draw: ZiDraw,
        | #[trigger]
            self.acts_on(zi_resting(past.drop_last()).items, snapshots, draw, actions)
    }
}

/// What was drawn shows that the last call can have come about.
proof fn lemma_may_end(traits: ZiTraits, past: Seq<Call>, draw: ZiDraw)
    requires
        past.len() > 0,
        past.last() matches Call::Woke { time, agent_id, snapshots, actions } && traits.acts_on(
            zi_resting(past.drop_last()).items,
            snapshots,
            draw,
            actions,
        ),
    ensures
        traits.may_end(past),
{
}

/// What a zero-intelligence agent remembers: its resting orders, in step with
/// its calls.
struct ZiMemory {
    resting: IndexedSet,
    calls: Ghost<Seq<Call>>,
}

impl ZiMemory {
    #[verifier::type_invariant]
    spec fn inv(&self) -> bool {
        self.resting@ == zi_resting(self.calls@)
    }

    /// Nothing to remember.
    fn new() -> (memory: Self)
        ensures
            memory.calls@ == Seq::<Call>::empty(),
            memory.resting@ == IndexedView::empty(),
    {
        ZiMemory { resting: IndexedSet::new(), calls: Ghost(Seq::empty()) }
    }

    /// A message has been heard.
    fn heard(self, time: Nanos, agent_id: AgentId, message: ExchangeMessage) -> (memory: Self)
        ensures
            memory.calls@ == self.calls@.push(Call::Heard { time, agent_id, message }),
            memory.resting@ == resting_after(self.resting@, message),
    {
        proof {
            use_type_invariant(&self);
        }
        let ZiMemory { mut resting, calls } = self;
        let ghost all = calls@.push(Call::Heard { time, agent_id, message });
        track(&mut resting, message);
        assert(all.drop_last() =~= calls@);
        ZiMemory { resting, calls: Ghost(all) }
    }

    /// A wakeup is over, and with it every order that rested.
    fn woken(Ghost(calls): Ghost<Seq<Call>>, Ghost(call): Ghost<Call>) -> (memory: Self)
        requires
            call is Woke,
        ensures
            memory.calls@ == calls.push(call),
            memory.resting@ == IndexedView::empty(),
    {
        ZiMemory { resting: IndexedSet::new(), calls: Ghost(calls.push(call)) }
    }
}

/// Zero-intelligence agent with pluggable sampling strategies.
///
/// On each wakeup the agent:
/// 1. Cancels all outstanding orders
/// 2. Picks a random side (buy/sell 50/50)
/// 3. Samples order size via [`OrderSizeSampler`]
/// 4. Samples price via [`PriceSampler`]
/// 5. Places a single limit order
/// 6. Schedules next wakeup via [`WakeupSampler`]
pub struct ZiAgent {
    reference_price: i64,
    symbol: Symbol,
    rng: SmallRng,
    memory: ZiMemory,
    price_sampler: Slot<Box<dyn PriceSampler>>,
    size_sampler: Slot<Box<dyn OrderSizeSampler>>,
    wakeup_sampler: Slot<Box<dyn WakeupSampler>>,
}

impl ZiAgent {
    /// What makes up the agent.
    pub closed spec fn traits(&self) -> ZiTraits {
        ZiTraits {
            reference: self.reference_price,
            symbol: self.symbol,
            prices: self.price_sampler.item.prices(),
            sizes: self.size_sampler.item.sizes(),
            delays: self.wakeup_sampler.item.delays(),
        }
    }

    /// The calls so far.
    pub closed spec fn calls(&self) -> Seq<Call> {
        self.memory.calls@
    }

    /// Create an agent with custom sampling strategies.
    #[must_use]
    pub fn with_samplers(
        reference_price: i64,
        symbol: Symbol,
        seed: u64,
        price_sampler: Box<dyn PriceSampler>,
        size_sampler: Box<dyn OrderSizeSampler>,
        wakeup_sampler: Box<dyn WakeupSampler>,
    ) -> (agent: Self)
        ensures
            agent.traits() == (ZiTraits {
                reference: reference_price,
                symbol,
                prices: price_sampler.prices(),
                sizes: size_sampler.sizes(),
                delays: wakeup_sampler.delays(),
            }),
            agent.calls() == Seq::<Call>::empty(),
    {
        let price_sampler = Slot { item: price_sampler };
        let size_sampler = Slot { item: size_sampler };
        let wakeup_sampler = Slot { item: wakeup_sampler };
        ZiAgent {
            reference_price,
            symbol,
            rng: seeded(seed),
            memory: ZiMemory::new(),
            price_sampler,
            size_sampler,
            wakeup_sampler,
        }
    }
}

/// Writes the actions of a wakeup from what was drawn.
pub fn place_zi(symbol: Symbol, resting: &Vec<u64>, draw: &ZiDraw, actions: &mut Vec<AgentAction>)
    ensures
        final(actions)@ == old(actions)@ + zi_actions(symbol, resting@, *draw),
{
    let ghost before = actions@;
    cancel_all(symbol, resting, actions);
    actions.push(
        AgentAction::SubmitOrder {
            symbol,
            order: OrderAction::NewLimitOrder {
                side: draw.side,
                price: draw.price,
                qty: draw.qty,
                user_id: 0,
            },
        },
    );
    actions.push(AgentAction::ScheduleWakeUp { delay_ns: draw.delay_ns });
    assert(actions@ =~= before + zi_actions(symbol, resting@, *draw));
}

/// The records that an agent of these traits can have, up to a wakeup.
pub open spec fn zi_strategy(traits: ZiTraits) -> spec_fn(Seq<Call>) -> bool {
    |past: Seq<Call>| traits.may_end(past)
}

/// A wakeup as a whole: every outstanding order is cancelled once and none is
/// known to rest after, one limit order follows with a size and a price that the
/// samplers may draw at the mid-price, and then one wakeup. Where the samplers
/// draw sizes and prices of at least 1, those of the order are.
pub proof fn law_a_wakeup_cancels_places_and_schedules(traits: ZiTraits, past: Seq<Call>)
    requires
        traits.may_end(past),
    ensures
        past.last() matches Call::Woke { time, agent_id, snapshots, actions } && {
            let known = zi_resting(past.drop_last()).items;
            let mid = spec_mid_at(snapshots, traits.symbol, traits.reference);
            let n = known.len() as int;
            &&& known.no_duplicates()
            &&& forall|id: u64|
                known.contains(id) <==> #[trigger] outstanding(past.drop_last(), every_wakeup(), id)
            &&& actions.len() == n + 2
            &&& forall|i: int|
                0 <= i < n ==> #[trigger] actions[i] == (AgentAction::CancelOrder {
                    symbol: traits.symbol,
                    order_id: known[i],
                })
            &&& actions[n] matches AgentAction::SubmitOrder {
                symbol,
                order: OrderAction::NewLimitOrder { side, price, qty, user_id },
            } && {
                &&& symbol == traits.symbol
                &&& (traits.sizes)(qty)
                &&& (traits.prices)(mid, price)
                &&& (forall|size: u64| #[trigger] (traits.sizes)(size) ==> size >= 1) ==> qty >= 1
                &&& (forall|at: i64, drawn: i64| #[trigger]
                    (traits.prices)(at, drawn) ==> drawn >= 1) ==> price >= 1
            }
            &&& actions[n + 1] matches AgentAction::ScheduleWakeUp { delay_ns } && (traits.delays)(
                delay_ns,
            )
            &&& zi_resting(past) == IndexedView::empty()
        },
{
    let before = past.drop_last();
    assert forall|id: u64| zi_resting(before).items.contains(id) <==> #[trigger] outstanding(
        before,
        every_wakeup(),
        id,
    ) by {
        law_outstanding_orders_are_known(before, every_wakeup(), id);
    }
    law_outstanding_orders_are_known(before, every_wakeup(), 0);
}

impl Agent for ZiAgent {
    open spec fn past(&self) -> Option<Seq<Call>> {
        Some(self.calls())
    }

    open spec fn strategy(&self) -> spec_fn(Seq<Call>) -> bool {
        zi_strategy(self.traits())
    }

    fn wakeup_into(
        &mut self,
        time: Nanos,
        agent_id: AgentId,
        snapshots: &[MarketSnapshot],
        actions: &mut Vec<AgentAction>,
    )
        ensures
            final(self).traits() == old(self).traits(),
            final(actions)@.take(old(actions)@.len() as int) == old(actions)@,
    {
        let ghost earlier = actions@;
        let mid: i64 = mid_at(snapshots, self.symbol, self.reference_price);
        let mut memory = ZiMemory::new();
        std::mem::swap(&mut self.memory, &mut memory);
        proof {
            use_type_invariant(&memory);
        }
        let ZiMemory { resting: mut resting_orders, calls } = memory;
        let resting = resting_orders.drain_all();
        let side = if coin(&mut self.rng) {
            Side::Bid
        } else {
            Side::Ask
        };
        let qty: u64 = self.size_sampler.item.sample_order_size(&mut self.rng);
        let price: i64 = self.price_sampler.item.sample_price(mid, &mut self.rng);
        let delay_ns: u64 = self.wakeup_sampler.item.sample_wakeup_delay(&mut self.rng);
        let draw = ZiDraw { side, qty, price, delay_ns };
        place_zi(self.symbol, &resting, &draw, actions);
        let ghost done = zi_actions(self.symbol, resting@, draw);
        let ghost call = Call::Woke { time, agent_id, snapshots: snapshots@, actions: done };
        self.memory = ZiMemory::woken(calls, Ghost(call));
        proof {
            assert(actions@.skip(earlier.len() as int) =~= done);
            assert(actions@.take(earlier.len() as int) =~= earlier);
            let past = calls@.push(call);
            assert(past.drop_last() =~= calls@);
            assert(self.traits() == old(self).traits());
            let traits = self.traits();
            lemma_may_end(traits, past, draw);
        }
    }

    fn on_exchange_message(&mut self, time: Nanos, agent_id: AgentId, message: ExchangeMessage)
        ensures
            final(self).traits() == old(self).traits(),
    {
        let mut memory = ZiMemory::new();
        std::mem::swap(&mut self.memory, &mut memory);
        self.memory = memory.heard(time, agent_id, message);
    }
}

} // verus!
