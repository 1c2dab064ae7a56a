//! The liquidity market-maker agent.

use crate::agent::{Agent, AgentAction, Call};
use crate::event::{ExchangeMessage, OrderAction};
use crate::order::Side;
use crate::rng::seeded;
use crate::samplers::{Ladder, LiquidityModel, Quote, WakeupSampler};
use crate::slot::Slot;
use crate::types::{AgentId, MarketSnapshot, Nanos, Symbol};
use crate::utils::{
    cancel_all, cancels, every_wakeup, known_resting, track, IndexedSet, IndexedView,
};
use rand::rngs::SmallRng;
use vstd::prelude::*;

verus! {

/// `root` is the integer nearest to the square root of `square`. No integer
/// has its root halfway between two others.
pub open spec fn is_nearest_root(root: int, square: int) -> bool {
    &&& root >= 0
    &&& root == 0 || (2 * root - 1) * (2 * root - 1) <= 4 * square
    &&& 4 * square < (2 * root + 1) * (2 * root + 1)
}

/// The mid-price of a market maker: the geometric mean of the best prices, at
/// the one there is, or at the reference. Best prices of opposite signs have
/// no such mean, and give zero.
pub open spec fn is_geometric_mid(snap: MarketSnapshot, reference: i64, mid: i64) -> bool {
    match (snap.best_bid, snap.best_ask) {
        (Some((bid, _)), Some((ask, _))) => if bid * ask < 0 {
            mid == 0
        } else {
            is_nearest_root(mid as int, bid * ask) || (mid == i64::MAX && is_nearest_root(
                mid + 1,
                bid * ask,
            ))
        },
        (Some((bid, _)), None) => mid == bid,
        (None, Some((ask, _))) => mid == ask,
        (None, None) => mid == reference,
    }
}

/// The mid-price of a market maker on a symbol: the reference where there is no
/// snapshot of it.
pub open spec fn is_geometric_mid_at(
    snapshots: Seq<MarketSnapshot>,
    symbol: Symbol,
    reference: i64,
    mid: i64,
) -> bool {
    if symbol < snapshots.len() {
        is_geometric_mid(snapshots[symbol as int], reference, mid)
    } else {
        mid == reference
    }
}

/// The inventory after a message: a fill of a bid adds to it, a fill of an ask
/// takes from it.
pub open spec fn inventory_after(inventory: i128, message: ExchangeMessage) -> i128 {
    match message {
        ExchangeMessage::OrderFilled { side: Side::Bid, qty, .. } => if inventory + qty
            <= i128::MAX {
            (inventory + qty) as i128
        } else {
            i128::MAX
        },
        ExchangeMessage::OrderFilled { side: Side::Ask, qty, .. } => if inventory - qty
            >= i128::MIN {
            (inventory - qty) as i128
        } else {
            i128::MIN
        },
        _ => inventory,
    }
}

/// The quote becomes an order: none without a quantity, and no bid below one
/// tick.
pub open spec fn is_placed(side: Side, quote: Quote) -> bool {
    quote.qty > 0 && (side == Side::Bid ==> quote.price >= 1)
}

/// The orders for the quotes of one side.
pub open spec fn quote_actions(symbol: Symbol, side: Side, quotes: Seq<Quote>) -> Seq<AgentAction>
    decreases quotes.len(),
{
    if quotes.len() == 0 {
        Seq::empty()
    } else {
        let before = quote_actions(symbol, side, quotes.drop_last());
        let quote = quotes.last();
        if is_placed(side, quote) {
            before.push(
                AgentAction::SubmitOrder {
                    symbol,
                    order: OrderAction::NewLimitOrder {
                        side,
                        price: quote.price,
                        qty: quote.qty,
                        user_id: 0,
                    },
                },
            )
        } else {
            before
        }
    }
}

/// What a market maker does on a wakeup: cancel what rests, place the bids and
/// then the asks, and schedule the next wakeup.
pub open spec fn market_maker_actions(
    symbol: Symbol,
    resting: Seq<u64>,
    bids: Seq<Quote>,
    asks: Seq<Quote>,
    delay_ns: u64,
) -> Seq<AgentAction> {
    (cancels(symbol, resting) + quote_actions(symbol, Side::Bid, bids) + quote_actions(
        symbol,
        Side::Ask,
        asks,
    )).push(AgentAction::ScheduleWakeUp { delay_ns })
}

/// The largest integer whose square does not exceed `square`.
fn floor_root(square: u128) -> (root: u128)
    requires
        square <= 0x4000_0000_0000_0000_0000_0000_0000_0000,
    ensures
        root <= 0x8000_0000_0000_0000,
        root * root <= square,
        square < (root + 1) * (root + 1),
{
    let mut low: u128 = 0;
    let mut high: u128 = 0x8000_0000_0000_0001;
    while high - low > 1
        invariant
            0 <= low < high <= 0x8000_0000_0000_0001,
            low * low <= square < high * high,
            square <= 0x4000_0000_0000_0000_0000_0000_0000_0000,
        decreases high - low,
    {
        let middle: u128 = low + (high - low) / 2;
        assert(middle * middle <= 0x8000_0000_0000_0001 * 0x8000_0000_0000_0001)
            by (nonlinear_arith)
            requires
                0 <= middle <= 0x8000_0000_0000_0001,
        ;
        if middle * middle <= square {
            low = middle;
        } else {
            high = middle;
        }
    }
    low
}

/// The integer nearest to the square root.
fn nearest_root(square: u128) -> (root: u128)
    requires
        square <= 0x4000_0000_0000_0000_0000_0000_0000_0000,
    ensures
        root <= 0x8000_0000_0000_0000,
        is_nearest_root(root as int, square as int),
{
    let low: u128 = floor_root(square);
    proof {
        assert(low * low <= 0x8000_0000_0000_0000 * 0x8000_0000_0000_0000) by (nonlinear_arith)
            requires
                0 <= low <= 0x8000_0000_0000_0000,
        ;
    }
    let root: u128 = if square - low * low <= low {
        low
    } else {
        low + 1
    };
    proof {
        let l = low as int;
        let s = square as int;
        assert((l + 1) * (l + 1) == l * l + 2 * l + 1) by (nonlinear_arith);
        assert((2 * l - 1) * (2 * l - 1) == 4 * (l * l) - 4 * l + 1) by (nonlinear_arith);
        assert((2 * l + 1) * (2 * l + 1) == 4 * (l * l) + 4 * l + 1) by (nonlinear_arith);
        assert((2 * (l + 1) - 1) * (2 * (l + 1) - 1) == 4 * (l * l) + 4 * l + 1)
            by (nonlinear_arith);
        assert((2 * (l + 1) + 1) * (2 * (l + 1) + 1) == 4 * (l * l) + 12 * l + 9)
            by (nonlinear_arith);
        if low == 0x8000_0000_0000_0000 {
            assert(l * l == 0x4000_0000_0000_0000_0000_0000_0000_0000);
        }
    }
    root
}

/// The orders that a market maker knows to rest after its calls: a wakeup
/// cancels them all.
pub open spec fn market_maker_resting(past: Seq<Call>) -> IndexedView {
    known_resting(past, every_wakeup())
}

/// The inventory of a market maker after its calls: what its fills add up to.
pub open spec fn market_maker_inventory(past: Seq<Call>) -> i128
    decreases past.len(),
{
    if past.len() == 0 {
        0
    } else {
        match past.last() {
            Call::Heard { time, agent_id, message } => inventory_after(
                market_maker_inventory(past.drop_last()),
                message,
            ),
            Call::Woke { time, agent_id, snapshots, actions } => market_maker_inventory(
                past.drop_last(),
            ),
        }
    }
}

/// What makes up a market maker: what it trades, and what its model and
/// sampler may draw.
#[verifier::ext_equal]
pub struct MarketMakerTraits {
    pub reference: i64,
    pub symbol: Symbol,
    pub ladders: spec_fn(i64, i128, Seq<Quote>, Seq<Quote>) -> bool,
    pub delays: spec_fn(u64) -> bool,
}

impl MarketMakerTraits {
    /// The model and the sampler may draw these values.
    pub open spec fn may_draw(
        self,
        mid: i64,
        inventory: i128,
        ladder: Ladder,
        delay_ns: u64,
    ) -> bool {
        &&& (self.ladders)(mid, inventory, ladder.bids@, ladder.asks@)
        &&& (self.delays)(delay_ns)
    }

    /// The last of the calls can have come about: the agent cancelled what
    /// rested, placed the levels that the model drew at the geometric mid-price
    /// and the inventory, and scheduled its next wakeup.
    pub open spec fn may_end(self, past: Seq<Call>) -> bool {
        let before = past.drop_last();
        &&& past.len() > 0
        &&& past.last() matches Call::Woke { time, agent_id, snapshots, actions } && exists|
            mid: i64,
            ladder: Ladder,
            delay_ns: u64,
        | #[trigger]
            self.may_draw(mid, market_maker_inventory(before), ladder, delay_ns)
                && is_geometric_mid_at(snapshots, self.symbol, self.reference, mid) && actions
                == market_maker_actions(
                self.symbol,
                market_maker_resting(before).items,
                ladder.bids@,
                ladder.asks@,
                delay_ns,
            )
    }
}

/// The records that an agent of these traits can have, up to a wakeup.
pub open spec fn market_maker_strategy(traits: MarketMakerTraits) -> spec_fn(Seq<Call>) -> bool {
    |past: Seq<Call>| traits.may_end(past)
}

/// What a market maker remembers: its resting orders and its inventory, in
/// step with its calls.
struct MarketMakerMemory {
    resting: IndexedSet,
    /// Net inventory (positive = long, negative = short), advanced from the
    /// side carried by each fill.
    inventory: i128,
    calls: Ghost<Seq<Call>>,
}

impl MarketMakerMemory {
    #[verifier::type_invariant]
    spec fn inv(&self) -> bool {
        &&& self.resting@ == market_maker_resting(self.calls@)
        &&& self.inventory == market_maker_inventory(self.calls@)
    }

    /// Nothing to remember.
    fn new() -> (memory: Self)
        ensures
            memory.calls@ == Seq::<Call>::empty(),
    {
        MarketMakerMemory {
            resting: IndexedSet::new(),
            inventory: 0,
            calls: Ghost(Seq::empty()),
        }
    }

    /// A message has been heard.
    fn heard(self, time: Nanos, agent_id: AgentId, message: ExchangeMessage) -> (memory: Self)
        ensures
            memory.calls@ == self.calls@.push(Call::Heard { time, agent_id, message }),
    {
        proof {
            use_type_invariant(&self);
        }
        let MarketMakerMemory { mut resting, mut inventory, calls } = self;
        let ghost all = calls@.push(Call::Heard { time, agent_id, message });
        track(&mut resting, message);
        match message {
            ExchangeMessage::OrderFilled { side: Side::Bid, qty, .. } => {
                inventory = if inventory <= i128::MAX - qty as i128 {
                    inventory + qty as i128
                } else {
                    i128::MAX
                };
            },
            ExchangeMessage::OrderFilled { side: Side::Ask, qty, .. } => {
                inventory = if inventory >= i128::MIN + qty as i128 {
                    inventory - qty as i128
                } else {
                    i128::MIN
                };
            },
            _ => {},
        }
        assert(all.drop_last() =~= calls@);
        MarketMakerMemory { resting, inventory, calls: Ghost(all) }
    }

    /// A wakeup is over, and with it every order that rested.
    fn woken(inventory: i128, Ghost(calls): Ghost<Seq<Call>>, Ghost(call): Ghost<Call>) -> (memory:
        Self)
        requires
            call is Woke,
            inventory == market_maker_inventory(calls),
        ensures
            memory.calls@ == calls.push(call),
    {
        assert(calls.push(call).drop_last() =~= calls);
        MarketMakerMemory {
            resting: IndexedSet::new(),
            inventory,
            calls: Ghost(calls.push(call)),
        }
    }
}

/// Liquidity market-maker agent using a pluggable liquidity model.
///
/// Places multiple bid and ask orders at different price levels around the
/// geometric mid-price `sqrt(bid * ask)`. The model adjusts the liquidity
/// distribution to the inventory.
pub struct MarketMakerAgent {
    reference_price: i64,
    symbol: Symbol,
    rng: SmallRng,
    memory: MarketMakerMemory,
    liquidity_model: Slot<Box<dyn LiquidityModel>>,
    wakeup_sampler: Slot<Box<dyn WakeupSampler>>,
}

impl MarketMakerAgent {
    /// What makes up the agent.
    pub closed spec fn traits(&self) -> MarketMakerTraits {
        MarketMakerTraits {
            reference: self.reference_price,
            symbol: self.symbol,
            ladders: self.liquidity_model.item.ladders(),
            delays: self.wakeup_sampler.item.delays(),
        }
    }

    /// The calls so far.
    pub closed spec fn calls(&self) -> Seq<Call> {
        self.memory.calls@
    }

    /// Create a market-maker agent with custom liquidity model and wakeup
    /// sampler.
    #[must_use]
    pub fn with_samplers(
        reference_price: i64,
        symbol: Symbol,
        seed: u64,
        liquidity_model: Box<dyn LiquidityModel>,
        wakeup_sampler: Box<dyn WakeupSampler>,
    ) -> (agent: Self)
        ensures
            agent.traits() == (MarketMakerTraits {
                reference: reference_price,
                symbol,
                ladders: liquidity_model.ladders(),
                delays: wakeup_sampler.delays(),
            }),
            agent.calls() == Seq::<Call>::empty(),
    {
        let liquidity_model = Slot { item: liquidity_model };
        let wakeup_sampler = Slot { item: wakeup_sampler };
        MarketMakerAgent {
            reference_price,
            symbol,
            rng: seeded(seed),
            memory: MarketMakerMemory::new(),
            liquidity_model,
            wakeup_sampler,
        }
    }

    /// Net inventory (positive = long, negative = short).
    #[must_use]
    pub fn inventory(&self) -> (inventory: i128)
        ensures
            inventory == market_maker_inventory(self.calls()),
    {
        proof {
            use_type_invariant(&self.memory);
        }
        self.memory.inventory
    }

    /// Compute mid-price as geometric mean `sqrt(bid * ask)`.
    /// Falls back to one-sided price or reference price when book is empty.
    #[must_use]
    pub fn geometric_mid(snap: &MarketSnapshot, reference: i64) -> (mid: i64)
        ensures
            is_geometric_mid(*snap, reference, mid),
    {
        match (snap.best_bid, snap.best_ask) {
            (Some((bid, _)), Some((ask, _))) => {
                proof {
                    lemma_product_fits(bid as int, ask as int);
                }
                let square: i128 = bid as i128 * ask as i128;
                if square < 0 {
                    0
                } else {
                    let root: u128 = nearest_root(square as u128);
                    if root > i64::MAX as u128 {
                        i64::MAX
                    } else {
                        root as i64
                    }
                }
            },
            (Some((bid, _)), None) => bid,
            (None, Some((ask, _))) => ask,
            (None, None) => reference,
        }
    }
}

/// The product of two prices is small enough for its root.
proof fn lemma_product_fits(bid: int, ask: int)
    requires
        i64::MIN <= bid <= i64::MAX,
        i64::MIN <= ask <= i64::MAX,
    ensures
        -0x4000_0000_0000_0000_0000_0000_0000_0000 <= bid * ask
            <= 0x4000_0000_0000_0000_0000_0000_0000_0000,
{
    assert(-0x4000_0000_0000_0000_0000_0000_0000_0000 <= bid * ask
        <= 0x4000_0000_0000_0000_0000_0000_0000_0000) by (nonlinear_arith)
        requires
            -0x8000_0000_0000_0000 <= bid <= 0x7fff_ffff_ffff_ffff,
            -0x8000_0000_0000_0000 <= ask <= 0x7fff_ffff_ffff_ffff,
    ;
}

/// Writes the orders for the quotes of one side.
fn place_side(symbol: Symbol, side: Side, quotes: &Vec<Quote>, actions: &mut Vec<AgentAction>)
    ensures
        final(actions)@ == old(actions)@ + quote_actions(symbol, side, quotes@),
{
    let ghost before = actions@;
    for i in 0..quotes.len()
        invariant
            actions@ == before + quote_actions(symbol, side, quotes@.take(i as int)),
    {
        let quote = quotes[i];
        let placed = quote.qty > 0 && (side != Side::Bid || quote.price >= 1);
        if placed {
            actions.push(
                AgentAction::SubmitOrder {
                    symbol,
                    order: OrderAction::NewLimitOrder {
                        side,
                        price: quote.price,
                        qty: quote.qty,
                        user_id: 0,
                    },
                },
            );
        }
        let ghost done = quotes@.take(i + 1);
        assert(done.drop_last() =~= quotes@.take(i as int));
        assert(done.last() == quote);
        assert(actions@ =~= before + quote_actions(symbol, side, done));
    }
    assert(quotes@.take(quotes@.len() as int) =~= quotes@);
}

/// Writes the actions of a wakeup from what was drawn.
pub fn place_quotes(
    symbol: Symbol,
    resting: &Vec<u64>,
    ladder: &Ladder,
    delay_ns: u64,
    actions: &mut Vec<AgentAction>,
)
    ensures
        final(actions)@ == old(actions)@ + market_maker_actions(
            symbol,
            resting@,
            ladder.bids@,
            ladder.asks@,
            delay_ns,
        ),
{
    let ghost before = actions@;
    cancel_all(symbol, resting, actions);
    place_side(symbol, Side::Bid, &ladder.bids, actions);
    place_side(symbol, Side::Ask, &ladder.asks, actions);
    actions.push(AgentAction::ScheduleWakeUp { delay_ns });
    assert(actions@ =~= before + market_maker_actions(
        symbol,
        resting@,
        ladder.bids@,
        ladder.asks@,
        delay_ns,
    ));
}

impl Agent for MarketMakerAgent {
    open spec fn past(&self) -> Option<Seq<Call>> {
        Some(self.calls())
    }

    open spec fn strategy(&self) -> spec_fn(Seq<Call>) -> bool {
        market_maker_strategy(self.traits())
    }

    fn wakeup_into(
        &mut self,
        time: Nanos,
        agent_id: AgentId,
        snapshots: &[MarketSnapshot],
        actions: &mut Vec<AgentAction>,
    )
        ensures
            final(self).traits() == old(self).traits(),
            final(actions)@.take(old(actions)@.len() as int) == old(actions)@,
    {
        let ghost earlier = actions@;
        let mid: i64 = if (self.symbol as usize) < snapshots.len() {
            Self::geometric_mid(&snapshots[self.symbol as usize], self.reference_price)
        } else {
            self.reference_price
        };
        let mut memory = MarketMakerMemory::new();
        std::mem::swap(&mut self.memory, &mut memory);
        proof {
            use_type_invariant(&memory);
        }
        let MarketMakerMemory { resting: mut resting_orders, inventory, calls } = memory;
        let resting = resting_orders.drain_all();
        let ladder = self.liquidity_model.item.quotes(mid, inventory, &mut self.rng);
        let delay_ns: u64 = self.wakeup_sampler.item.sample_wakeup_delay(&mut self.rng);
        place_quotes(self.symbol, &resting, &ladder, delay_ns, actions);
        let ghost done = market_maker_actions(
            self.symbol,
            resting@,
            ladder.bids@,
            ladder.asks@,
            delay_ns,
        );
        let ghost call = Call::Woke { time, agent_id, snapshots: snapshots@, actions: done };
        self.memory = MarketMakerMemory::woken(inventory, calls, Ghost(call));
        proof {
            assert(actions@.skip(earlier.len() as int) =~= done);
            assert(actions@.take(earlier.len() as int) =~= earlier);
            let past = calls@.push(call);
            assert(past.drop_last() =~= calls@);
            assert(self.traits() == old(self).traits());
            assert(self.traits().may_draw(mid, inventory, ladder, delay_ns));
            assert(self.traits().may_end(past));
        }
    }

    fn on_exchange_message(&mut self, time: Nanos, agent_id: AgentId, message: ExchangeMessage)
        ensures
            final(self).traits() == old(self).traits(),
    {
        let mut memory = MarketMakerMemory::new();
        std::mem::swap(&mut self.memory, &mut memory);
        self.memory = memory.heard(time, agent_id, message);
    }
}

} // verus!
