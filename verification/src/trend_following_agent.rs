//! The trend-following agent, and its contrarian twin.

use crate::agent::{Agent, AgentAction, Call};
use crate::event::{ExchangeMessage, OrderAction};
use crate::flow_model::RatioEdge;
use crate::order::Side;
use crate::rng::seeded;
use crate::samplers::{MovingAverage, TrendPriceSampler, TrendSizeSampler, WakeupSampler};
use crate::slot::Slot;
use crate::types::{AgentId, MarketSnapshot, Nanos, Symbol};
use crate::utils::{
    cancel_all, cancels, known_resting, mid_at, spec_mid_at, track, IndexedSet, IndexedView,
};
use crate::wide::{mul_wide, mul_wider, wide_le, wider_lt, WORD};
use rand::rngs::SmallRng;
use std::collections::VecDeque;
use vstd::prelude::*;

verus! {

/// Candles that are kept beyond the long window.
pub const SPARE_CANDLES: usize = 10;

/// Configuration for a trend-following agent.
#[derive(Debug, Clone, Copy, PartialEq, Eq, Structural)]
pub struct TrendFollowingConfig {
    /// Short moving-average window (in candles).
    pub short_window: usize,
    /// Long moving-average window (in candles).
    pub long_window: usize,
    /// Lower edge of the quiet band: the ratio of the short to the long
    /// average down to which its logarithm stays within the threshold.
    pub band_low: RatioEdge,
    /// Upper edge of the quiet band.
    pub band_high: RatioEdge,
    /// Sampling frequency for price candles (nanoseconds).
    pub sampling_freq_ns: u64,
    /// Reference price when book is empty.
    pub reference_price: i64,
    /// Symbol index to trade (0-based).
    pub symbol: Symbol,
    /// If true, invert the trading direction (contrarian/mean-reversion).
    pub contrarian: bool,
}

/// The sum of prices.
pub open spec fn price_sum(prices: Seq<i64>) -> int
    decreases prices.len(),
{
    if prices.len() == 0 {
        0
    } else {
        price_sum(prices.drop_last()) + prices.last()
    }
}

/// The moving average over the last `window` prices, once there are as many.
pub open spec fn moving_average(prices: Seq<i64>, window: usize) -> Option<MovingAverage> {
    if prices.len() < window {
        None
    } else {
        Some(
            MovingAverage {
                sum: price_sum(prices.skip(prices.len() - window)) as i128,
                window,
            },
        )
    }
}

/// The short average lies above the long one.
pub open spec fn rising(short: MovingAverage, long: MovingAverage) -> bool {
    short.sum * long.window > long.sum * short.window
}

/// The side of a trade: with the trend, or against it.
pub open spec fn trend_side(contrarian: bool, short: MovingAverage, long: MovingAverage) -> Side {
    if rising(short, long) != contrarian {
        Side::Bid
    } else {
        Side::Ask
    }
}

/// The ratio of the short to the long average lies above the edge.
pub open spec fn above(short: MovingAverage, long: MovingAverage, edge: RatioEdge) -> bool {
    short.sum * long.window * edge.den > long.sum * short.window * edge.num
}

/// The ratio of the short to the long average lies below the edge.
pub open spec fn below(short: MovingAverage, long: MovingAverage, edge: RatioEdge) -> bool {
    short.sum * long.window * edge.den < long.sum * short.window * edge.num
}

/// The signal calls for a trade: with the trend outside the quiet band, against
/// it inside.
pub open spec fn spec_should_trade(
    cfg: TrendFollowingConfig,
    short: MovingAverage,
    long: MovingAverage,
) -> bool {
    if cfg.contrarian {
        above(short, long, cfg.band_low) && below(short, long, cfg.band_high)
    } else {
        below(short, long, cfg.band_low) || above(short, long, cfg.band_high)
    }
}

/// Prices and the time of the last one.
#[verifier::ext_equal]
pub struct Candles {
    pub prices: Seq<i64>,
    pub last_time: Nanos,
}

impl Candles {
    /// A price is sampled if there is none yet or enough time has elapsed. Old
    /// prices leave.
    pub open spec fn sampled(self, cfg: TrendFollowingConfig, time: Nanos, mid: i64) -> Candles {
        if self.prices.len() == 0 || time >= self.last_time + cfg.sampling_freq_ns {
            let more = self.prices.push(mid);
            Candles {
                prices: if more.len() > cfg.long_window + SPARE_CANDLES {
                    more.drop_first()
                } else {
                    more
                },
                last_time: time,
            }
        } else {
            self
        }
    }
}

/// What a trend agent draws on a wakeup.
pub struct TrendDraw {
    pub qty: u64,
    pub price: i64,
    pub delay_ns: u64,
}

/// The two averages on which a trend agent may trade: both there, and above
/// zero.
pub open spec fn trend_averages(
    cfg: TrendFollowingConfig,
    prices: Seq<i64>,
) -> Option<(MovingAverage, MovingAverage)> {
    match (moving_average(prices, cfg.short_window), moving_average(prices, cfg.long_window)) {
        (Some(short), Some(long)) => if short.sum > 0 && long.sum > 0 {
            Some((short, long))
        } else {
            None
        },
        _ => None,
    }
}

/// The order of a trade: what rests is cancelled first.
pub open spec fn trade_actions(
    symbol: Symbol,
    resting: Seq<u64>,
    side: Side,
    price: i64,
    qty: u64,
) -> Seq<AgentAction> {
    cancels(symbol, resting).push(
        AgentAction::SubmitOrder {
            symbol,
            order: OrderAction::NewLimitOrder { side, price, qty, user_id: 0 },
        },
    )
}

/// What a trend agent does on a wakeup, given its candles: trade if the signal
/// calls for it, and schedule the next wakeup.
pub open spec fn trend_actions(
    cfg: TrendFollowingConfig,
    prices: Seq<i64>,
    resting: Seq<u64>,
    draw: TrendDraw,
) -> Seq<AgentAction> {
    let orders = match trend_averages(cfg, prices) {
        Some((short, long)) => if spec_should_trade(cfg, short, long) {
            trade_actions(
                cfg.symbol,
                resting,
                trend_side(cfg.contrarian, short, long),
                draw.price,
                draw.qty,
            )
        } else {
            Seq::empty()
        },
        None => Seq::empty(),
    };
    orders.push(AgentAction::ScheduleWakeUp { delay_ns: draw.delay_ns })
}

/// The sum of `n` prices fits in 128 bits.
proof fn lemma_price_sum_fits(prices: Seq<i64>)
    ensures
        i64::MIN * prices.len() <= price_sum(prices) <= i64::MAX * prices.len(),
    decreases prices.len(),
{
    if prices.len() > 0 {
        lemma_price_sum_fits(prices.drop_last());
    }
}

/// Whether the short average lies above the long one.
pub fn is_rising(short: MovingAverage, long: MovingAverage) -> (up: bool)
    requires
        short.sum >= 0,
        long.sum >= 0,
    ensures
        up == rising(short, long),
{
    let a = mul_wide(short.sum as u128, long.window as u64, 0);
    let b = mul_wide(long.sum as u128, short.window as u64, 0);
    !wide_le(a, b)
}

/// The candles of a trend agent after its calls: each wakeup may sample one.
pub open spec fn trend_candles(cfg: TrendFollowingConfig, past: Seq<Call>) -> Candles
    decreases past.len(),
{
    if past.len() == 0 {
        Candles { prices: Seq::empty(), last_time: 0 }
    } else {
        let before = trend_candles(cfg, past.drop_last());
        match past.last() {
            Call::Heard { time, agent_id, message } => before,
            Call::Woke { time, agent_id, snapshots, actions } => before.sampled(
                cfg,
                time,
                spec_mid_at(snapshots, cfg.symbol, cfg.reference_price),
            ),
        }
    }
}

/// The wakeup traded: it did more than schedule the next one.
pub open spec fn traded(actions: Seq<AgentAction>) -> bool {
    actions.len() > 1
}

/// The orders that a trend agent knows to rest after its calls: a wakeup that
/// trades cancels them all.
pub open spec fn trend_resting(past: Seq<Call>) -> IndexedView {
    known_resting(past, |actions: Seq<AgentAction>| traded(actions))
}

/// What makes up a trend agent: its configuration, and what its samplers may
/// draw.
#[verifier::ext_equal]
pub struct TrendTraits {
    pub cfg: TrendFollowingConfig,
    pub prices: spec_fn(i64, Side, i64) -> bool,
    pub sizes: spec_fn(MovingAverage, MovingAverage, u64) -> bool,
    pub delays: spec_fn(u64) -> bool,
}

impl TrendTraits {
    /// The samplers may draw these values on these candles. Size and price are
    /// drawn only for a trade.
    pub open spec fn may_draw(self, mid: i64, prices: Seq<i64>, draw: TrendDraw) -> bool {
        &&& (self.delays)(draw.delay_ns)
        &&& trend_averages(self.cfg, prices) matches Some((short, long)) ==> (spec_should_trade(
            self.cfg,
            short,
            long,
        ) ==> {
            &&& (self.sizes)(short, long, draw.qty)
            &&& (self.prices)(mid, trend_side(self.cfg.contrarian, short, long), draw.price)
        })
    }

    /// The last of the calls can have come about: the agent traded if the
    /// signal called for it on the candles it then had, and scheduled its next
    /// wakeup.
    pub open spec fn may_end(self, past: Seq<Call>) -> bool {
        let prices = trend_candles(self.cfg, past).prices;
        &&& past.len() > 0
        &&& past.last() matches Call::Woke { time, agent_id, snapshots, actions } && exists|
            draw: TrendDraw,
        | #[trigger]
            self.may_draw(
                spec_mid_at(snapshots, self.cfg.symbol, self.cfg.reference_price),
                prices,
                draw,
            ) && actions == trend_actions(
                self.cfg,
                prices,
                trend_resting(past.drop_last()).items,
                draw,
            )
    }
}

/// The records that an agent of these traits can have, up to a wakeup.
pub open spec fn trend_strategy(traits: TrendTraits) -> spec_fn(Seq<Call>) -> bool {
    |past: Seq<Call>| traits.may_end(past)
}

/// What a trend agent remembers: its candles and its resting orders, in step
/// with its calls.
struct TrendMemory {
    cfg: TrendFollowingConfig,
    resting: IndexedSet,
    /// Raw mid-prices, most recent at back.
    price_history: VecDeque<i64>,
    /// Time of last price sample.
    last_sample_time: Nanos,
    calls: Ghost<Seq<Call>>,
}

impl TrendMemory {
    #[verifier::type_invariant]
    spec fn inv(&self) -> bool {
        &&& self.candles() == trend_candles(self.cfg, self.calls@)
        &&& self.resting@ == trend_resting(self.calls@)
    }

    spec fn candles(&self) -> Candles {
        Candles { prices: self.price_history@, last_time: self.last_sample_time }
    }

    /// Nothing to remember.
    fn new(cfg: TrendFollowingConfig) -> (memory: Self)
        ensures
            memory.cfg == cfg,
            memory.calls@ == Seq::<Call>::empty(),
    {
        let price_history: VecDeque<i64> = VecDeque::new();
        assert(price_history@ =~= Seq::<i64>::empty());
        TrendMemory {
            cfg,
            resting: IndexedSet::new(),
            price_history,
            last_sample_time: 0,
            calls: Ghost(Seq::empty()),
        }
    }

    /// A message has been heard.
    fn heard(self, time: Nanos, agent_id: AgentId, message: ExchangeMessage) -> (memory: Self)
        ensures
            memory.cfg == self.cfg,
            memory.calls@ == self.calls@.push(Call::Heard { time, agent_id, message }),
    {
        proof {
            use_type_invariant(&self);
        }
        let TrendMemory { cfg, mut resting, price_history, last_sample_time, calls } = self;
        let ghost all = calls@.push(Call::Heard { time, agent_id, message });
        track(&mut resting, message);
        assert(all.drop_last() =~= calls@);
        TrendMemory { cfg, resting, price_history, last_sample_time, calls: Ghost(all) }
    }
}

/// Sample a price candle if there is none or enough time has elapsed.
fn sample_candle(
    cfg: &TrendFollowingConfig,
    price_history: &mut VecDeque<i64>,
    last_sample_time: Nanos,
    time: Nanos,
    mid: i64,
) -> (last_time: Nanos)
    ensures
        (Candles { prices: final(price_history)@, last_time }) == (Candles {
            prices: old(price_history)@,
            last_time: last_sample_time,
        }).sampled(*cfg, time, mid),
{
    let ghost before = Candles { prices: price_history@, last_time: last_sample_time };
    let due = time >= last_sample_time && time - last_sample_time >= cfg.sampling_freq_ns;
    if due || price_history.len() == 0 {
        price_history.push_back(mid);
        let len: usize = price_history.len();
        if len > SPARE_CANDLES && len - SPARE_CANDLES > cfg.long_window {
            price_history.pop_front();
        }
        assert(price_history@ =~= before.sampled(*cfg, time, mid).prices);
        time
    } else {
        last_sample_time
    }
}

/// The moving average over the last `window` prices, once there are as many.
#[must_use]
pub fn compute_ma(price_history: &VecDeque<i64>, window: usize) -> (ma: Option<MovingAverage>)
    ensures
        ma == moving_average(price_history@, window),
{
    if price_history.len() < window {
        return None;
    }
    let start: usize = price_history.len() - window;
    let mut sum: i128 = 0;
    let mut i: usize = start;
    let ghost tail = price_history@.skip(start as int);
    while i < price_history.len()
        invariant
            start <= i <= price_history@.len(),
            tail == price_history@.skip(start as int),
            sum == price_sum(tail.take(i - start)),
        decreases price_history@.len() - i,
    {
        let ghost before = tail.take(i - start);
        let ghost after = tail.take(i + 1 - start);
        proof {
            assert(after.drop_last() =~= before);
            assert(after.last() == price_history@[i as int]);
            lemma_price_sum_fits(after);
            lemma_fits_wide(after.len() as int, price_sum(after));
        }
        sum = sum + price_history[i] as i128;
        i = i + 1;
    }
    assert(tail.take(i - start) =~= tail);
    Some(MovingAverage { sum, window })
}

/// The side of a trade on these averages.
#[must_use]
pub fn determine_side(contrarian: bool, short: MovingAverage, long: MovingAverage) -> (side: Side)
    requires
        short.sum >= 0,
        long.sum >= 0,
    ensures
        side == trend_side(contrarian, short, long),
{
    if is_rising(short, long) != contrarian {
        Side::Bid
    } else {
        Side::Ask
    }
}

/// The averages on which the agent may trade.
fn averages_of(cfg: &TrendFollowingConfig, price_history: &VecDeque<i64>) -> (averages: Option<
    (MovingAverage, MovingAverage),
>)
    ensures
        averages == trend_averages(*cfg, price_history@),
{
    match (compute_ma(price_history, cfg.short_window), compute_ma(price_history, cfg.long_window)) {
        (Some(short), Some(long)) => if short.sum > 0 && long.sum > 0 {
            Some((short, long))
        } else {
            None
        },
        _ => None,
    }
}

/// A ratio of averages, as two numbers that compare like the ratio and an edge.
fn against_edge(short: MovingAverage, long: MovingAverage, edge: RatioEdge) -> (sides: (
    (u128, u128),
    (u128, u128),
))
    requires
        short.sum >= 0,
        long.sum >= 0,
    ensures
        sides.0.0 * (WORD * WORD) + sides.0.1 == short.sum * long.window * edge.den,
        sides.1.0 * (WORD * WORD) + sides.1.1 == long.sum * short.window * edge.num,
{
    let a = mul_wide(short.sum as u128, long.window as u64, 0);
    let b = mul_wide(long.sum as u128, short.window as u64, 0);
    (mul_wider(a, edge.den), mul_wider(b, edge.num))
}

/// Whether the signal calls for a trade.
#[must_use]
pub fn should_trade(cfg: &TrendFollowingConfig, short: MovingAverage, long: MovingAverage) -> (trade:
    bool)
    requires
        short.sum >= 0,
        long.sum >= 0,
    ensures
        trade == spec_should_trade(*cfg, short, long),
{
    let (low_ratio, low_edge) = against_edge(short, long, cfg.band_low);
    let (high_ratio, high_edge) = against_edge(short, long, cfg.band_high);
    if cfg.contrarian {
        wider_lt(low_edge, low_ratio) && wider_lt(high_ratio, high_edge)
    } else {
        wider_lt(low_ratio, low_edge) || wider_lt(high_edge, high_ratio)
    }
}

/// Trend-following (or contrarian) agent based on moving-average crossover.
///
/// Collects raw mid-price candles at `sampling_freq_ns` intervals and computes
/// short and long moving averages. Their log-ratio is the signal. Trades when
/// the signal exceeds a threshold: when the ratio leaves the quiet band.
///
/// In contrarian mode the condition is inverted, and so is the trade direction.
pub struct TrendFollowingAgent {
    rng: SmallRng,
    memory: TrendMemory,
    price_sampler: Slot<Box<dyn TrendPriceSampler>>,
    size_sampler: Slot<Box<dyn TrendSizeSampler>>,
    wakeup_sampler: Slot<Box<dyn WakeupSampler>>,
}

impl TrendFollowingAgent {
    /// What makes up the agent.
    pub closed spec fn traits(&self) -> TrendTraits {
        TrendTraits {
            cfg: self.memory.cfg,
            prices: self.price_sampler.item.prices(),
            sizes: self.size_sampler.item.sizes(),
            delays: self.wakeup_sampler.item.delays(),
        }
    }

    /// The calls so far.
    pub closed spec fn calls(&self) -> Seq<Call> {
        self.memory.calls@
    }

    /// Create a trend-following agent with custom sampling strategies.
    #[must_use]
    pub fn with_samplers(
        config: TrendFollowingConfig,
        seed: u64,
        price_sampler: Box<dyn TrendPriceSampler>,
        size_sampler: Box<dyn TrendSizeSampler>,
        wakeup_sampler: Box<dyn WakeupSampler>,
    ) -> (agent: Self)
        ensures
            agent.traits() == (TrendTraits {
                cfg: config,
                prices: price_sampler.prices(),
                sizes: size_sampler.sizes(),
                delays: wakeup_sampler.delays(),
            }),
            agent.calls() == Seq::<Call>::empty(),
    {
        let price_sampler = Slot { item: price_sampler };
        let size_sampler = Slot { item: size_sampler };
        let wakeup_sampler = Slot { item: wakeup_sampler };
        TrendFollowingAgent {
            rng: seeded(seed),
            memory: TrendMemory::new(config),
            price_sampler,
            size_sampler,
            wakeup_sampler,
        }
    }

    /// The moving average over the last `window` candles, once there are as
    /// many.
    #[must_use]
    pub fn compute_ma(&self, window: usize) -> (ma: Option<MovingAverage>)
        ensures
            ma == moving_average(trend_candles(self.traits().cfg, self.calls()).prices, window),
    {
        proof {
            use_type_invariant(&self.memory);
        }
        compute_ma(&self.memory.price_history, window)
    }

    /// Number of candles.
    #[must_use]
    pub fn candle_count(&self) -> (count: usize)
        ensures
            count == trend_candles(self.traits().cfg, self.calls()).prices.len(),
    {
        proof {
            use_type_invariant(&self.memory);
        }
        self.memory.price_history.len()
    }
}

/// A sum of as many prices as there are indices fits in 128 bits.
proof fn lemma_fits_wide(n: int, sum: int)
    requires
        0 <= n <= usize::MAX,
        i64::MIN * n <= sum <= i64::MAX * n,
    ensures
        i128::MIN <= sum <= i128::MAX,
{
    assert(i64::MIN * n >= i64::MIN * 0xffff_ffff_ffff_ffff) by (nonlinear_arith)
        requires
            0 <= n <= 0xffff_ffff_ffff_ffff,
    ;
    assert(i64::MAX * n <= i64::MAX * 0xffff_ffff_ffff_ffff) by (nonlinear_arith)
        requires
            0 <= n <= 0xffff_ffff_ffff_ffff,
    ;
}

/// Writes the order of a trade, after the cancels.
pub fn place_trade(
    symbol: Symbol,
    resting: &Vec<u64>,
    side: Side,
    price: i64,
    qty: u64,
    actions: &mut Vec<AgentAction>,
)
    ensures
        final(actions)@ == old(actions)@ + trade_actions(symbol, resting@, side, price, qty),
{
    let ghost before = actions@;
    cancel_all(symbol, resting, actions);
    actions.push(
        AgentAction::SubmitOrder {
            symbol,
            order: OrderAction::NewLimitOrder { side, price, qty, user_id: 0 },
        },
    );
    assert(actions@ =~= before + trade_actions(symbol, resting@, side, price, qty));
}

impl Agent for TrendFollowingAgent {
    open spec fn past(&self) -> Option<Seq<Call>> {
        Some(self.calls())
    }

    open spec fn strategy(&self) -> spec_fn(Seq<Call>) -> bool {
        trend_strategy(self.traits())
    }

    fn wakeup_into(
        &mut self,
        time: Nanos,
        agent_id: AgentId,
        snapshots: &[MarketSnapshot],
        actions: &mut Vec<AgentAction>,
    )
        ensures
            final(self).traits() == old(self).traits(),
            final(actions)@.take(old(actions)@.len() as int) == old(actions)@,
    {
        let ghost earlier = actions@;
        let mut memory = TrendMemory::new(self.memory.cfg);
        std::mem::swap(&mut self.memory, &mut memory);
        proof {
            use_type_invariant(&memory);
        }
        let TrendMemory { cfg, resting: mut resting_orders, mut price_history, last_sample_time, calls } =
            memory;
        let ghost resting0 = resting_orders@;
        let mid: i64 = mid_at(snapshots, cfg.symbol, cfg.reference_price);
        let last_sample_time: u64 = sample_candle(
            &cfg,
            &mut price_history,
            last_sample_time,
            time,
            mid,
        );
        let mut qty: u64 = 0;
        let mut price: i64 = 0;
        let averages = averages_of(&cfg, &price_history);
        match averages {
            Some((short, long)) => {
                if should_trade(&cfg, short, long) {
                    let resting = resting_orders.drain_all();
                    let side = determine_side(cfg.contrarian, short, long);
                    qty = self.size_sampler.item.sample_order_size(short, long, &mut self.rng);
                    price = self.price_sampler.item.sample_price(mid, side, &mut self.rng);
                    place_trade(cfg.symbol, &resting, side, price, qty, actions);
                }
            },
            None => {},
        }
        let delay_ns: u64 = self.wakeup_sampler.item.sample_wakeup_delay(&mut self.rng);
        actions.push(AgentAction::ScheduleWakeUp { delay_ns });
        let ghost draw = TrendDraw { qty, price, delay_ns };
        let ghost done = trend_actions(cfg, price_history@, resting0.items, draw);
        let ghost call = Call::Woke { time, agent_id, snapshots: snapshots@, actions: done };
        let ghost past = calls@.push(call);
        proof {
            assert(actions@ =~= earlier + done);
            assert(actions@.skip(earlier.len() as int) =~= done);
            assert(actions@.take(earlier.len() as int) =~= earlier);
            assert(past.drop_last() =~= calls@);
        }
        self.memory =
        TrendMemory {
            cfg,
            resting: resting_orders,
            price_history,
            last_sample_time,
            calls: Ghost(past),
        };
        proof {
            assert(self.traits() == old(self).traits());
            let traits = self.traits();
            let prices = trend_candles(cfg, past).prices;
            assert(past.last() == call);
            assert(traits.may_draw(
                spec_mid_at(snapshots@, cfg.symbol, cfg.reference_price),
                prices,
                draw,
            ));
            assert(done == trend_actions(
                cfg,
                prices,
                trend_resting(past.drop_last()).items,
                draw,
            ));
            assert(traits.may_end(past));
        }
    }

    fn on_exchange_message(&mut self, time: Nanos, agent_id: AgentId, message: ExchangeMessage)
        ensures
            final(self).traits() == old(self).traits(),
    {
        let mut memory = TrendMemory::new(self.memory.cfg);
        std::mem::swap(&mut self.memory, &mut memory);
        self.memory = memory.heard(time, agent_id, message);
    }
}

} // verus!
