//! What agents do on a wakeup, and what they remember.

use std::collections::VecDeque;

use market_sim::market_maker_agent::place_quotes;
use market_sim::samplers::Ladder;
use market_sim::trend_following_agent::{compute_ma, determine_side, is_rising, should_trade};
use market_sim::utils::{mid_price, IndexedSet};
use market_sim::zi_agent::{place_zi, ZiDraw};
use market_sim::{
    Agent, AgentAction, ExchangeMessage, FixedIntervalWakeup, LiquidityModel, MarketMakerAgent,
    MarketSnapshot, MovingAverage, OrderAction, OrderSizeSampler, PriceSampler, Quote, RatioEdge, Side,
    TrendFollowingAgent, TrendFollowingConfig, TrendPriceSampler, TrendSizeSampler,
    WakeupSampler, ZiAgent,
};
use rand::rngs::SmallRng;
use rand::SeedableRng;
use rand_distr::{Distribution, Exp, Normal};

// ── Samplers on floating-point distributions ─────────────────────────────

struct LogNormalPrice {
    normal: Normal<f64>,
}

impl PriceSampler for LogNormalPrice {
    fn sample_price(&mut self, mid: i64, rng: &mut SmallRng) -> i64 {
        let log_return: f64 = self.normal.sample(rng);
        ((mid as f64 * log_return.exp()).round() as i64).max(1)
    }
}

struct LogNormalSize {
    normal: Normal<f64>,
    scale: f64,
}

impl OrderSizeSampler for LogNormalSize {
    fn sample_order_size(&mut self, rng: &mut SmallRng) -> u64 {
        let normal: f64 = self.normal.sample(rng);
        ((normal.exp() * self.scale).round() as u64).max(1)
    }
}

struct Poisson {
    dist: Exp<f64>,
}

impl Poisson {
    fn new(mean_interval_ns: u64) -> Self {
        Self { dist: Exp::new(1.0 / mean_interval_ns as f64).unwrap() }
    }
}

impl WakeupSampler for Poisson {
    fn sample_wakeup_delay(&mut self, rng: &mut SmallRng) -> u64 {
        let delay: f64 = self.dist.sample(rng);
        (delay.round() as u64).max(1)
    }
}

fn log_ratio(short: MovingAverage, long: MovingAverage) -> f64 {
    let short_ma = short.sum as f64 / short.window as f64;
    let long_ma = long.sum as f64 / long.window as f64;
    short_ma.ln() - long_ma.ln()
}

/// A positive number as a fraction.
fn ratio(x: f64) -> RatioEdge {
    let den = 1_u64 << 53;
    RatioEdge { num: (x * den as f64) as u64, den }
}

struct OffsetPrice {
    offset: f64,
}

impl TrendPriceSampler for OffsetPrice {
    fn sample_price(&mut self, mid: i64, side: Side, _rng: &mut SmallRng) -> i64 {
        match side {
            Side::Bid => ((mid as f64 * (1.0 + self.offset)).round() as i64).max(1),
            Side::Ask => ((mid as f64 * (1.0 - self.offset)).round() as i64).max(1),
        }
    }
}

struct ProportionalSize {
    factor: f64,
    boost: f64,
}

impl TrendSizeSampler for ProportionalSize {
    fn sample_order_size(
        &mut self,
        short: MovingAverage,
        long: MovingAverage,
        _rng: &mut SmallRng,
    ) -> u64 {
        ((self.factor * log_ratio(short, long).abs() + self.boost).round() as u64).max(1)
    }
}

struct SymmetricHump {
    total_liquidity: f64,
    step_size_ratio: f64,
    max_levels: usize,
    imbalance_beta: f64,
    peak_distance_ratio: f64,
    shape_exponent: f64,
}

impl SymmetricHump {
    fn weight(&self, log_distance: f64) -> f64 {
        let eps = 4e-4;
        let peak_fraction = (1.0 + self.peak_distance_ratio).ln();
        let decay_rate = self.shape_exponent / (peak_fraction + eps);
        let d = log_distance.abs() + eps;
        d.powf(self.shape_exponent) * (-decay_rate * log_distance.abs()).exp()
    }
}

impl LiquidityModel for SymmetricHump {
    fn quotes(&mut self, mid: i64, inventory: i128, _rng: &mut SmallRng) -> Ladder {
        let raw = (inventory as f64 * self.imbalance_beta / self.total_liquidity).tanh();
        let imbalance = raw.clamp(-1.0, 1.0);
        let log_step = (1.0 + self.step_size_ratio).ln();
        let mut bid_weights = Vec::new();
        let mut ask_weights = Vec::new();
        for level in 1..=self.max_levels {
            let log_dist = log_step * level as f64;
            let base = self.weight(log_dist);
            bid_weights.push((log_dist, base * (1.0 - imbalance)));
            ask_weights.push((log_dist, base * (1.0 + imbalance)));
        }
        let half_liq = self.total_liquidity * 0.5;
        let bid_total: f64 = bid_weights.iter().map(|(_, w)| w).sum();
        let ask_total: f64 = ask_weights.iter().map(|(_, w)| w).sum();
        let mut ladder = Ladder { bids: Vec::new(), asks: Vec::new() };
        if bid_total > 1e-15 {
            for &(log_dist, weight) in &bid_weights {
                ladder.bids.push(Quote {
                    price: (mid as f64 * (-log_dist).exp()).round() as i64,
                    qty: (half_liq * weight / bid_total).round() as u64,
                });
            }
        }
        if ask_total > 1e-15 {
            for &(log_dist, weight) in &ask_weights {
                ladder.asks.push(Quote {
                    price: (mid as f64 * log_dist.exp()).round() as i64,
                    qty: (half_liq * weight / ask_total).round() as u64,
                });
            }
        }
        ladder
    }
}

#[derive(Clone)]
struct ZiAgentConfig {
    wake_up_interval_ns: u64,
    price_std: f64,
    order_size_scale: f64,
    order_size_std: f64,
    reference_price: i64,
    symbol: u32,
}

fn new_zi(config: ZiAgentConfig, seed: u64) -> ZiAgent {
    let log_std = (1.0 + config.price_std).ln();
    ZiAgent::with_samplers(
        config.reference_price,
        config.symbol,
        seed,
        Box::new(LogNormalPrice { normal: Normal::new(0.0, log_std).unwrap() }),
        Box::new(LogNormalSize {
            normal: Normal::new(0.0, config.order_size_std).unwrap(),
            scale: config.order_size_scale,
        }),
        Box::new(FixedIntervalWakeup::new(config.wake_up_interval_ns)),
    )
}

struct TrendConfig {
    short_window: usize,
    long_window: usize,
    threshold: f64,
    price_offset: f64,
    order_size_factor: f64,
    order_size_boost: f64,
    mean_wakeup_interval_ns: u64,
    sampling_freq_ns: u64,
    reference_price: i64,
    symbol: u32,
    contrarian: bool,
}

fn new_trend(config: TrendConfig, seed: u64) -> TrendFollowingAgent {
    TrendFollowingAgent::with_samplers(
        TrendFollowingConfig {
            short_window: config.short_window,
            long_window: config.long_window,
            band_low: ratio((-config.threshold).exp()),
            band_high: ratio(config.threshold.exp()),
            sampling_freq_ns: config.sampling_freq_ns,
            reference_price: config.reference_price,
            symbol: config.symbol,
            contrarian: config.contrarian,
        },
        seed,
        Box::new(OffsetPrice { offset: config.price_offset }),
        Box::new(ProportionalSize {
            factor: config.order_size_factor,
            boost: config.order_size_boost,
        }),
        Box::new(Poisson::new(config.mean_wakeup_interval_ns)),
    )
}

struct MarketMakerConfig {
    total_liquidity: f64,
    step_size_ratio: f64,
    max_levels: usize,
    imbalance_beta: f64,
    peak_distance_ratio: f64,
    shape_exponent: f64,
    mean_wakeup_interval_ns: u64,
    reference_price: i64,
    symbol: u32,
}

fn new_maker(config: MarketMakerConfig, seed: u64) -> MarketMakerAgent {
    MarketMakerAgent::with_samplers(
        config.reference_price,
        config.symbol,
        seed,
        Box::new(SymmetricHump {
            total_liquidity: config.total_liquidity,
            step_size_ratio: config.step_size_ratio,
            max_levels: config.max_levels,
            imbalance_beta: config.imbalance_beta,
            peak_distance_ratio: config.peak_distance_ratio,
            shape_exponent: config.shape_exponent,
        }),
        Box::new(Poisson::new(config.mean_wakeup_interval_ns)),
    )
}

// ── Messages and snapshots ───────────────────────────────────────────────

fn accepted(order_id: u64) -> ExchangeMessage {
    ExchangeMessage::OrderAccepted { order_id, user_id: 0, symbol: 0, side: Side::Bid, qty: 10 }
}

fn filled(order_id: u64, side: Side, price: i64, qty: u64) -> ExchangeMessage {
    ExchangeMessage::OrderFilled {
        order_id,
        user_id: 0,
        symbol: 0,
        side,
        price,
        qty,
        remaining: 0,
        notional: price as u128 * u128::from(qty),
    }
}

fn quoted(bid: i64, ask: i64) -> MarketSnapshot {
    MarketSnapshot {
        best_bid: Some((bid, 100)),
        best_ask: Some((ask, 100)),
        last_trade_price: Some(bid),
        last_trade_time: Some(0),
    }
}

fn snap_at_price(mid: i64) -> Vec<MarketSnapshot> {
    vec![quoted(mid - 1, mid + 1)]
}

fn empty_snapshot() -> Vec<MarketSnapshot> {
    vec![MarketSnapshot {
        best_bid: None,
        best_ask: None,
        last_trade_price: None,
        last_trade_time: None,
    }]
}

fn cancelled_ids(actions: &[AgentAction]) -> Vec<u64> {
    actions
        .iter()
        .filter_map(|a| match a {
            AgentAction::CancelOrder { order_id, .. } => Some(*order_id),
            _ => None,
        })
        .collect()
}

fn submitted(actions: &[AgentAction]) -> Vec<OrderAction> {
    actions
        .iter()
        .filter_map(|a| match a {
            AgentAction::SubmitOrder { order, .. } => Some(*order),
            _ => None,
        })
        .collect()
}

fn wakeups(actions: &[AgentAction]) -> Vec<u64> {
    actions
        .iter()
        .filter_map(|a| match a {
            AgentAction::ScheduleWakeUp { delay_ns } => Some(*delay_ns),
            _ => None,
        })
        .collect()
}

// ── Mid price ────────────────────────────────────────────────────────────

#[test]
fn mid_price_of_an_even_spread_is_exact() {
    assert_eq!(mid_price(&quoted(100, 102), 0), 101);
}

#[test]
fn mid_price_of_an_odd_spread_has_no_downward_bias() {
    // A half-tick mid goes to the even neighbour, so the error cancels over
    // many books. Truncation would give 100 and 101, low by half a tick each.
    assert_eq!(mid_price(&quoted(100, 101), 0), 100);
    assert_eq!(mid_price(&quoted(101, 102), 0), 102);
}

#[test]
fn mid_price_of_a_one_sided_or_empty_book() {
    let mut snap = quoted(100, 102);
    snap.best_ask = None;
    assert_eq!(mid_price(&snap, 7), 100);
    snap.best_bid = None;
    assert_eq!(mid_price(&snap, 7), 7);
    snap.best_ask = Some((103, 1));
    assert_eq!(mid_price(&snap, 7), 103);
}

#[test]
fn mid_price_at_the_ends_of_the_range() {
    assert_eq!(mid_price(&quoted(i64::MAX, i64::MAX), 0), i64::MAX);
    assert_eq!(mid_price(&quoted(i64::MIN, i64::MIN), 0), i64::MIN);
    assert_eq!(mid_price(&quoted(-2, -1), 0), -2);
    assert_eq!(mid_price(&quoted(-3, -2), 0), -2);
}

// ── Indexed set ──────────────────────────────────────────────────────────

#[test]
fn indexed_set_finds_and_removes() {
    let mut set = IndexedSet::new();
    assert!(set.is_empty());
    for id in [10, 20, 30, 40] {
        set.insert(id);
    }
    assert_eq!(set.len(), 4);
    assert!(set.remove(20));
    assert!(!set.remove(20));
    assert_eq!(set.remove_at(0), 10);
    assert!(set.remove(40));
    assert_eq!(set.drain_all(), vec![30]);
    assert!(set.is_empty());
    assert!(!set.remove(30));
}

#[test]
fn indexed_set_keeps_the_last_item_in_the_gap() {
    let mut set = IndexedSet::new();
    for id in 1..=4 {
        set.insert(id);
    }
    assert!(set.remove(1));
    assert_eq!(set.drain_all(), vec![4, 2, 3]);
}

#[test]
fn indexed_set_holds_an_item_once() {
    let mut set = IndexedSet::new();
    set.insert(7);
    set.insert(7);
    assert_eq!(set.len(), 1);
    assert_eq!(set.drain_all(), vec![7]);
    assert!(!set.remove(7));
    set.insert(5);
    set.insert(6);
    set.insert(5);
    assert!(set.remove(5));
    assert!(!set.remove(5));
    assert_eq!(set.drain_all(), vec![6]);
}

// ── Samplers ─────────────────────────────────────────────────────────────

#[test]
fn fixed_interval_returns_constant() {
    let mut sampler = FixedIntervalWakeup::new(1_000_000_000);
    let mut rng = SmallRng::seed_from_u64(42);
    for _ in 0..100 {
        assert_eq!(sampler.sample_wakeup_delay(&mut rng), 1_000_000_000);
    }
}

// ── Zero-intelligence agent ──────────────────────────────────────────────

fn zi_cfg() -> ZiAgentConfig {
    ZiAgentConfig {
        wake_up_interval_ns: 30_000_000_000,
        price_std: 0.03 / 100.0, // 0.03%
        order_size_scale: 12_000.0,
        order_size_std: 1.7,
        reference_price: 10_000_000,
        symbol: 0,
    }
}

#[test]
fn wakeup_cancels_all_resting_orders() {
    let mut agent = new_zi(zi_cfg(), 42);
    agent.on_exchange_message(0, 0, accepted(100));
    agent.on_exchange_message(0, 0, accepted(200));
    agent.on_exchange_message(0, 0, accepted(300));

    let snaps = vec![quoted(9_999_000, 10_001_000)];
    let mut actions = Vec::new();
    agent.wakeup_into(1_000, 0, &snaps, &mut actions);

    let mut ids = cancelled_ids(&actions);
    assert_eq!(ids.len(), 3, "should cancel all 3 resting orders");
    ids.sort_unstable();
    assert_eq!(ids, vec![100, 200, 300]);
}

fn filled_in_part(order_id: u64, qty: u64, remaining: u64) -> ExchangeMessage {
    ExchangeMessage::OrderFilled {
        order_id,
        user_id: 0,
        symbol: 0,
        side: Side::Bid,
        price: 10_000,
        qty,
        remaining,
        notional: 10_000 * u128::from(qty),
    }
}

#[test]
fn wakeup_cancels_an_order_that_was_filled_in_part() {
    let mut agent = new_zi(zi_cfg(), 42);
    agent.on_exchange_message(0, 0, accepted(100));
    agent.on_exchange_message(0, 0, accepted(101));
    agent.on_exchange_message(1, 0, filled_in_part(100, 4, 6));
    agent.on_exchange_message(2, 0, filled_in_part(101, 10, 0));
    let mut actions = Vec::new();
    agent.wakeup_into(1_000, 0, &snap_at_price(10_000), &mut actions);
    assert_eq!(cancelled_ids(&actions), vec![100]);
    let mut actions = Vec::new();
    agent.wakeup_into(2_000, 0, &snap_at_price(10_000), &mut actions);
    assert!(cancelled_ids(&actions).is_empty());
}

#[test]
fn a_maker_cancels_an_order_that_was_filled_in_part() {
    let mut agent = new_maker(maker_cfg(), 42);
    agent.on_exchange_message(0, 0, accepted(10));
    agent.on_exchange_message(1, 0, filled_in_part(10, 4, 6));
    assert_eq!(agent.inventory(), 4);
    let mut actions = Vec::new();
    agent.wakeup_into(1_000, 0, &snap_at_price(10_000), &mut actions);
    assert_eq!(cancelled_ids(&actions), vec![10]);
}

#[test]
fn wakeup_places_exactly_one_limit_order() {
    let mut agent = new_zi(zi_cfg(), 42);
    let snaps = vec![quoted(9_999_000, 10_001_000)];
    for _ in 0..100 {
        let mut actions = Vec::new();
        agent.wakeup_into(0, 0, &snaps, &mut actions);
        let submits = submitted(&actions);
        assert_eq!(submits.len(), 1, "should place exactly 1 order");
        assert!(
            matches!(submits[0], OrderAction::NewLimitOrder { .. }),
            "ZI should only place limit orders"
        );
    }
}

#[test]
fn wakeup_schedules_fixed_interval() {
    let mut agent = new_zi(zi_cfg(), 42);
    let snaps = vec![quoted(9_999_000, 10_001_000)];
    for _ in 0..20 {
        let mut actions = Vec::new();
        agent.wakeup_into(0, 0, &snaps, &mut actions);
        assert_eq!(wakeups(&actions), vec![30_000_000_000]);
    }
}

#[test]
fn side_is_approximately_balanced() {
    let mut agent = new_zi(zi_cfg(), 42);
    let snaps = vec![quoted(9_999_000, 10_001_000)];
    let n = 10_000;
    let mut bids = 0u32;
    for _ in 0..n {
        let mut actions = Vec::new();
        agent.wakeup_into(0, 0, &snaps, &mut actions);
        for order in submitted(&actions) {
            if matches!(order, OrderAction::NewLimitOrder { side: Side::Bid, .. }) {
                bids += 1;
            }
        }
    }
    let ratio = f64::from(bids) / f64::from(n);
    assert!((0.45..0.55).contains(&ratio), "bid ratio {ratio:.3} should be ~0.5");
}

#[test]
fn uses_reference_price_on_empty_book() {
    let mut agent = new_zi(zi_cfg(), 42);
    let snaps = empty_snapshot();
    let n = 1000;
    let mut prices = Vec::with_capacity(n);
    for _ in 0..n {
        let mut actions = Vec::new();
        agent.wakeup_into(0, 0, &snaps, &mut actions);
        for order in submitted(&actions) {
            if let OrderAction::NewLimitOrder { price, .. } = order {
                prices.push(price);
            }
        }
    }
    let mean = prices.iter().sum::<i64>() as f64 / prices.len() as f64;
    let ref_price = zi_cfg().reference_price as f64;
    let pct = ((mean - ref_price) / ref_price).abs();
    assert!(pct < 0.01, "mean price {mean:.0} should be near reference {ref_price:.0}");
}

#[test]
fn zi_agent_custom_samplers_are_used() {
    let mut agent = ZiAgent::with_samplers(
        10_000_000,
        0,
        42,
        Box::new(LogNormalPrice { normal: Normal::new(0.0, (1.0 + 0.03_f64 / 100.0).ln()).unwrap() }),
        Box::new(LogNormalSize { normal: Normal::new(0.0, 1.7).unwrap(), scale: 12_000.0 }),
        Box::new(Poisson::new(5_000_000_000)),
    );

    let snaps = vec![quoted(9_999_000, 10_001_000)];
    let mut delays = Vec::new();
    for _ in 0..100 {
        let mut actions = Vec::new();
        agent.wakeup_into(0, 0, &snaps, &mut actions);
        delays.extend(wakeups(&actions));
    }
    // Poisson wakeup should produce varying delays (not all the same)
    let all_same = delays.windows(2).all(|w| w[0] == w[1]);
    assert!(!all_same, "Poisson wakeup should produce varying delays");
}

struct AtMid;

impl PriceSampler for AtMid {
    fn sample_price(&mut self, mid: i64, _rng: &mut SmallRng) -> i64 {
        mid
    }
}

struct Ten;

impl OrderSizeSampler for Ten {
    fn sample_order_size(&mut self, _rng: &mut SmallRng) -> u64 {
        10
    }
}

#[test]
fn zi_prices_are_drawn_at_the_mid() {
    let mut agent = ZiAgent::with_samplers(
        500,
        1,
        42,
        Box::new(AtMid),
        Box::new(Ten),
        Box::new(FixedIntervalWakeup::new(7)),
    );
    agent.on_exchange_message(0, 0, accepted(1));
    agent.on_exchange_message(0, 0, accepted(2));
    agent.on_exchange_message(0, 0, accepted(3));
    agent.on_exchange_message(0, 0, filled(1, Side::Bid, 100, 10));
    agent.on_exchange_message(
        0,
        0,
        ExchangeMessage::OrderCancelled { order_id: 3, user_id: 0, symbol: 1 },
    );
    agent.on_exchange_message(
        0,
        0,
        ExchangeMessage::OrderRejected { order_id: 2, user_id: 0, symbol: 1 },
    );
    let mut actions = Vec::new();
    agent.wakeup_into(0, 0, &[quoted(1, 3), quoted(99, 101)], &mut actions);
    assert_eq!(actions.len(), 3);
    assert_eq!(actions[0], AgentAction::CancelOrder { symbol: 1, order_id: 2 });
    assert!(matches!(
        actions[1],
        AgentAction::SubmitOrder {
            symbol: 1,
            order: OrderAction::NewLimitOrder { price: 100, qty: 10, user_id: 0, .. },
        }
    ));
    assert_eq!(actions[2], AgentAction::ScheduleWakeUp { delay_ns: 7 });

    // Nothing rests any more, and a market that is not there has the reference.
    actions.clear();
    agent.wakeup_into(0, 0, &[], &mut actions);
    assert_eq!(actions.len(), 2);
    assert!(matches!(
        actions[0],
        AgentAction::SubmitOrder { order: OrderAction::NewLimitOrder { price: 500, .. }, .. }
    ));
}

#[test]
fn both_sides_come_from_the_seed() {
    let sides = |seed: u64| -> Vec<Side> {
        let mut agent = ZiAgent::with_samplers(
            500,
            0,
            seed,
            Box::new(AtMid),
            Box::new(Ten),
            Box::new(FixedIntervalWakeup::new(7)),
        );
        let mut actions = Vec::new();
        for _ in 0..64 {
            agent.wakeup_into(0, 0, &[], &mut actions);
        }
        submitted(&actions)
            .iter()
            .map(|order| match order {
                OrderAction::NewLimitOrder { side, .. } => *side,
                _ => unreachable!(),
            })
            .collect()
    };
    assert_eq!(sides(1), sides(1));
    assert_ne!(sides(1), sides(2));
    assert!(sides(1).contains(&Side::Bid) && sides(1).contains(&Side::Ask));
}

#[test]
fn drawn_values_become_one_order() {
    let draw = ZiDraw { side: Side::Ask, qty: 3, price: 42, delay_ns: 9 };
    let mut actions = Vec::new();
    place_zi(6, &vec![1, 2], &draw, &mut actions);
    assert_eq!(
        actions,
        vec![
            AgentAction::CancelOrder { symbol: 6, order_id: 1 },
            AgentAction::CancelOrder { symbol: 6, order_id: 2 },
            AgentAction::SubmitOrder {
                symbol: 6,
                order: OrderAction::NewLimitOrder {
                    side: Side::Ask,
                    price: 42,
                    qty: 3,
                    user_id: 0,
                },
            },
            AgentAction::ScheduleWakeUp { delay_ns: 9 },
        ]
    );
}

// ── Trend-following agent ────────────────────────────────────────────────

fn trend_cfg() -> TrendConfig {
    TrendConfig {
        short_window: 3,
        long_window: 5,
        threshold: 0.001,
        price_offset: 0.02,
        order_size_factor: 1000.0,
        order_size_boost: 100.0,
        mean_wakeup_interval_ns: 5_000_000_000,
        sampling_freq_ns: 1_000_000_000,
        reference_price: 10_000,
        symbol: 0,
        contrarian: false,
    }
}

/// The part of the configuration that decides on trades.
fn band(threshold: f64, contrarian: bool) -> TrendFollowingConfig {
    TrendFollowingConfig {
        short_window: 3,
        long_window: 5,
        band_low: ratio((-threshold).exp()),
        band_high: ratio(threshold.exp()),
        sampling_freq_ns: 1_000_000_000,
        reference_price: 10_000,
        symbol: 0,
        contrarian,
    }
}

/// Two averages whose log-ratio is the signal.
fn averages_of_signal(signal: f64) -> (MovingAverage, MovingAverage) {
    let long = 1_000_000_000_000.0;
    (average((long * signal.exp()).round() as i128, 1), average(long as i128, 1))
}

fn average(sum: i128, window: usize) -> MovingAverage {
    MovingAverage { sum, window }
}

#[test]
fn stores_raw_prices_not_log() {
    let mut agent = new_trend(trend_cfg(), 42);
    let mut actions = Vec::new();
    agent.wakeup_into(0, 0, &snap_at_price(10_000), &mut actions);
    let stored = agent.compute_ma(1).unwrap();
    assert_eq!(stored, average(10_000, 1));
}

#[test]
fn signal_is_log_ratio_of_raw_mas() {
    let history = VecDeque::from([100, 200, 300, 400, 500]);
    // short_ma(3) = 400, long_ma(5) = 300
    // signal = ln(400/300), about 0.2877 > 0, so trade on the bid side
    let short = compute_ma(&history, 3).unwrap();
    let long = compute_ma(&history, 5).unwrap();
    assert!((log_ratio(short, long) - (400.0_f64 / 300.0).ln()).abs() < 1e-12);
    assert!(should_trade(&band(0.0, false), short, long));
    assert!(should_trade(&band(0.28, false), short, long));
    assert!(!should_trade(&band(0.29, false), short, long));
    assert_eq!(determine_side(false, short, long), Side::Bid);
}

#[test]
fn ma_computation_correct() {
    let history = VecDeque::from([100, 200, 300, 400, 500]);
    assert_eq!(compute_ma(&history, 3), Some(average(3 * 400, 3)));
    assert_eq!(compute_ma(&history, 5), Some(average(5 * 300, 5)));
}

#[test]
fn ma_returns_none_with_insufficient_history() {
    let history = VecDeque::from([1, 2]);
    assert!(compute_ma(&history, 3).is_none());
    assert!(compute_ma(&history, 5).is_none());
}

#[test]
fn trend_following_buys_on_uptrend() {
    let (short, long) = averages_of_signal(0.01);
    assert!(should_trade(&band(0.001, false), short, long));
    assert_eq!(determine_side(false, short, long), Side::Bid);
}

#[test]
fn trend_following_sells_on_downtrend() {
    let (short, long) = averages_of_signal(-0.01);
    assert!(should_trade(&band(0.001, false), short, long));
    assert_eq!(determine_side(false, short, long), Side::Ask);
}

#[test]
fn trend_following_no_trade_below_threshold() {
    for signal in [0.0005, -0.0005] {
        let (short, long) = averages_of_signal(signal);
        assert!(!should_trade(&band(0.001, false), short, long));
    }
}

#[test]
fn contrarian_sells_on_uptrend() {
    let (short, long) = averages_of_signal(0.0005);
    assert!(should_trade(&band(0.001, true), short, long));
    let (short, long) = averages_of_signal(0.01);
    assert_eq!(determine_side(true, short, long), Side::Ask);
}

#[test]
fn contrarian_buys_on_downtrend() {
    let (short, long) = averages_of_signal(-0.01);
    assert_eq!(determine_side(true, short, long), Side::Bid);
}

#[test]
fn contrarian_no_trade_above_threshold() {
    let (short, long) = averages_of_signal(0.01);
    assert!(!should_trade(&band(0.001, true), short, long));
}

#[test]
fn the_edges_of_the_band_call_for_no_trade() {
    let edge = |num, den| RatioEdge { num, den };
    let cfg = |contrarian| TrendFollowingConfig {
        band_low: edge(9, 10),
        band_high: edge(11, 10),
        ..band(0.0, contrarian)
    };
    for (sum, follows, opposes) in
        [(179, true, false), (180, false, false), (181, false, true), (219, false, true), (220, false, false), (221, true, false)]
    {
        let (short, long) = (average(sum, 2), average(300, 3));
        assert_eq!(should_trade(&cfg(false), short, long), follows, "{sum}");
        assert_eq!(should_trade(&cfg(true), short, long), opposes, "{sum}");
    }
    let (big, small) = (average(i128::MAX, 1), average(i128::MAX, usize::MAX));
    let top = TrendFollowingConfig { band_high: edge(u64::MAX, 1), ..cfg(false) };
    assert!(!should_trade(&top, big, small));
    assert!(should_trade(&TrendFollowingConfig { band_high: edge(u64::MAX - 1, 1), ..top }, big, small));
}

#[test]
fn averages_that_are_equal_are_not_rising() {
    assert!(!is_rising(average(200, 2), average(100, 1)));
    assert!(is_rising(average(201, 2), average(100, 1)));
    assert!(!is_rising(average(199, 2), average(100, 1)));
    assert_eq!(determine_side(false, average(200, 2), average(100, 1)), Side::Ask);
    assert_eq!(determine_side(true, average(200, 2), average(100, 1)), Side::Bid);
}

#[test]
fn averages_compare_without_overflow() {
    let big = average(i128::MAX, usize::MAX);
    let bigger = average(i128::MAX, usize::MAX - 1);
    assert!(is_rising(bigger, big));
    assert!(!is_rising(big, bigger));
}

#[test]
fn no_trade_before_enough_history() {
    let mut agent = new_trend(trend_cfg(), 42);
    let mut actions = Vec::new();
    agent.wakeup_into(0, 0, &snap_at_price(10_000), &mut actions);
    assert_eq!(submitted(&actions).len(), 0, "should not trade with only 1 candle");
}

#[test]
fn candle_sampling_respects_frequency() {
    let mut agent = new_trend(trend_cfg(), 42);
    let snaps = snap_at_price(10_000);

    let mut actions = Vec::new();
    agent.wakeup_into(0, 0, &snaps, &mut actions);
    assert_eq!(agent.candle_count(), 1);

    actions.clear();
    agent.wakeup_into(500_000_000, 0, &snaps, &mut actions);
    assert_eq!(agent.candle_count(), 1);

    actions.clear();
    agent.wakeup_into(1_000_000_000, 0, &snaps, &mut actions);
    assert_eq!(agent.candle_count(), 2);
}

#[test]
fn old_candles_leave() {
    let mut agent = new_trend(trend_cfg(), 42);
    let mut actions = Vec::new();
    for i in 0..40 {
        let mid = 10_000 + i as i64;
        agent.wakeup_into(i * 1_000_000_000, 0, &snap_at_price(mid), &mut actions);
    }
    assert_eq!(agent.candle_count(), 15);
    assert_eq!(agent.compute_ma(2), Some(average(10_038 + 10_039, 2)));
    assert_eq!(agent.compute_ma(16), None);
}

#[test]
fn cancels_all_resting_before_trading() {
    let mut cfg = trend_cfg();
    cfg.short_window = 2;
    cfg.long_window = 3;
    cfg.threshold = 0.0;
    let mut agent = new_trend(cfg, 42);

    agent.on_exchange_message(0, 0, accepted(10));
    agent.on_exchange_message(0, 0, accepted(20));

    let mut actions = Vec::new();
    for (time, mid) in [(0, 9_000), (1, 9_100), (2, 10_000)] {
        actions.clear();
        agent.wakeup_into(time * 1_000_000_000, 0, &snap_at_price(mid), &mut actions);
    }
    assert_eq!(cancelled_ids(&actions), vec![10, 20], "should cancel both resting orders");
    assert!(matches!(
        submitted(&actions)[..],
        [OrderAction::NewLimitOrder { side: Side::Bid, price: 10_200, .. }]
    ));
}

#[test]
fn trend_following_agent_custom_samplers_are_used() {
    let mut agent = TrendFollowingAgent::with_samplers(
        band(0.001, false),
        42,
        Box::new(OffsetPrice { offset: 0.05 }),
        Box::new(ProportionalSize { factor: 500.0, boost: 50.0 }),
        Box::new(FixedIntervalWakeup::new(999_000_000)),
    );

    let mut actions = Vec::new();
    agent.wakeup_into(0, 0, &snap_at_price(10_000), &mut actions);
    assert_eq!(wakeups(&actions), vec![999_000_000], "custom fixed wakeup should be used");
}

// ── Market-maker agent ───────────────────────────────────────────────────

fn maker_cfg() -> MarketMakerConfig {
    MarketMakerConfig {
        total_liquidity: 100.0,
        step_size_ratio: 0.001,
        max_levels: 3,
        imbalance_beta: 1.0,
        peak_distance_ratio: 0.05,
        shape_exponent: 1.2,
        mean_wakeup_interval_ns: 5_000_000_000,
        reference_price: 10_000,
        symbol: 0,
    }
}

#[test]
fn cancels_all_resting_before_placing() {
    let mut agent = new_maker(maker_cfg(), 42);
    agent.on_exchange_message(0, 0, accepted(10));
    agent.on_exchange_message(0, 0, accepted(20));
    agent.on_exchange_message(0, 0, accepted(30));

    let mut actions = Vec::new();
    agent.wakeup_into(0, 0, &snap_at_price(10_000), &mut actions);
    assert_eq!(cancelled_ids(&actions).len(), 3, "should cancel all 3 resting orders");

    let first_cancel_idx =
        actions.iter().position(|a| matches!(a, AgentAction::CancelOrder { .. })).unwrap();
    let first_submit_idx =
        actions.iter().position(|a| matches!(a, AgentAction::SubmitOrder { .. })).unwrap();
    assert!(first_cancel_idx < first_submit_idx, "cancels should precede submits");
}

#[test]
fn places_orders_on_both_sides() {
    let mut agent = new_maker(maker_cfg(), 42);
    let mut actions = Vec::new();
    agent.wakeup_into(0, 0, &snap_at_price(10_000), &mut actions);
    let orders = submitted(&actions);
    assert!(orders.iter().any(|o| matches!(o, OrderAction::NewLimitOrder { side: Side::Bid, .. })));
    assert!(orders.iter().any(|o| matches!(o, OrderAction::NewLimitOrder { side: Side::Ask, .. })));
}

#[test]
fn places_correct_number_of_levels() {
    let mut agent = new_maker(maker_cfg(), 42);
    let mut actions = Vec::new();
    agent.wakeup_into(0, 0, &snap_at_price(10_000), &mut actions);
    let orders = submitted(&actions);
    assert!(
        orders.len() <= 6,
        "should place at most 2 * max_levels = 6 orders, got {}",
        orders.len()
    );
    assert!(orders.len() >= 2, "should place at least 1 bid + 1 ask, got {}", orders.len());
}

#[test]
fn bid_prices_below_mid_ask_prices_above() {
    let mut agent = new_maker(maker_cfg(), 42);
    let mid = 10_000;
    let mut actions = Vec::new();
    agent.wakeup_into(0, 0, &snap_at_price(mid), &mut actions);
    for order in submitted(&actions) {
        if let OrderAction::NewLimitOrder { side, price, .. } = order {
            match side {
                Side::Bid => assert!(price < mid, "bid price {price} should be below mid {mid}"),
                Side::Ask => assert!(price > mid, "ask price {price} should be above mid {mid}"),
            }
        }
    }
}

fn quoted_qty(actions: &[AgentAction], of: Side) -> u64 {
    submitted(actions)
        .iter()
        .map(|order| match order {
            OrderAction::NewLimitOrder { side, qty, .. } if *side == of => *qty,
            _ => 0,
        })
        .sum()
}

#[test]
fn total_qty_approximately_matches_liquidity_budget() {
    let mut agent = new_maker(maker_cfg(), 42);
    let mut actions = Vec::new();
    agent.wakeup_into(0, 0, &snap_at_price(10_000), &mut actions);
    let total_qty = quoted_qty(&actions, Side::Bid) + quoted_qty(&actions, Side::Ask);
    let budget = maker_cfg().total_liquidity;
    assert!(
        (total_qty as f64 - budget).abs() / budget < 0.1,
        "total qty {total_qty} should be near budget {budget}"
    );
}

#[test]
fn per_side_normalization_balances_sides() {
    let mut agent = new_maker(maker_cfg(), 42);
    agent.on_exchange_message(0, 0, filled(1, Side::Bid, 10_000, 200));
    assert_eq!(agent.inventory(), 200);

    let mut actions = Vec::new();
    agent.wakeup_into(0, 0, &snap_at_price(10_000), &mut actions);
    let bid_qty = quoted_qty(&actions, Side::Bid);
    let ask_qty = quoted_qty(&actions, Side::Ask);
    let half = maker_cfg().total_liquidity * 0.5;
    assert!(
        (bid_qty as f64 - half).abs() / half < 0.15,
        "bid qty {bid_qty} should be near half budget {half}"
    );
    assert!(
        (ask_qty as f64 - half).abs() / half < 0.15,
        "ask qty {ask_qty} should be near half budget {half}"
    );
}

#[test]
fn geometric_mid_price_used() {
    let mid = MarketMakerAgent::geometric_mid(&quoted(9000, 11000), 10_000);
    let expected = (9000.0_f64 * 11000.0).sqrt().round() as i64;
    assert_eq!(mid, expected, "should use geometric mean");
    assert_ne!(mid, 10000, "should differ from arithmetic mean");
}

#[test]
fn geometric_mid_fallback_on_empty_book() {
    let mid = MarketMakerAgent::geometric_mid(&empty_snapshot()[0], 10_000);
    assert_eq!(mid, 10_000, "should fall back to reference price");
}

#[test]
fn geometric_mid_is_the_nearest_root() {
    for (bid, ask, mid) in [(0, 5, 0), (1, 1, 1), (1, 2, 1), (1, 3, 2), (2, 3, 2), (4, 5, 4), (-3, 3, 0)] {
        assert_eq!(MarketMakerAgent::geometric_mid(&quoted(bid, ask), 7), mid, "{bid} {ask}");
    }
    assert_eq!(MarketMakerAgent::geometric_mid(&quoted(i64::MAX, i64::MAX), 7), i64::MAX);
    assert_eq!(MarketMakerAgent::geometric_mid(&quoted(i64::MIN, i64::MIN), 7), i64::MAX);
    for n in 1..2_000_i64 {
        let expected = ((n * (n + 7)) as f64).sqrt().round() as i64;
        assert_eq!(MarketMakerAgent::geometric_mid(&quoted(n, n + 7), 7), expected);
    }
}

#[test]
fn bid_fill_increases_inventory() {
    let mut agent = new_maker(maker_cfg(), 42);
    assert_eq!(agent.inventory(), 0);
    agent.on_exchange_message(0, 0, filled(1, Side::Bid, 100, 10));
    assert_eq!(agent.inventory(), 10, "bid fill should increase inventory");
}

#[test]
fn ask_fill_decreases_inventory() {
    let mut agent = new_maker(maker_cfg(), 42);
    assert_eq!(agent.inventory(), 0);
    agent.on_exchange_message(0, 0, filled(1, Side::Ask, 100, 10));
    assert_eq!(agent.inventory(), -10, "ask fill should decrease inventory");
}

#[test]
fn mixed_fills_track_net_inventory() {
    let mut agent = new_maker(maker_cfg(), 42);
    agent.on_exchange_message(0, 0, filled(1, Side::Bid, 100, 10));
    agent.on_exchange_message(0, 0, filled(2, Side::Ask, 101, 7));
    assert_eq!(agent.inventory(), 3, "net inventory should be +10 - 7 = +3");
}

// A fill that arrives before (or without) its accept still counts, because it
// carries its own side.
#[test]
fn fill_without_prior_accept_still_counts() {
    let mut agent = new_maker(maker_cfg(), 42);
    agent.on_exchange_message(0, 0, filled(999, Side::Bid, 100, 10));
    assert_eq!(agent.inventory(), 10, "self-contained fill must count");
}

#[test]
fn custom_weight_model_and_wakeup() {
    let mut agent = MarketMakerAgent::with_samplers(
        10_000,
        0,
        42,
        Box::new(SymmetricHump {
            total_liquidity: 100.0,
            step_size_ratio: 0.001,
            max_levels: 3,
            imbalance_beta: 1.0,
            peak_distance_ratio: 0.1,
            shape_exponent: 2.0,
        }),
        Box::new(FixedIntervalWakeup::new(777_000_000)),
    );
    let mut actions = Vec::new();
    agent.wakeup_into(0, 0, &snap_at_price(10_000), &mut actions);
    assert_eq!(wakeups(&actions), vec![777_000_000], "custom fixed wakeup should be used");
}

struct ShowsInventory;

impl LiquidityModel for ShowsInventory {
    fn quotes(&mut self, mid: i64, inventory: i128, _rng: &mut SmallRng) -> Ladder {
        Ladder {
            bids: vec![Quote { price: mid, qty: inventory as u64 }],
            asks: vec![Quote { price: mid + 1, qty: 1 }],
        }
    }
}

#[test]
fn the_model_sees_mid_and_inventory() {
    let mut agent = MarketMakerAgent::with_samplers(
        10_000,
        0,
        42,
        Box::new(ShowsInventory),
        Box::new(FixedIntervalWakeup::new(5)),
    );
    agent.on_exchange_message(0, 0, filled(999, Side::Bid, 100, 12));
    let mut actions = Vec::new();
    agent.wakeup_into(0, 0, &[quoted(4, 9)], &mut actions);
    assert_eq!(
        submitted(&actions),
        vec![
            OrderAction::NewLimitOrder { side: Side::Bid, price: 6, qty: 12, user_id: 0 },
            OrderAction::NewLimitOrder { side: Side::Ask, price: 7, qty: 1, user_id: 0 },
        ]
    );
}

#[test]
fn quotes_without_quantity_and_bids_below_a_tick_are_left_out() {
    let ladder = Ladder {
        bids: vec![
            Quote { price: 2, qty: 1 },
            Quote { price: 1, qty: 0 },
            Quote { price: 0, qty: 5 },
            Quote { price: 1, qty: 6 },
        ],
        asks: vec![Quote { price: 0, qty: 7 }, Quote { price: 9, qty: 0 }],
    };
    let mut actions = Vec::new();
    place_quotes(3, &vec![8], &ladder, 4, &mut actions);
    assert_eq!(cancelled_ids(&actions), vec![8]);
    assert_eq!(
        submitted(&actions),
        vec![
            OrderAction::NewLimitOrder { side: Side::Bid, price: 2, qty: 1, user_id: 0 },
            OrderAction::NewLimitOrder { side: Side::Bid, price: 1, qty: 6, user_id: 0 },
            OrderAction::NewLimitOrder { side: Side::Ask, price: 0, qty: 7, user_id: 0 },
        ]
    );
    assert_eq!(wakeups(&actions), vec![4]);
}
