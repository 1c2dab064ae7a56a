//! Whole runs of the simulation, with agents and latency that draw from
//! floating-point distributions.

use std::cell::{Cell, RefCell};
use std::rc::Rc;

use market_sim::samplers::Ladder;
use market_sim::{
    Agent, AgentAction, AgentId, ExchangeMessage, FixedIntervalWakeup, Kernel, L1Bucket,
    L1Snapshot, Latency, LatencyModel, LiquidityModel, MarketMakerAgent, MarketSnapshot,
    MovingAverage, Nanos, OrderAction, OrderSizeSampler, PriceSampler, Quote, RatioEdge,
    RunOptions, Side, SimulationConfig, SimulationResult, Symbol, TrendFollowingAgent,
    TrendFollowingConfig, TrendPriceSampler, TrendSizeSampler, WakeupSampler, ZiAgent,
};
use rand::rngs::SmallRng;
use rand::{Rng, SeedableRng};
use rand_distr::{Distribution, Exp, LogNormal, Normal};

// ── Samplers on floating-point distributions ─────────────────────────────

struct LogNormalPrice {
    normal: Normal<f64>,
}

impl PriceSampler for LogNormalPrice {
    fn sample_price(&mut self, mid: i64, rng: &mut SmallRng) -> i64 {
        let log_return: f64 = self.normal.sample(rng);
        ((mid as f64 * log_return.exp()).round() as i64).max(1)
    }
}

struct LogNormalSize {
    normal: Normal<f64>,
    scale: f64,
}

impl OrderSizeSampler for LogNormalSize {
    fn sample_order_size(&mut self, rng: &mut SmallRng) -> u64 {
        let normal: f64 = self.normal.sample(rng);
        ((normal.exp() * self.scale).round() as u64).max(1)
    }
}

struct Poisson {
    dist: Exp<f64>,
}

impl Poisson {
    fn new(mean_interval_ns: u64) -> Self {
        Self { dist: Exp::new(1.0 / mean_interval_ns as f64).unwrap() }
    }
}

impl WakeupSampler for Poisson {
    fn sample_wakeup_delay(&mut self, rng: &mut SmallRng) -> u64 {
        let delay: f64 = self.dist.sample(rng);
        (delay.round() as u64).max(1)
    }
}

fn log_ratio(short: MovingAverage, long: MovingAverage) -> f64 {
    let short_ma = short.sum as f64 / short.window as f64;
    let long_ma = long.sum as f64 / long.window as f64;
    short_ma.ln() - long_ma.ln()
}

/// A positive number as a fraction.
fn ratio(x: f64) -> RatioEdge {
    let den = 1_u64 << 53;
    RatioEdge { num: (x * den as f64) as u64, den }
}

struct OffsetPrice {
    offset: f64,
}

impl TrendPriceSampler for OffsetPrice {
    fn sample_price(&mut self, mid: i64, side: Side, _rng: &mut SmallRng) -> i64 {
        match side {
            Side::Bid => ((mid as f64 * (1.0 + self.offset)).round() as i64).max(1),
            Side::Ask => ((mid as f64 * (1.0 - self.offset)).round() as i64).max(1),
        }
    }
}

struct ProportionalSize {
    factor: f64,
    boost: f64,
}

impl TrendSizeSampler for ProportionalSize {
    fn sample_order_size(
        &mut self,
        short: MovingAverage,
        long: MovingAverage,
        _rng: &mut SmallRng,
    ) -> u64 {
        ((self.factor * log_ratio(short, long).abs() + self.boost).round() as u64).max(1)
    }
}

struct SymmetricHump {
    total_liquidity: f64,
    step_size_ratio: f64,
    max_levels: usize,
    imbalance_beta: f64,
    peak_distance_ratio: f64,
    shape_exponent: f64,
}

impl SymmetricHump {
    fn weight(&self, log_distance: f64) -> f64 {
        let eps = 4e-4;
        let peak_fraction = (1.0 + self.peak_distance_ratio).ln();
        let decay_rate = self.shape_exponent / (peak_fraction + eps);
        let d = log_distance.abs() + eps;
        d.powf(self.shape_exponent) * (-decay_rate * log_distance.abs()).exp()
    }
}

impl LiquidityModel for SymmetricHump {
    fn quotes(&mut self, mid: i64, inventory: i128, _rng: &mut SmallRng) -> Ladder {
        let raw = (inventory as f64 * self.imbalance_beta / self.total_liquidity).tanh();
        let imbalance = raw.clamp(-1.0, 1.0);
        let log_step = (1.0 + self.step_size_ratio).ln();
        let mut bid_weights = Vec::new();
        let mut ask_weights = Vec::new();
        for level in 1..=self.max_levels {
            let log_dist = log_step * level as f64;
            let base = self.weight(log_dist);
            bid_weights.push((log_dist, base * (1.0 - imbalance)));
            ask_weights.push((log_dist, base * (1.0 + imbalance)));
        }
        let half_liq = self.total_liquidity * 0.5;
        let bid_total: f64 = bid_weights.iter().map(|(_, w)| w).sum();
        let ask_total: f64 = ask_weights.iter().map(|(_, w)| w).sum();
        let mut ladder = Ladder { bids: Vec::new(), asks: Vec::new() };
        if bid_total > 1e-15 {
            for &(log_dist, weight) in &bid_weights {
                ladder.bids.push(Quote {
                    price: (mid as f64 * (-log_dist).exp()).round() as i64,
                    qty: (half_liq * weight / bid_total).round() as u64,
                });
            }
        }
        if ask_total > 1e-15 {
            for &(log_dist, weight) in &ask_weights {
                ladder.asks.push(Quote {
                    price: (mid as f64 * log_dist.exp()).round() as i64,
                    qty: (half_liq * weight / ask_total).round() as u64,
                });
            }
        }
        ladder
    }
}

#[derive(Clone)]
struct ZiAgentConfig {
    wake_up_interval_ns: u64,
    price_std: f64,
    order_size_scale: f64,
    order_size_std: f64,
    reference_price: i64,
    symbol: u32,
}

fn new_zi(config: ZiAgentConfig, seed: u64) -> ZiAgent {
    zi_of_mean(config, seed, 0.0)
}

/// An agent whose log-return has this many times its variance as its mean.
fn zi_of_mean(config: ZiAgentConfig, seed: u64, skew: f64) -> ZiAgent {
    let log_std = (1.0 + config.price_std).ln();
    ZiAgent::with_samplers(
        config.reference_price,
        config.symbol,
        seed,
        Box::new(LogNormalPrice { normal: Normal::new(skew * log_std * log_std, log_std).unwrap() }),
        Box::new(LogNormalSize {
            normal: Normal::new(0.0, config.order_size_std).unwrap(),
            scale: config.order_size_scale,
        }),
        Box::new(FixedIntervalWakeup::new(config.wake_up_interval_ns)),
    )
}

struct TrendConfig {
    short_window: usize,
    long_window: usize,
    threshold: f64,
    price_offset: f64,
    order_size_factor: f64,
    order_size_boost: f64,
    mean_wakeup_interval_ns: u64,
    sampling_freq_ns: u64,
    reference_price: i64,
    symbol: u32,
    contrarian: bool,
}

fn new_trend(config: TrendConfig, seed: u64) -> TrendFollowingAgent {
    TrendFollowingAgent::with_samplers(
        TrendFollowingConfig {
            short_window: config.short_window,
            long_window: config.long_window,
            band_low: ratio((-config.threshold).exp()),
            band_high: ratio(config.threshold.exp()),
            sampling_freq_ns: config.sampling_freq_ns,
            reference_price: config.reference_price,
            symbol: config.symbol,
            contrarian: config.contrarian,
        },
        seed,
        Box::new(OffsetPrice { offset: config.price_offset }),
        Box::new(ProportionalSize {
            factor: config.order_size_factor,
            boost: config.order_size_boost,
        }),
        Box::new(Poisson::new(config.mean_wakeup_interval_ns)),
    )
}

struct MarketMakerConfig {
    total_liquidity: f64,
    step_size_ratio: f64,
    max_levels: usize,
    imbalance_beta: f64,
    peak_distance_ratio: f64,
    shape_exponent: f64,
    mean_wakeup_interval_ns: u64,
    reference_price: i64,
    symbol: u32,
}

fn new_maker(config: MarketMakerConfig, seed: u64) -> MarketMakerAgent {
    MarketMakerAgent::with_samplers(
        config.reference_price,
        config.symbol,
        seed,
        Box::new(SymmetricHump {
            total_liquidity: config.total_liquidity,
            step_size_ratio: config.step_size_ratio,
            max_levels: config.max_levels,
            imbalance_beta: config.imbalance_beta,
            peak_distance_ratio: config.peak_distance_ratio,
            shape_exponent: config.shape_exponent,
        }),
        Box::new(Poisson::new(config.mean_wakeup_interval_ns)),
    )
}

// ── Latency with floating-point jitter ───────────────────────────────────

#[derive(Clone)]
enum LatencyModelType {
    Uniform,
    NycSeattle { seed: u64 },
    NoLatency,
}

#[derive(Clone)]
struct LatencyConfig {
    default_base_ns: u64,
    jitter_mu: f64,
    jitter_sigma: f64,
    model: LatencyModelType,
}

struct JitteredLatency {
    bases: LatencyModel,
    jitter: Option<LogNormal<f64>>,
    rng: SmallRng,
}

impl JitteredLatency {
    fn new(config: &LatencyConfig, num_agents: usize, seed: u64) -> Self {
        let bases = match config.model {
            LatencyModelType::NycSeattle { seed } => {
                let mut rng = SmallRng::seed_from_u64(seed);
                let positions: Vec<f64> =
                    (0..num_agents).map(|_| rng.gen::<f64>() * 3_866_660.0).collect();
                LatencyModel::with_bases(
                    positions
                        .iter()
                        .map(|pos| ((pos / 0.299_792_458).round() as u64).max(1))
                        .collect(),
                )
            }
            LatencyModelType::NoLatency => LatencyModel::none(num_agents),
            LatencyModelType::Uniform => LatencyModel::uniform(config.default_base_ns, num_agents),
        };
        let jitter = match config.model {
            LatencyModelType::NoLatency => None,
            _ if config.jitter_sigma.abs() < 1e-15 => None,
            _ => Some(LogNormal::new(config.jitter_mu, config.jitter_sigma).unwrap()),
        };
        Self { bases, jitter, rng: SmallRng::seed_from_u64(seed) }
    }

    fn sample(&mut self, agent_id: AgentId) -> u64 {
        let base = self.bases.base(agent_id);
        match &self.jitter {
            None => base,
            Some(dist) => {
                let j: f64 = dist.sample(&mut self.rng);
                ((base as f64 * j).round() as u64).max(1)
            }
        }
    }
}

impl Latency for JitteredLatency {
    fn agent_to_exchange(&mut self, agent_id: AgentId) -> u64 {
        self.sample(agent_id)
    }

    fn exchange_to_agent(&mut self, agent_id: AgentId) -> u64 {
        self.sample(agent_id)
    }
}

struct Config {
    seed: u64,
    start_time: Nanos,
    end_time: Nanos,
    symbols: Vec<Symbol>,
    latency: LatencyConfig,
    tick_size: i64,
    lot_size: u64,
    no_market_hours: bool,
}

fn run_with(
    config: &Config,
    agents: Vec<Box<dyn Agent>>,
    options: &RunOptions,
) -> SimulationResult {
    let latency = JitteredLatency::new(&config.latency, agents.len(), config.seed);
    let plain = SimulationConfig {
        seed: config.seed,
        start_time: config.start_time,
        end_time: config.end_time,
        symbols: config.symbols.clone(),
        tick_size: config.tick_size,
        lot_size: config.lot_size,
        no_market_hours: config.no_market_hours,
    };
    Kernel::run_with(&plain, agents, Box::new(latency), options).unwrap()
}

fn run(config: &Config, agents: Vec<Box<dyn Agent>>) -> SimulationResult {
    run_with(config, agents, &RunOptions::default())
}

// ── Output options ───────────────────────────────────────────────────────

const BUCKET_NS: u64 = 10_000_000; // 10 ms buckets over a 100 ms run

fn option_zi_config(symbol: Symbol) -> ZiAgentConfig {
    ZiAgentConfig {
        wake_up_interval_ns: 1_000_000,
        price_std: 0.000_3,
        order_size_scale: 1.0,
        order_size_std: 0.3,
        reference_price: 10_000,
        symbol,
    }
}

fn option_sim_config(seed: u64, symbols: Vec<Symbol>) -> Config {
    Config {
        seed,
        start_time: 0,
        end_time: 100_000_000,
        symbols,
        latency: LatencyConfig {
            default_base_ns: 1_000,
            jitter_mu: 0.0,
            jitter_sigma: 0.0001,
            model: LatencyModelType::Uniform,
        },
        tick_size: 100,
        lot_size: 1,
        no_market_hours: false,
    }
}

fn make_symbol_agents(symbols: &[Symbol], per_symbol: usize, seed: u64) -> Vec<Box<dyn Agent>> {
    let mut agents: Vec<Box<dyn Agent>> = Vec::new();
    for &symbol in symbols {
        let cfg = option_zi_config(symbol);
        for i in 0..per_symbol {
            let agent_seed = seed.wrapping_add(u64::from(symbol) * 1000 + i as u64);
            agents.push(Box::new(new_zi(cfg.clone(), agent_seed)));
        }
    }
    agents
}

/// Rebuild the expected buckets of one symbol from the full L1 log.
///
/// The rules mirror the kline export: the price fields read the quoted
/// snapshots only (both sides present), the volume and the notional sum over
/// every snapshot, and a bucket exists when at least one snapshot fell in it.
fn reference_buckets(snapshots: &[L1Snapshot], symbol: Symbol, bucket_ns: u64) -> Vec<L1Bucket> {
    let mut buckets: Vec<L1Bucket> = Vec::new();
    for snap in snapshots.iter().filter(|s| s.symbol == symbol) {
        let start = snap.timestamp - snap.timestamp % bucket_ns;
        if buckets.last().map(|b| b.bucket_start) != Some(start) {
            buckets.push(L1Bucket::new(start, symbol));
        }
        let bucket = buckets.last_mut().unwrap();
        bucket.absorb(snap.bid_price, snap.ask_price, snap.bid_volume, snap.ask_volume);
    }
    buckets
}

fn assert_same_snapshots(a: &[L1Snapshot], b: &[L1Snapshot]) {
    assert_eq!(a.len(), b.len());
    for (x, y) in a.iter().zip(b.iter()) {
        assert_eq!(x.timestamp, y.timestamp);
        assert_eq!(x.symbol, y.symbol);
        assert_eq!(x.bid_price, y.bid_price);
        assert_eq!(x.ask_price, y.ask_price);
        assert_eq!(x.bid_volume, y.bid_volume);
        assert_eq!(x.ask_volume, y.ask_volume);
        assert_eq!(x.last_trade_price, y.last_trade_price);
    }
}

#[test]
fn default_options_reproduce_the_default_run() {
    let cfg = option_sim_config(42, vec![0]);
    let plain = run(&cfg, make_symbol_agents(&[0], 10, 42));
    let with_default = run_with(&cfg, make_symbol_agents(&[0], 10, 42), &RunOptions::default());

    assert_eq!(plain.events_processed, with_default.events_processed);
    assert_eq!(plain.trades.len(), with_default.trades.len());
    assert!(!plain.trades.is_empty(), "the run must trade, or the test tests nothing");
    assert_same_snapshots(&plain.l1_snapshots, &with_default.l1_snapshots);
    assert!(with_default.l1_buckets.is_empty());
}

#[test]
fn keep_trades_off_drops_the_trades_and_nothing_else() {
    let cfg = option_sim_config(42, vec![0]);
    let reference = run(&cfg, make_symbol_agents(&[0], 10, 42));
    let options = RunOptions { keep_trades: false, ..RunOptions::default() };
    let lean = run_with(&cfg, make_symbol_agents(&[0], 10, 42), &options);

    assert!(lean.trades.is_empty());
    assert!(!reference.trades.is_empty());
    assert_eq!(reference.events_processed, lean.events_processed);
    assert_same_snapshots(&reference.l1_snapshots, &lean.l1_snapshots);
}

#[test]
fn bucket_mode_replaces_the_snapshot_log() {
    let cfg = option_sim_config(42, vec![0]);
    let options = RunOptions { l1_bucket_ns: Some(BUCKET_NS), ..RunOptions::default() };
    let lean = run_with(&cfg, make_symbol_agents(&[0], 10, 42), &options);

    assert!(lean.l1_snapshots.is_empty());
    assert!(!lean.l1_buckets.is_empty());
    for bucket in &lean.l1_buckets {
        assert_eq!(bucket.bucket_start % BUCKET_NS, 0);
    }
}

#[test]
fn bucket_aggregates_equal_a_reference_aggregation_of_the_full_log() {
    let symbols: Vec<Symbol> = vec![0, 1];
    let cfg = option_sim_config(42, symbols.clone());
    let full = run(&cfg, make_symbol_agents(&symbols, 6, 42));
    let options = RunOptions { l1_bucket_ns: Some(BUCKET_NS), ..RunOptions::default() };
    let lean = run_with(&cfg, make_symbol_agents(&symbols, 6, 42), &options);

    assert_eq!(full.events_processed, lean.events_processed);
    for &symbol in &symbols {
        let expected = reference_buckets(&full.l1_snapshots, symbol, BUCKET_NS);
        let got: Vec<L1Bucket> =
            lean.l1_buckets.iter().copied().filter(|b| b.symbol == symbol).collect();
        assert!(!expected.is_empty());
        assert_eq!(expected, got);
    }
}

#[test]
fn both_options_together() {
    let cfg = option_sim_config(7, vec![0]);
    let full = run(&cfg, make_symbol_agents(&[0], 10, 7));
    let options = RunOptions { keep_trades: false, l1_bucket_ns: Some(BUCKET_NS), ..RunOptions::default() };
    let lean = run_with(&cfg, make_symbol_agents(&[0], 10, 7), &options);

    assert!(lean.trades.is_empty());
    assert!(lean.l1_snapshots.is_empty());
    assert_eq!(reference_buckets(&full.l1_snapshots, 0, BUCKET_NS), lean.l1_buckets);
}

// ── Runs ─────────────────────────────────────────────────────────────────

fn zi_config() -> ZiAgentConfig {
    ZiAgentConfig {
        wake_up_interval_ns: 1_000_000,
        price_std: 0.000_3,
        order_size_scale: 1.0,
        order_size_std: 0.3,
        reference_price: 10_000,
        symbol: 0,
    }
}

fn sim_config(seed: u64, duration_ns: u64) -> Config {
    Config {
        seed,
        start_time: 0,
        end_time: duration_ns,
        symbols: vec![0],
        latency: LatencyConfig {
            default_base_ns: 1_000,
            jitter_mu: 0.0,
            jitter_sigma: 0.0001, // near-zero jitter for predictability
            model: LatencyModelType::Uniform,
        },
        tick_size: 100,
        lot_size: 1,
        no_market_hours: false,
    }
}

fn make_zi_agents(n: usize, seed: u64) -> Vec<Box<dyn Agent>> {
    let cfg = zi_config();
    (0..n)
        .map(|i| Box::new(new_zi(cfg.clone(), seed.wrapping_add(i as u64))) as Box<dyn Agent>)
        .collect()
}

// ── Determinism ─────────────────────────────────────────────────────────

#[test]
fn determinism_identical_seed() {
    let cfg = sim_config(42, 100_000_000);
    let r1 = run(&cfg, make_zi_agents(10, 42));
    let r2 = run(&cfg, make_zi_agents(10, 42));

    assert_eq!(r1.trades.len(), r2.trades.len());
    assert_eq!(r1.events_processed, r2.events_processed);
    for (a, b) in r1.trades.iter().zip(r2.trades.iter()) {
        assert_eq!(a.timestamp, b.timestamp);
        assert_eq!(a.price, b.price);
        assert_eq!(a.qty, b.qty);
        assert_eq!(a.maker_order_id, b.maker_order_id);
        assert_eq!(a.taker_order_id, b.taker_order_id);
    }
}

#[test]
fn determinism_different_seed_differs() {
    let c1 = sim_config(42, 100_000_000);
    let c2 = sim_config(99, 100_000_000);
    let r1 = run(&c1, make_zi_agents(10, 42));
    let r2 = run(&c2, make_zi_agents(10, 99));
    // Very unlikely to produce identical trade logs with different seeds
    let same = r1.trades.len() == r2.trades.len()
        && r1.trades.iter().zip(r2.trades.iter()).all(|(a, b)| a.price == b.price);
    assert!(!same || r1.trades.is_empty());
}

// ── Market open/close ───────────────────────────────────────────────────

#[test]
fn no_trades_before_open() {
    let cfg = sim_config(42, 10_000_000);
    let result = run(&cfg, make_zi_agents(10, 42));
    for trade in &result.trades {
        assert!(trade.timestamp >= cfg.start_time,
            "trade at {} before market open {}", trade.timestamp, cfg.start_time);
    }
}

#[test]
fn no_trades_after_close() {
    let cfg = sim_config(42, 10_000_000);
    let result = run(&cfg, make_zi_agents(10, 42));
    for trade in &result.trades {
        assert!(trade.timestamp <= cfg.end_time,
            "trade at {} after market close {}", trade.timestamp, cfg.end_time);
    }
}

// ── Empty book / single agent ───────────────────────────────────────────

/// An agent that only submits market orders (no limit orders).
struct MarketOnlyAgent { symbol: u32 }

impl Agent for MarketOnlyAgent {
    fn wakeup_into(&mut self, _: Nanos, _: AgentId, _: &[MarketSnapshot], out: &mut Vec<AgentAction>) {
        out.push(AgentAction::SubmitOrder {
            symbol: self.symbol,
            order: OrderAction::NewMarketOrder {
                side: Side::Bid,
                qty: 1,
                user_id: 0,
            },
        });
        out.push(AgentAction::ScheduleWakeUp { delay_ns: 1_000_000 });
    }
    fn on_exchange_message(&mut self, _: Nanos, _: AgentId, _: ExchangeMessage) {}
}

#[test]
fn empty_book_market_orders_no_trades() {
    let cfg = sim_config(42, 10_000_000);
    let agents: Vec<Box<dyn Agent>> = vec![Box::new(MarketOnlyAgent { symbol: 0 })];
    let result = run(&cfg, agents);
    assert_eq!(result.trades.len(), 0, "no trades on empty book");
}

/// An agent that only submits limit orders at a fixed price on one side.
struct LimitOnlyAgent { side: Side, price: i64 }

impl Agent for LimitOnlyAgent {
    fn wakeup_into(&mut self, _: Nanos, _: AgentId, _: &[MarketSnapshot], out: &mut Vec<AgentAction>) {
        out.push(AgentAction::SubmitOrder {
            symbol: 0,
            order: OrderAction::NewLimitOrder {
                side: self.side,
                price: self.price,
                qty: 1,
                user_id: 0,
            },
        });
        out.push(AgentAction::ScheduleWakeUp { delay_ns: 1_000_000 });
    }
    fn on_exchange_message(&mut self, _: Nanos, _: AgentId, _: ExchangeMessage) {}
}

#[test]
fn single_agent_limit_orders_no_trades() {
    let cfg = sim_config(42, 5_000_000);
    let agents: Vec<Box<dyn Agent>> = vec![
        Box::new(LimitOnlyAgent { side: Side::Bid, price: 100 }),
    ];
    let result = run(&cfg, agents);
    assert_eq!(result.trades.len(), 0, "single-sided limit orders produce no trades");
}

// ── Two agents forced trade ─────────────────────────────────────────────

#[test]
fn two_agents_forced_trade() {
    let cfg = sim_config(42, 10_000_000);
    let agents: Vec<Box<dyn Agent>> = vec![
        Box::new(LimitOnlyAgent { side: Side::Bid, price: 100 }),
        Box::new(LimitOnlyAgent { side: Side::Ask, price: 100 }),
    ];
    let result = run(&cfg, agents);
    assert!(!result.trades.is_empty(), "crossing limit orders should trade");
    for trade in &result.trades {
        assert_eq!(trade.price, 100);
    }
}

// ── Latency model sanity ────────────────────────────────────────────────

#[test]
fn latency_model_base_only() {
    // With near-zero jitter and base=1ms, all deliveries should be ~1ms after send
    let cfg = Config {
        seed: 42,
        start_time: 0,
        end_time: 5_000_000,
        symbols: vec![0],
        latency: LatencyConfig {
            default_base_ns: 1_000_000,     // 1ms
            jitter_mu: 0.0,
            jitter_sigma: 0.0001,
            model: LatencyModelType::Uniform,
        },
        tick_size: 100,
        lot_size: 1,
        no_market_hours: false,
    };
    let agents: Vec<Box<dyn Agent>> = vec![
        Box::new(LimitOnlyAgent { side: Side::Bid, price: 100 }),
        Box::new(LimitOnlyAgent { side: Side::Ask, price: 100 }),
    ];
    let result = run(&cfg, agents);
    // Trades should happen: agent wakes at 0, order arrives ~1ms later
    // With 2 agents and 5ms window, we should get some trades
    assert!(result.events_processed > 0);
}

/// An agent that keeps a diary of its wakeups and of what it hears, and rests
/// one bid each time it wakes.
struct DiaryAgent { diary: Rc<RefCell<Vec<(Nanos, Option<u64>)>>>, sent: u64 }

impl Agent for DiaryAgent {
    fn wakeup_into(&mut self, time: Nanos, _: AgentId, _: &[MarketSnapshot], out: &mut Vec<AgentAction>) {
        self.diary.borrow_mut().push((time, None));
        self.sent += 1;
        out.push(AgentAction::SubmitOrder {
            symbol: 0,
            order: OrderAction::NewLimitOrder {
                side: Side::Bid,
                price: 100,
                qty: 1,
                user_id: self.sent,
            },
        });
        out.push(AgentAction::ScheduleWakeUp { delay_ns: 1_500_000 });
    }
    fn on_exchange_message(&mut self, time: Nanos, _: AgentId, message: ExchangeMessage) {
        match message {
            ExchangeMessage::OrderAccepted { user_id, .. } => {
                self.diary.borrow_mut().push((time, Some(user_id)));
            }
            _ => panic!("a resting bid is only acknowledged"),
        }
    }
}

#[test]
fn an_agent_hears_each_message_once_and_on_time() {
    let mut cfg = sim_config(42, 5_200_000);
    cfg.latency = LatencyConfig {
        default_base_ns: 1_000_000,
        jitter_mu: 0.0,
        jitter_sigma: 0.0,
        model: LatencyModelType::Uniform,
    };
    let diary = Rc::new(RefCell::new(Vec::new()));
    let agents: Vec<Box<dyn Agent>> = vec![Box::new(DiaryAgent { diary: diary.clone(), sent: 0 })];
    run(&cfg, agents);
    assert_eq!(
        *diary.borrow(),
        vec![
            (0, None),
            (1_500_000, None),
            (2_000_000, Some(1)),
            (3_000_000, None),
            (3_500_000, Some(2)),
            (4_500_000, None),
            (5_000_000, Some(3)),
        ]
    );
}

// ── Fill conservation ───────────────────────────────────────────────────

#[test]
fn fill_conservation() {
    let cfg = sim_config(42, 50_000_000);
    let result = run(&cfg, make_zi_agents(20, 42));
    // Each trade should have qty > 0
    for trade in &result.trades {
        assert!(trade.qty > 0, "fill qty must be positive");
    }
}

// ── Order ID uniqueness ─────────────────────────────────────────────────

#[test]
fn order_id_uniqueness() {
    let cfg = sim_config(42, 50_000_000);
    let result = run(&cfg, make_zi_agents(20, 42));
    // Taker IDs should all be unique (each order submission gets a unique ID)
    let mut taker_ids: Vec<u64> = result.trades.iter().map(|t| t.taker_order_id).collect();
    taker_ids.sort_unstable();
    taker_ids.dedup();
    // Some taker orders may produce multiple fills (multi-level sweeps),
    // so taker_ids after dedup should have <= trade count
    assert!(taker_ids.len() <= result.trades.len());
}

// ── Large simulation doesn't crash ──────────────────────────────────────

#[test]
fn large_simulation_completes() {
    let cfg = Config {
        seed: 42,
        start_time: 0,
        end_time: 1_000_000_000, // 1 second simulated
        symbols: vec![0],
        latency: LatencyConfig {
            default_base_ns: 50_000,
            jitter_mu: 0.0,
            jitter_sigma: 0.3,
            model: LatencyModelType::Uniform,
        },
        tick_size: 100,
        lot_size: 1,
        no_market_hours: false,
    };
    let agents = make_zi_agents(100, 42);
    let result = run(&cfg, agents);
    assert!(result.events_processed > 0);
    assert!(!result.trades.is_empty(), "100 agents should produce trades");
}

// ── L1 snapshots recorded ───────────────────────────────────────────────

#[test]
fn l1_snapshots_recorded() {
    let cfg = sim_config(42, 50_000_000);
    let result = run(&cfg, make_zi_agents(20, 42));
    assert!(!result.l1_snapshots.is_empty(), "should record BBO changes");
}

// ── no_market_hours mode ─────────────────────────────────────────────

#[test]
fn no_market_hours_allows_trading() {
    let mut cfg = sim_config(42, 10_000_000);
    cfg.no_market_hours = true;
    let result = run(&cfg, make_zi_agents(10, 42));
    assert!(!result.trades.is_empty(), "continuous mode should produce trades");
}

// ── Trend-following agent ────────────────────────────────────────────

#[test]
fn trend_following_agent_runs() {
    let cfg = sim_config(42, 200_000_000);
    let mut agents: Vec<Box<dyn Agent>> = make_zi_agents(10, 42);
    agents.push(Box::new(new_trend(
        TrendConfig {
            short_window: 3,
            long_window: 10,
            threshold: 0.001,
            price_offset: 0.02,
            order_size_factor: 1.0,
            order_size_boost: 1.0,
            mean_wakeup_interval_ns: 5_000_000,
            sampling_freq_ns: 2_000_000,
            reference_price: 10_000,
            symbol: 0,
            contrarian: false,
        },
        99,
    )));
    let result = run(&cfg, agents);
    assert!(result.events_processed > 0);
    assert!(!result.trades.is_empty());
}

// ── Contrarian agent ─────────────────────────────────────────────────

#[test]
fn contrarian_agent_runs() {
    let cfg = sim_config(42, 200_000_000);
    let mut agents: Vec<Box<dyn Agent>> = make_zi_agents(10, 42);
    agents.push(Box::new(new_trend(
        TrendConfig {
            short_window: 3,
            long_window: 10,
            threshold: 0.001,
            price_offset: 0.025,
            order_size_factor: 1.0,
            order_size_boost: 1.0,
            mean_wakeup_interval_ns: 5_000_000,
            sampling_freq_ns: 2_000_000,
            reference_price: 10_000,
            symbol: 0,
            contrarian: true,
        },
        99,
    )));
    let result = run(&cfg, agents);
    assert!(result.events_processed > 0);
    assert!(!result.trades.is_empty());
}

// ── Market-maker agent ───────────────────────────────────────────────

#[test]
fn market_maker_agent_runs() {
    let cfg = sim_config(42, 200_000_000);
    let mut agents: Vec<Box<dyn Agent>> = make_zi_agents(10, 42);
    agents.push(Box::new(new_maker(
        MarketMakerConfig {
            total_liquidity: 10.0,
            step_size_ratio: 0.001,
            max_levels: 3,
            imbalance_beta: 1.0,
            peak_distance_ratio: 0.05,
            shape_exponent: 1.2,
            mean_wakeup_interval_ns: 5_000_000,
            reference_price: 10_000,
            symbol: 0,
        },
        99,
    )));
    let result = run(&cfg, agents);
    assert!(result.events_processed > 0);
    assert!(!result.trades.is_empty());
}

// ── NYC-Seattle latency model ────────────────────────────────────────

#[test]
fn nyc_seattle_latency_model_works() {
    let cfg = Config {
        seed: 42,
        start_time: 0,
        end_time: 50_000_000,
        symbols: vec![0],
        latency: LatencyConfig {
            default_base_ns: 50_000,
            jitter_mu: 0.0,
            jitter_sigma: 0.3,
            model: LatencyModelType::NycSeattle { seed: 7 },
        },
        tick_size: 100,
        lot_size: 1,
        no_market_hours: false,
    };
    let result = run(&cfg, make_zi_agents(10, 42));
    assert!(result.events_processed > 0);
}

// ── Mixed agent simulation ───────────────────────────────────────────

#[test]
fn mixed_agents_simulation() {
    let cfg = sim_config(42, 200_000_000);
    let zi_cfg = zi_config();
    let mut agents: Vec<Box<dyn Agent>> = (0..5)
        .map(|i| Box::new(new_zi(zi_cfg.clone(), 42 + i)) as Box<dyn Agent>)
        .collect();
    agents.push(Box::new(new_trend(
        TrendConfig {
            short_window: 3, long_window: 10, threshold: 0.001,
            price_offset: 0.02, order_size_factor: 1.0, order_size_boost: 1.0,
            mean_wakeup_interval_ns: 5_000_000, sampling_freq_ns: 2_000_000,
            reference_price: 10_000, symbol: 0, contrarian: false,
        },
        100,
    )));
    agents.push(Box::new(new_maker(
        MarketMakerConfig {
            total_liquidity: 5.0, step_size_ratio: 0.001, max_levels: 2,
            imbalance_beta: 1.0, peak_distance_ratio: 0.05, shape_exponent: 1.2,
            mean_wakeup_interval_ns: 5_000_000, reference_price: 10_000, symbol: 0,
        },
        101,
    )));
    let result = run(&cfg, agents);
    assert!(!result.trades.is_empty(), "mixed agents should trade");
}

// ── Realism ──────────────────────────────────────────────────────────────

fn realistic_config() -> Config {
    Config {
        seed: 123,
        start_time: 0,
        end_time: 60_000_000_000, // 1 minute (fast enough for debug mode)
        symbols: vec![0],
        latency: LatencyConfig {
            default_base_ns: 50_000,
            jitter_mu: 0.0,
            jitter_sigma: 0.3,
            model: LatencyModelType::Uniform,
        },
        tick_size: 100,
        lot_size: 1,
        no_market_hours: false,
    }
}

fn make_agents(n: usize, seed: u64) -> Vec<Box<dyn Agent>> {
    let cfg = ZiAgentConfig {
        wake_up_interval_ns: 10_000_000,
        price_std: 0.000_3,
        order_size_scale: 1.0,
        order_size_std: 0.3,
        reference_price: 10_000,
        symbol: 0,
    };
    (0..n)
        .map(|i| Box::new(new_zi(cfg.clone(), seed.wrapping_add(i as u64))) as Box<dyn Agent>)
        .collect()
}

fn get_result() -> SimulationResult {
    run(&realistic_config(), make_agents(100, 123))
}

#[test]
fn trades_happen() {
    let r = get_result();
    assert!(r.trades.len() > 10, "should produce trades, got {}", r.trades.len());
}

#[test]
fn price_stays_near_reference() {
    let r = get_result();
    assert!(!r.trades.is_empty());

    let total_volume: u64 = r.trades.iter().map(|t| t.qty).sum();
    let notional: f64 = r.trades.iter().map(|t| t.price as f64 * t.qty as f64).sum();
    let vwap = notional / total_volume as f64;
    let reference = 10_000.0;

    let pct_deviation = ((vwap - reference) / reference).abs();
    assert!(pct_deviation < 0.20,
        "VWAP {vwap:.1} deviates {:.1}% from reference {reference}", pct_deviation * 100.0);
}

#[test]
fn spread_is_positive() {
    let r = get_result();

    let valid_snaps: Vec<_> = r.l1_snapshots.iter()
        .filter(|s| s.bid_price > 0 && s.ask_price > 0)
        .collect();
    assert!(!valid_snaps.is_empty());

    let total_spread: f64 = valid_snaps.iter()
        .map(|s| (s.ask_price - s.bid_price) as f64)
        .sum();
    let avg_spread = total_spread / valid_snaps.len() as f64;

    assert!(avg_spread > 0.0, "spread should be positive");
    let reference = 10_000.0;
    assert!(avg_spread / reference < 0.10,
        "spread {avg_spread:.1} too wide vs ref {reference}");
}

#[test]
fn book_has_orders() {
    let r = get_result();

    let total = r.l1_snapshots.len();
    assert!(total > 0);
    let both_sides = r.l1_snapshots.iter()
        .filter(|s| s.bid_price > 0 && s.ask_price > 0)
        .count();

    let ratio = both_sides as f64 / total as f64;
    assert!(ratio > 0.3,
        "book should have both sides >30% of time, got {:.1}%", ratio * 100.0);
}

#[test]
fn cancellations_occur() {
    let r = get_result();
    assert!(r.events_processed > 100);
}

#[test]
fn performance_reasonable() {
    let cfg = realistic_config();
    let r = run(&cfg, make_agents(100, 999));
    assert!(!r.trades.is_empty());
}

// ── Fingerprints of whole runs ───────────────────────────────────────────

const FNV_OFFSET: u64 = 0xcbf2_9ce4_8422_2325;
const FNV_PRIME: u64 = 0x0000_0100_0000_01b3;

/// FNV-1a fold of one word into a running hash.
fn fold(h: u64, word: u64) -> u64 {
    (h ^ word).wrapping_mul(FNV_PRIME)
}

#[allow(clippy::cast_sign_loss)]
fn fold_i64(h: u64, word: i64) -> u64 {
    fold(h, word as u64)
}

/// A deterministic agent that trades on symbol 0 and records everything it
/// sees: wakeup times, the snapshots of every market, and each exchange
/// message with its delivery time. The hash lives behind an `Rc` so the test
/// reads it after the kernel consumed the agent.
struct ProbeAgent {
    hash: Rc<Cell<u64>>,
    counter: u64,
    open_orders: Vec<u64>,
}

impl ProbeAgent {
    fn new(hash: Rc<Cell<u64>>) -> Self {
        Self { hash, counter: 0, open_orders: Vec::new() }
    }

    fn fold_in(&self, word: u64) {
        self.hash.set(fold(self.hash.get(), word));
    }

    fn fold_snapshot(&self, snap: &MarketSnapshot) {
        let (bp, bv) = snap.best_bid.unwrap_or((-1, 0));
        let (ap, av) = snap.best_ask.unwrap_or((-1, 0));
        #[allow(clippy::cast_sign_loss)]
        {
            self.fold_in(bp as u64);
            self.fold_in(bv);
            self.fold_in(ap as u64);
            self.fold_in(av);
            self.fold_in(snap.last_trade_price.unwrap_or(-1) as u64);
        }
        self.fold_in(snap.last_trade_time.unwrap_or(u64::MAX));
    }
}

impl Agent for ProbeAgent {
    fn wakeup_into(
        &mut self,
        time: Nanos,
        _agent_id: AgentId,
        snapshots: &[MarketSnapshot],
        actions: &mut Vec<AgentAction>,
    ) {
        self.fold_in(0xAAAA);
        self.fold_in(time);
        for snap in snapshots {
            self.fold_snapshot(snap);
        }
        self.counter += 1;
        let mid = snapshots[0]
            .best_bid
            .zip(snapshots[0].best_ask)
            .map_or(10_000, |((b, _), (a, _))| (b + a) / 2);
        let side = if self.counter.is_multiple_of(2) { Side::Bid } else { Side::Ask };
        let offset = 1 + (self.counter % 5) as i64;
        let price = if side == Side::Bid { mid - offset } else { mid + offset };
        actions.push(AgentAction::SubmitOrder {
            symbol: 0,
            order: OrderAction::NewLimitOrder {
                side,
                price,
                qty: 1 + self.counter % 3,
                user_id: self.counter,
            },
        });
        if self.counter.is_multiple_of(3) {
            if let Some(order_id) = self.open_orders.pop() {
                actions.push(AgentAction::CancelOrder { symbol: 0, order_id });
            }
        }
        actions.push(AgentAction::ScheduleWakeUp { delay_ns: 7_777_777 });
    }

    fn on_exchange_message(&mut self, time: Nanos, _agent_id: AgentId, message: ExchangeMessage) {
        self.fold_in(0xBBBB);
        self.fold_in(time);
        match message {
            ExchangeMessage::OrderAccepted { order_id, user_id, symbol, side, qty } => {
                self.fold_in(1);
                self.fold_in(order_id);
                self.fold_in(user_id);
                self.fold_in(u64::from(symbol));
                self.fold_in(u64::from(side == Side::Bid));
                self.fold_in(qty);
                self.open_orders.push(order_id);
            }
            ExchangeMessage::OrderFilled { order_id, user_id, symbol, side, price, qty, remaining, .. } => {
                self.fold_in(2);
                self.fold_in(order_id);
                self.fold_in(user_id);
                self.fold_in(u64::from(symbol));
                self.fold_in(u64::from(side == Side::Bid));
                #[allow(clippy::cast_sign_loss)]
                self.fold_in(price as u64);
                self.fold_in(qty);
                self.fold_in(remaining);
            }
            ExchangeMessage::OrderCancelled { order_id, user_id, symbol } => {
                self.fold_in(3);
                self.fold_in(order_id);
                self.fold_in(user_id);
                self.fold_in(u64::from(symbol));
            }
            ExchangeMessage::OrderRejected { order_id, user_id, symbol } => {
                self.fold_in(4);
                self.fold_in(order_id);
                self.fold_in(user_id);
                self.fold_in(u64::from(symbol));
            }
        }
    }
}

/// Fold every field of the result into one hash.
fn result_fingerprint(result: &SimulationResult, probe_hash: u64) -> u64 {
    let mut h = FNV_OFFSET;
    h = fold(h, result.events_processed);
    h = fold(h, result.end_time);
    h = fold(h, result.trades.len() as u64);
    for t in &result.trades {
        h = fold(h, t.timestamp);
        h = fold(h, u64::from(t.symbol));
        h = fold_i64(h, t.price);
        h = fold(h, t.qty);
        h = fold(h, u64::from(t.aggressor_side == Side::Bid));
        h = fold(h, t.maker_order_id);
        h = fold(h, t.taker_order_id);
    }
    h = fold(h, result.l1_snapshots.len() as u64);
    for s in &result.l1_snapshots {
        h = fold(h, s.timestamp);
        h = fold(h, u64::from(s.symbol));
        h = fold_i64(h, s.bid_price);
        h = fold_i64(h, s.ask_price);
        h = fold(h, s.bid_volume);
        h = fold(h, s.ask_volume);
        h = fold_i64(h, s.last_trade_price);
    }
    h = fold(h, result.l1_buckets.len() as u64);
    for b in &result.l1_buckets {
        h = fold(h, b.bucket_start);
        h = fold(h, u64::from(b.symbol));
        h = fold_i64(h, b.first_bid);
        h = fold_i64(h, b.min_bid);
        h = fold_i64(h, b.last_bid);
        h = fold_i64(h, b.first_ask);
        h = fold_i64(h, b.max_ask);
        h = fold_i64(h, b.last_ask);
        h = fold(h, b.volume);
        h = fold(h, b.quote_volume as u64);
        h = fold(h, (b.quote_volume >> 64) as u64);
    }
    fold(h, probe_hash)
}

fn zi(symbol: u32, seed: u64) -> Box<dyn Agent> {
    Box::new(zi_of_mean(
        ZiAgentConfig {
            wake_up_interval_ns: 5_000_000,
            price_std: 0.002,
            order_size_scale: 3.0,
            order_size_std: 0.8,
            reference_price: 10_000,
            symbol,
        },
        seed,
        -0.5,
    ))
}

fn maker(symbol: u32, seed: u64) -> Box<dyn Agent> {
    Box::new(new_maker(
        MarketMakerConfig {
            total_liquidity: 60.0,
            step_size_ratio: 0.001,
            max_levels: 3,
            imbalance_beta: 0.4,
            peak_distance_ratio: 0.05,
            shape_exponent: 1.5,
            mean_wakeup_interval_ns: 8_000_000,
            reference_price: 10_000,
            symbol,
        },
        seed,
    ))
}

fn trend(symbol: u32, seed: u64) -> Box<dyn Agent> {
    Box::new(new_trend(
        TrendConfig {
            short_window: 3,
            long_window: 9,
            threshold: 0.0002,
            price_offset: 0.01,
            order_size_factor: 40.0,
            order_size_boost: 2.0,
            mean_wakeup_interval_ns: 15_000_000,
            sampling_freq_ns: 5_000_000,
            reference_price: 10_000,
            symbol,
            contrarian: false,
        },
        seed,
    ))
}

/// An agent to whom every fill looks like the last of its order. The
/// fingerprints were recorded with agents that let go of an order at its first
/// fill.
struct AtFirstFill(Box<dyn Agent>);

impl Agent for AtFirstFill {
    fn wakeup_into(
        &mut self,
        time: Nanos,
        agent_id: AgentId,
        snapshots: &[MarketSnapshot],
        actions: &mut Vec<AgentAction>,
    ) {
        self.0.wakeup_into(time, agent_id, snapshots, actions);
    }

    fn on_exchange_message(&mut self, time: Nanos, agent_id: AgentId, message: ExchangeMessage) {
        let message = match message {
            ExchangeMessage::OrderFilled {
                order_id,
                user_id,
                symbol,
                side,
                price,
                qty,
                notional,
                ..
            } => ExchangeMessage::OrderFilled {
                order_id,
                user_id,
                symbol,
                side,
                price,
                qty,
                remaining: 0,
                notional,
            },
            other => other,
        };
        self.0.on_exchange_message(time, agent_id, message);
    }
}

/// Two markets with ZI, maker and trend agents plus the probe.
fn build_agents(probe_hash: &Rc<Cell<u64>>) -> Vec<Box<dyn Agent>> {
    let mut agents: Vec<Box<dyn Agent>> = Vec::new();
    for symbol in 0..2 {
        for k in 0..6 {
            agents.push(Box::new(AtFirstFill(zi(symbol, 1000 + u64::from(symbol) * 100 + k))));
        }
        agents.push(Box::new(AtFirstFill(maker(symbol, 2000 + u64::from(symbol)))));
        agents.push(Box::new(AtFirstFill(trend(symbol, 3000 + u64::from(symbol)))));
    }
    agents.push(Box::new(ProbeAgent::new(Rc::clone(probe_hash))));
    agents
}

fn fingerprint_config(model: LatencyModelType, no_market_hours: bool) -> Config {
    Config {
        seed: 20260921,
        start_time: 0,
        end_time: 2_000_000_000,
        symbols: vec![0, 1],
        latency: LatencyConfig {
            default_base_ns: 50_000,
            jitter_mu: 0.0,
            jitter_sigma: 0.3,
            model,
        },
        tick_size: 100,
        lot_size: 1,
        no_market_hours,
    }
}

fn run_fingerprint(model: LatencyModelType, no_market_hours: bool, options: &RunOptions) -> u64 {
    let probe_hash = Rc::new(Cell::new(FNV_OFFSET));
    let agents = build_agents(&probe_hash);
    let result = run_with(&fingerprint_config(model, no_market_hours), agents, options);
    result_fingerprint(&result, probe_hash.get())
}

#[test]
fn gen88_like_run_keeps_its_fingerprint() {
    let got = run_fingerprint(
        LatencyModelType::NycSeattle { seed: 20260921 },
        true,
        &RunOptions::default(),
    );
    assert_eq!(got, 0x5be1_136c_e8c0_ab09, "fingerprint changed: {got:#018x}");
}

#[test]
fn lean_bucket_run_keeps_its_fingerprint() {
    let got = run_fingerprint(
        LatencyModelType::NycSeattle { seed: 20260921 },
        true,
        &RunOptions { keep_trades: false, l1_bucket_ns: Some(1_000_000_000), ..RunOptions::default() },
    );
    assert_eq!(got, 0xaa8d_4841_1311_7022, "fingerprint changed: {got:#018x}");
}

#[test]
fn market_hours_run_keeps_its_fingerprint() {
    let got = run_fingerprint(
        LatencyModelType::Uniform,
        false,
        &RunOptions::default(),
    );
    assert_eq!(got, 0x9c59_ea34_8966_f5cd, "fingerprint changed: {got:#018x}");
}

#[test]
fn no_latency_run_keeps_its_fingerprint() {
    let got = run_fingerprint(LatencyModelType::NoLatency, true, &RunOptions::default());
    assert_eq!(got, 0xe84d_4df1_e7a4_429e, "fingerprint changed: {got:#018x}");
}
