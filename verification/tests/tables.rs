//! Calendar, candles, columns, hashes and the smaller parts of a run.

use std::cmp::Ordering;
use std::collections::HashMap;
use std::hash::{BuildHasherDefault, Hasher};

use market_sim::calendar::{is_leap, year_start_nanos};
use market_sim::candles::{compute_year_candles, MinuteCandle, ONE_MINUTE_NS};
use market_sim::fasthash::{FxHasher, SEED};
use market_sim::output::{millis_of, side_name, BucketColumns, SnapshotColumns, TradeColumns};
use market_sim::{
    Agent, AgentAction, Event, EventPayload, ExchangeMessage, FlowOptions, FlowRecorder, Kernel,
    L1Bucket, L1Snapshot, Latency, LatencyModel, MarketSnapshot, OrderAction, RatioEdge, RunError,
    RunOptions, Side, SimulationConfig, SimulationResult, TradeRecord,
};

// ── Calendar ─────────────────────────────────────────────────────────────

#[test]
fn leap_years_follow_the_calendar() {
    for (year, leap) in [(1900, false), (1904, true), (2000, true), (2100, false), (2023, false)] {
        assert_eq!(is_leap(year), leap, "{year}");
    }
    for (year, leap) in [(0, true), (-4, true), (-100, false), (-400, true), (i32::MIN, true)] {
        assert_eq!(is_leap(year), leap, "{year}");
    }
}

#[test]
fn year_starts_are_those_of_the_epoch() {
    let day = 86_400_000_000_000_i64;
    assert_eq!(year_start_nanos(1970), 0);
    assert_eq!(year_start_nanos(1971), 365 * day);
    assert_eq!(year_start_nanos(1969), -365 * day);
    assert_eq!(year_start_nanos(2000), 946_684_800 * 1_000_000_000);
    assert_eq!(year_start_nanos(1919), -1_609_459_200 * 1_000_000_000);
    assert_eq!(year_start_nanos(2262), 106_651 * day);
    assert_eq!(year_start_nanos(1678), -106_650 * day);
}

// ── Candles ──────────────────────────────────────────────────────────────

fn snap(timestamp: u64, bid_price: i64, ask_price: i64) -> L1Snapshot {
    L1Snapshot {
        timestamp,
        symbol: 0,
        bid_price,
        ask_price,
        bid_volume: 1,
        ask_volume: 1,
        last_trade_price: 0,
    }
}

fn trade(timestamp: u64, price: i64, qty: u64) -> TradeRecord {
    TradeRecord {
        timestamp,
        symbol: 4,
        price,
        qty,
        aggressor_side: Side::Ask,
        maker_order_id: 8,
        taker_order_id: 9,
    }
}

fn result(trades: Vec<TradeRecord>, l1_snapshots: Vec<L1Snapshot>) -> SimulationResult {
    SimulationResult {
        trades,
        l1_snapshots,
        l1_buckets: Vec::new(),
        flow_buckets: Vec::new(),
        flow_totals: Vec::new(),
        events_processed: 0,
        end_time: 0,
    }
}

#[test]
fn candles_fill_gaps_with_the_last_close() {
    let minute = ONE_MINUTE_NS;
    let run = result(
        vec![
            trade(2 * minute, 10, 3),
            trade(2 * minute + 5, 20, 4),
            trade(3 * minute, 30, 5),
            trade(9 * minute, 40, 6),
        ],
        vec![
            snap(minute, 0, 100),
            snap(2 * minute, 100, 102),
            snap(2 * minute + 1, 110, 112),
            snap(2 * minute + 2, 90, 92),
            snap(2 * minute + 3, 95, 97),
            snap(3 * minute, 95, 0),
            snap(4 * minute, 96, 99),
        ],
    );
    let candles = compute_year_candles(&run).unwrap();
    assert_eq!(
        candles,
        vec![
            MinuteCandle { open: 202, high: 222, low: 182, close: 192, volume: 7, notional: 110 },
            MinuteCandle { open: 192, high: 192, low: 192, close: 192, volume: 5, notional: 150 },
            MinuteCandle { open: 195, high: 195, low: 195, close: 195, volume: 0, notional: 0 },
        ]
    );
}

#[test]
fn a_minute_without_quotes_has_its_volume() {
    let quotes = vec![snap(1, 10, 12), snap(2 * ONE_MINUTE_NS, 12, 14)];
    let run = result(vec![trade(ONE_MINUTE_NS + 5, 11, 5)], quotes);
    let candles = compute_year_candles(&run).unwrap();
    assert_eq!(
        candles,
        vec![
            MinuteCandle { open: 22, high: 22, low: 22, close: 22, volume: 0, notional: 0 },
            MinuteCandle { open: 22, high: 22, low: 22, close: 22, volume: 5, notional: 55 },
            MinuteCandle { open: 26, high: 26, low: 26, close: 26, volume: 0, notional: 0 },
        ]
    );
}

#[test]
fn a_run_without_quotes_has_no_candles() {
    let run = result(vec![trade(5, 10, 3)], vec![snap(1, 0, 100), snap(2, 100, 0)]);
    assert_eq!(compute_year_candles(&run), Some(Vec::new()));
}

#[test]
fn candles_of_a_notional_that_does_not_fit_are_not_given() {
    let big = |time| trade(time, i64::MAX, u64::MAX);
    let quotes = vec![snap(1, 100, 102)];
    assert!(compute_year_candles(&result(vec![big(1)], quotes.clone())).is_some());
    assert!(compute_year_candles(&result(vec![big(1), big(ONE_MINUTE_NS)], quotes.clone())).is_some());
    assert!(compute_year_candles(&result(vec![big(1), big(2)], quotes)).is_none());
}

// ── Columns ──────────────────────────────────────────────────────────────

#[test]
fn records_become_columns() {
    let trades = TradeColumns::of(&[trade(1, 10, 3), trade(2, 20, 4)]);
    assert_eq!(trades.timestamp, vec![1, 2]);
    assert_eq!(trades.symbol, vec![4, 4]);
    assert_eq!(trades.price, vec![10, 20]);
    assert_eq!(trades.qty, vec![3, 4]);
    assert_eq!(trades.aggressor_side, vec![Side::Ask, Side::Ask]);
    assert_eq!(trades.maker_order_id, vec![8, 8]);
    assert_eq!(trades.taker_order_id, vec![9, 9]);

    let snapshots = SnapshotColumns::of(&[snap(5, 6, 7)]);
    assert_eq!(snapshots.timestamp, vec![5]);
    assert_eq!((snapshots.bid_price, snapshots.ask_price), (vec![6], vec![7]));

    let mut first = L1Bucket::new(0, 1);
    first.absorb(101, 103, 4, 6);
    let mut second = L1Bucket::new(60_000_000_000, 1);
    second.absorb(0, 0, 0, 0);
    second.absorb(99, 105, 1, 2);
    let buckets = BucketColumns::of(&[first, second]);
    assert_eq!(buckets.bucket_start, vec![0, 60_000_000_000]);
    assert_eq!(buckets.min_bid, vec![101, 99]);
    assert_eq!(buckets.max_ask, vec![103, 105]);
    assert_eq!(buckets.last_bid, vec![101, 99]);
    assert_eq!(buckets.volume, vec![10, 3]);
    assert_eq!(buckets.quote_volume, vec![1022, 309]);
}

#[test]
fn sides_have_names_and_times_milliseconds() {
    assert_eq!(side_name(Side::Bid), "bid");
    assert_eq!(side_name(Side::Ask), "ask");
    assert_eq!(millis_of(1_999_999), 1);
    assert_eq!(millis_of(-1_999_999), -1);
    assert_eq!(millis_of(i64::MIN), i64::MIN / 1_000_000);
}

// ── Hash ─────────────────────────────────────────────────────────────────

#[test]
fn words_are_mixed_by_rotation_and_multiplication() {
    let mut hasher = FxHasher::default();
    assert_eq!(hasher.finish(), 0);
    hasher.write_u64(7);
    let once = 7_u64.wrapping_mul(SEED);
    assert_eq!(hasher.finish(), once);
    hasher.write_usize(9);
    assert_eq!(hasher.finish(), (once.rotate_left(5) ^ 9).wrapping_mul(SEED));
}

#[test]
fn bytes_are_words_of_eight() {
    let bytes = [1, 2, 3, 4, 5, 6, 7, 8, 9, 10, 11];
    let mut whole = FxHasher::default();
    whole.write(&bytes);
    let mut words = FxHasher::default();
    words.write_u64(u64::from_le_bytes([1, 2, 3, 4, 5, 6, 7, 8]));
    words.write_u64(u64::from_le_bytes([9, 10, 11, 0, 0, 0, 0, 0]));
    assert_eq!(whole.finish(), words.finish());
    let mut none = FxHasher::default();
    none.write(&[]);
    assert_eq!(none.finish(), 0);
}

#[test]
fn a_map_takes_the_hasher() {
    let mut map: HashMap<u64, u64, BuildHasherDefault<FxHasher>> = HashMap::default();
    for key in 0..1_000 {
        map.insert(key, key * key);
    }
    assert_eq!(map.len(), 1_000);
    assert_eq!(map.get(&31), Some(&961));
}

// ── Events and latency ───────────────────────────────────────────────────

#[test]
fn earlier_events_rank_higher() {
    let event = |delivery_time, seq| Event {
        delivery_time,
        seq,
        payload: EventPayload::WakeUp { agent_id: 0 },
    };
    assert_eq!(event(1, 9).rank(&event(2, 0)), Ordering::Greater);
    assert_eq!(event(2, 0).rank(&event(1, 9)), Ordering::Less);
    assert_eq!(event(2, 0).rank(&event(2, 1)), Ordering::Greater);
    assert_eq!(event(2, 1).rank(&event(2, 0)), Ordering::Less);
    assert_eq!(event(2, 1).rank(&event(2, 1)), Ordering::Equal);
}

#[test]
fn fixed_latency_is_the_base_of_the_agent() {
    let mut model = LatencyModel::with_bases(vec![5, 7]);
    assert_eq!((model.agent_to_exchange(0), model.exchange_to_agent(1)), (5, 7));
    assert_eq!(model.base(2), 0);
    assert_eq!(LatencyModel::uniform(3, 2).base(1), 3);
    assert_eq!(LatencyModel::none(2).base(1), 0);
}

// ── Runs ─────────────────────────────────────────────────────────────────

/// Submits what it is given on its first wakeup, and no more.
struct Once(Vec<AgentAction>);

impl Agent for Once {
    fn wakeup_into(
        &mut self,
        _time: u64,
        _agent_id: usize,
        _snapshots: &[MarketSnapshot],
        actions: &mut Vec<AgentAction>,
    ) {
        actions.append(&mut self.0);
    }

    fn on_exchange_message(&mut self, _time: u64, _agent_id: usize, _message: ExchangeMessage) {}
}

fn config(symbols: Vec<u32>, no_market_hours: bool) -> SimulationConfig {
    SimulationConfig {
        seed: 1,
        start_time: 0,
        end_time: 1_000,
        symbols,
        tick_size: 1,
        lot_size: 1,
        no_market_hours,
    }
}

fn submit(symbol: u32, side: Side, price: i64, qty: u64) -> AgentAction {
    AgentAction::SubmitOrder {
        symbol,
        order: OrderAction::NewLimitOrder { side, price, qty, user_id: 0 },
    }
}

fn run_once(
    config: &SimulationConfig,
    actions: Vec<Vec<AgentAction>>,
    delay: u64,
) -> Result<SimulationResult, RunError> {
    let agents: Vec<Box<dyn Agent>> =
        actions.into_iter().map(|list| Box::new(Once(list)) as Box<dyn Agent>).collect();
    let latency = LatencyModel::uniform(delay, agents.len());
    Kernel::run(config, agents, Box::new(latency))
}

#[test]
fn a_run_trades_at_the_time_of_arrival() {
    let run = run_once(
        &config(vec![5], true),
        vec![vec![submit(5, Side::Bid, 10, 3)], vec![submit(5, Side::Ask, 9, 2)]],
        20,
    )
    .unwrap();
    assert_eq!(run.trades.len(), 1);
    let trade = run.trades[0];
    assert_eq!((trade.timestamp, trade.price, trade.qty), (20, 10, 2));
    assert_eq!(trade.aggressor_side, Side::Ask);
    assert_eq!((trade.maker_order_id, trade.taker_order_id), (1_000_000_000, 1_000_000_001));
    // Two wakeups, two arrivals, and four messages heard after the last of them.
    assert_eq!(run.events_processed, 8);
    assert_eq!(run.end_time, 40);
}

#[test]
fn the_logs_of_a_run_are_in_the_order_of_time() {
    let run = run_once(
        &config(vec![5, 6], false),
        vec![
            vec![submit(6, Side::Bid, 10, 3), submit(5, Side::Bid, 10, 3)],
            vec![submit(5, Side::Ask, 9, 2), submit(6, Side::Ask, 9, 2)],
        ],
        20,
    )
    .unwrap();
    let symbols: Vec<u32> = run.trades.iter().map(|trade| trade.symbol).collect();
    assert_eq!(symbols, vec![5, 6]);
    assert!(run.l1_snapshots.windows(2).all(|pair| pair[0].timestamp <= pair[1].timestamp));
    assert_eq!(run.trades[0].maker_order_id / 1_000_000_000, 1);
    assert_eq!(run.trades[1].maker_order_id / 1_000_000_000, 2);
}

#[test]
fn an_order_out_of_range_ends_a_run() {
    let order = |qty, price| vec![vec![submit(5, Side::Bid, price, qty)]];
    let cfg = config(vec![5], true);
    assert!(run_once(&cfg, order(1, 10), 20).is_ok());
    assert_eq!(run_once(&cfg, order(0, 10), 20).err(), Some(RunError::OutOfRange));
    assert_eq!(run_once(&cfg, order(1, -1), 20).err(), Some(RunError::OutOfRange));
    assert_eq!(run_once(&cfg, order(1, 10), u64::MAX).err(), None);
    let late = vec![vec![AgentAction::ScheduleWakeUp { delay_ns: 600 }; 2], Vec::new()];
    assert!(run_once(&cfg, late, 20).is_ok());
}

#[test]
fn orders_for_an_unknown_symbol_go_nowhere() {
    let run = run_once(&config(vec![5], true), vec![vec![submit(9, Side::Bid, 10, 3)]], 20).unwrap();
    assert!(run.trades.is_empty());
    assert_eq!(run.events_processed, 2);
}

#[test]
fn the_default_options_keep_everything() {
    let options = RunOptions::default();
    assert!(options.keep_trades);
    assert_eq!(options.l1_bucket_ns, None);
    assert!(options.flow.is_none());
}

#[test]
fn a_flow_recorder_watches_one_agent() {
    let mut flow = FlowRecorder::new(
        FlowOptions {
            agent_id: 4,
            interval_ns: 10,
            horizons_ns: vec![3],
            ratio_edges: vec![RatioEdge { num: 1, den: 2 }],
        },
        7,
    );
    assert_eq!(flow.watched_agent(), 4);
    assert!(flow.on_accept(25, 4, 99, 5));
    assert!(flow.on_accept(25, 3, 98, 5));
    assert!(flow.is_live(99) && !flow.is_live(98));
    assert!(flow.on_reject(26, 4));
    assert!(flow.on_order_gone(41, 99));
    assert!(!flow.is_live(99));
    let (rows, totals) = flow.flush(49).unwrap();
    assert_eq!(rows.len(), 5);
    assert_eq!((rows[2].orders, rows[2].submitted_qty, rows[2].rejected_orders), (1, 5, 1));
    assert_eq!((rows[3].eligible_orders, rows[4].eligible_orders), (1, 1));
    assert_eq!((totals.accepted_orders, totals.rejected_orders), (1, 1));
}
