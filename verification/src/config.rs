//! What a run is configured with.

use crate::flow::FlowOptions;
use crate::types::{Nanos, Symbol};
use vstd::prelude::*;

verus! {

/// Top-level simulation configuration.
#[derive(Debug, Clone)]
pub struct SimulationConfig {
    pub seed: u64,
    pub start_time: Nanos,
    pub end_time: Nanos,
    pub symbols: Vec<Symbol>,
    pub tick_size: i64,
    pub lot_size: u64,
    /// Open every market at the start and never close it, instead of opening
    /// at `start_time` and closing at `end_time`.
    pub no_market_hours: bool,
}

/// Opt-in output reduction and diagnostics of one run.
///
/// The default keeps every trade and every L1 snapshot in memory, ready for
/// export. Each option trades data for memory, so a run that needs the full
/// log must not set it.
#[derive(Debug, Clone)]
pub struct RunOptions {
    /// Keep every trade. `false` drops the trade log and bounds that part of
    /// the memory.
    pub keep_trades: bool,
    /// Replace the per-event L1 log with one bucket per this many nanoseconds.
    /// The aggregation discards the L1 detail below that scale. `None` keeps
    /// the full log.
    pub l1_bucket_ns: Option<Nanos>,
    /// Record interval diagnostics of one agent on each exchange. `None`
    /// records none.
    pub flow: Option<FlowOptions>,
}

impl Default for RunOptions {
    fn default() -> (options: Self)
        ensures
            options.keep_trades,
            options.l1_bucket_ns is None,
            options.flow is None,
    {
        RunOptions { keep_trades: true, l1_bucket_ns: None, flow: None }
    }
}

} // verus!
