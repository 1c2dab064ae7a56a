//! Agent-based market simulation around a price-time priority order book.

pub mod agent;
pub mod agent_laws;
pub mod book_entry_laws;
pub mod book_laws;
pub mod book_lemmas;
pub mod book_model;
pub mod calendar;
pub mod candle_laws;
pub mod candles;
pub mod collection_laws;
pub mod config;
pub mod count_laws;
pub mod decisive_laws;
pub mod event;
pub mod exchange;
pub mod exchange_entry_laws;
pub mod exchange_laws;
pub mod exchange_lemmas;
pub mod exchange_model;
pub mod fasthash;
pub mod fills;
pub mod flow;
pub mod flow_end_laws;
pub mod flow_entry_laws;
pub mod flow_laws;
pub mod flow_lemmas;
pub mod flow_model;
pub mod inbox;
pub mod kernel;
pub mod kernel_laws;
pub mod kernel_lemmas;
pub mod kernel_model;
pub mod ladder;
pub mod latency;
pub mod market_maker_agent;
pub mod merge;
pub mod order;
pub mod orderbook;
pub mod output;
pub mod queue;
pub mod record_laws;
pub mod records;
pub mod rng;
pub mod room_laws;
pub mod run_laws;
pub mod samplers;
pub mod slot;
pub mod ticket_book;
pub mod ticket_lemmas;
pub mod ticket_model;
pub mod trend_following_agent;
pub mod types;
pub mod utils;
pub mod wide;
pub mod zi_agent;

pub use crate::agent::{Agent, AgentAction};
pub use crate::config::{RunOptions, SimulationConfig};
pub use crate::event::{Event, EventPayload, ExchangeMessage, OrderAction, RoutedMessage};
pub use crate::exchange::Exchange;
pub use crate::fills::{Fill, OrderResult, OrderStatus};
pub use crate::flow::{FlowBucket, FlowOptions, FlowRecorder};
pub use crate::flow_model::{FlowTotals, MoveTerm, RatioEdge};
pub use crate::kernel::{Kernel, RunError, SimulationResult};
pub use crate::latency::{Latency, LatencyModel};
pub use crate::market_maker_agent::MarketMakerAgent;
pub use crate::order::{LimitOrder, MarketOrder, Side};
pub use crate::orderbook::OrderBook;
pub use crate::records::{L1Bucket, L1Snapshot, TradeRecord};
pub use crate::samplers::{
    FixedIntervalWakeup, LiquidityModel, MovingAverage, OrderSizeSampler, PriceSampler, Quote,
    TrendPriceSampler, TrendSizeSampler, WakeupSampler,
};
pub use crate::trend_following_agent::{TrendFollowingAgent, TrendFollowingConfig};
pub use crate::types::{AgentId, MarketSnapshot, Nanos, Symbol};
pub use crate::zi_agent::ZiAgent;
