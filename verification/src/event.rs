//! What agents ask of an exchange, what it answers, and the events that carry
//! both through simulated time.

use crate::order::Side;
use crate::types::{AgentId, Nanos, Symbol};
use std::cmp::Ordering;
use vstd::prelude::*;

verus! {

/// An action an agent wants to perform on a symbol's order book.
///
/// `user_id` is an agent-chosen tag echoed verbatim on every exchange message
/// about the order (`0` = unset). It lets an agent attribute echoes to its
/// own bookkeeping directly (for instance a per-market slot index) instead of
/// decoding exchange-assigned order ids.
#[derive(Debug, Clone, Copy, PartialEq, Eq, Structural)]
pub enum OrderAction {
    NewLimitOrder { side: Side, price: i64, qty: u64, user_id: u64 },
    NewMarketOrder { side: Side, qty: u64, user_id: u64 },
    CancelOrder { order_id: u64 },
}

/// A message sent from the exchange back to an agent.
///
/// Every message is self-contained: it names the market (`symbol`), echoes
/// the submitting agent's `user_id` tag (`0` = unset), and creation and fill
/// messages carry the order owner's side and quantity. No message needs to
/// be correlated with another one to be interpreted.
#[derive(Debug, Clone, Copy, PartialEq, Eq, Structural)]
pub enum ExchangeMessage {
    /// Sent exactly once for every order the exchange creates, including an
    /// order that fully fills at submission, and always before any of its
    /// fills.
    OrderAccepted { order_id: u64, user_id: u64, symbol: Symbol, side: Side, qty: u64 },
    /// One fill of the order. `side` is the order owner's side (for a fill
    /// of a resting order, that is the resting order's side). `remaining` is
    /// the quantity that still rests after this fill: 0 means the order is
    /// done, a positive value means it is still resting, so an owner can
    /// maintain its resting-order set from fills alone, without inferring
    /// lifecycle from message ordering. A market order never rests: where it
    /// is filled in part, `remaining` is 0 and an `OrderCancelled` follows.
    OrderFilled {
        order_id: u64,
        user_id: u64,
        symbol: Symbol,
        side: Side,
        price: i64,
        qty: u64,
        remaining: u64,
        notional: u128,
    },
    OrderCancelled { order_id: u64, user_id: u64, symbol: Symbol },
    /// A rejected new order is reported with `order_id` 0 (no id is ever
    /// allocated for it); its echoed `user_id` and `symbol` still identify
    /// it. A rejected cancel carries the cancel's target `order_id`.
    OrderRejected { order_id: u64, user_id: u64, symbol: Symbol },
}

/// A message routed to a specific agent.
#[derive(Debug, Clone, Copy, PartialEq, Eq, Structural)]
pub struct RoutedMessage {
    pub agent_id: AgentId,
    pub message: ExchangeMessage,
}

/// Payload carried by each event in the simulation queue.
#[derive(Debug, Clone, Copy, PartialEq, Eq, Structural)]
pub enum EventPayload {
    WakeUp { agent_id: AgentId },
    OrderArrival { agent_id: AgentId, symbol: Symbol, order: OrderAction },
    ExchangeResponse { agent_id: AgentId, response: ExchangeMessage },
    MarketOpen { symbol: Symbol },
    MarketClose { symbol: Symbol },
}

/// A time-stamped event processed by the kernel.
#[derive(Debug, Clone, Copy, PartialEq, Eq, Structural)]
pub struct Event {
    pub delivery_time: Nanos,
    pub seq: u64,
    pub payload: EventPayload,
}

impl Event {
    /// How the event ranks against another in a queue that gives the greatest
    /// first: the earlier one is the greater, and of two at one time the one
    /// that was scheduled first.
    #[must_use]
    pub fn rank(&self, other: &Event) -> (rank: Ordering)
        ensures
            rank == if (self.delivery_time, self.seq) == (other.delivery_time, other.seq) {
                Ordering::Equal
            } else if self.delivery_time < other.delivery_time || (self.delivery_time
                == other.delivery_time && self.seq < other.seq) {
                Ordering::Greater
            } else {
                Ordering::Less
            },
    {
        if self.delivery_time < other.delivery_time {
            Ordering::Greater
        } else if self.delivery_time > other.delivery_time {
            Ordering::Less
        } else if self.seq < other.seq {
            Ordering::Greater
        } else if self.seq > other.seq {
            Ordering::Less
        } else {
            Ordering::Equal
        }
    }
}

} // verus!
