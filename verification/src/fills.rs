//! What comes back from submitting an order.

use crate::order::Side;
use vstd::prelude::*;

verus! {

/// A single fill (trade execution) between a taker and a resting maker order.
#[derive(Debug, Clone, Copy, PartialEq, Eq, Structural)]
pub struct Fill {
    pub maker_order_id: u64,
    pub taker_order_id: u64,
    pub price: i64,
    pub qty: u64,
    /// Side of the taker (aggressor).
    pub taker_side: Side,
}

/// What happened to the incoming order after submission.
#[derive(Debug, Clone, Copy, PartialEq, Eq, Structural)]
pub enum OrderStatus {
    /// Fully filled: no quantity remains.
    Filled,
    /// Partially filled then resting on the book with `remaining_qty`.
    Resting { remaining_qty: u64 },
    /// Placed on the book with no fills (limit order that did not cross).
    Placed,
    /// Unfilled or partially filled market order: the remainder was cancelled.
    Cancelled { filled_qty: u64 },
}

/// Result of submitting an order to the book: its fills in execution order,
/// and what became of it.
#[derive(Debug, Clone, PartialEq, Eq)]
pub struct OrderResult {
    pub fills: Vec<Fill>,
    pub status: OrderStatus,
}

/// Quantity traded by a run of fills.
pub open spec fn filled_qty(fills: Seq<Fill>) -> nat
    decreases fills.len(),
{
    if fills.len() == 0 {
        0
    } else {
        filled_qty(fills.drop_last()) + fills.last().qty as nat
    }
}

} // verus!
