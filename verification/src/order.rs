//! Orders as they are submitted to a book and as they rest on it.

use vstd::prelude::*;

verus! {

/// Which side of the book an order is on.
#[derive(Debug, Clone, Copy, PartialEq, Eq, Structural, Hash)]
pub enum Side {
    Bid,
    Ask,
}

impl Side {
    /// The side that an order of this side trades against.
    pub open spec fn spec_opposite(self) -> Side {
        match self {
            Side::Bid => Side::Ask,
            Side::Ask => Side::Bid,
        }
    }

    /// The side that an order of this side trades against.
    #[must_use]
    pub fn opposite(self) -> (side: Side)
        ensures
            side == self.spec_opposite(),
    {
        match self {
            Side::Bid => Side::Ask,
            Side::Ask => Side::Bid,
        }
    }
}

/// A limit order submitted to the book.
#[derive(Debug, Clone, Copy, PartialEq, Eq, Structural)]
pub struct LimitOrder {
    pub id: u64,
    pub side: Side,
    pub price: i64,
    pub qty: u64,
    pub timestamp: u64,
}

/// A market order that executes immediately and never rests.
#[derive(Debug, Clone, Copy, PartialEq, Eq, Structural)]
pub struct MarketOrder {
    pub id: u64,
    pub side: Side,
    pub qty: u64,
}

/// An order resting on the book (always originated as a limit order).
#[derive(Debug, Clone, Copy, PartialEq, Eq, Structural)]
pub struct RestingOrder {
    pub id: u64,
    pub qty: u64,
    pub timestamp: u64,
}

} // verus!
