//! Books by ticket and books by id.

use crate::book_model::{BookView, Levels};
use crate::fills::Fill;
use crate::order::RestingOrder;
use vstd::prelude::*;

verus! {

/// An order with its id in place of its ticket.
pub open spec fn named_order(order: RestingOrder, names: Map<u64, u64>) -> RestingOrder {
    RestingOrder { id: names[order.id], ..order }
}

/// A queue with ids in place of tickets.
pub open spec fn named_queue(
    queue: Seq<RestingOrder>,
    names: Map<u64, u64>,
) -> Seq<RestingOrder> {
    queue.map_values(|order: RestingOrder| named_order(order, names))
}

/// A side with ids in place of tickets.
pub open spec fn named_levels(levels: Levels, names: Map<u64, u64>) -> Levels {
    levels.map_values(|queue: Seq<RestingOrder>| named_queue(queue, names))
}

/// A book with ids in place of tickets.
pub open spec fn named_book(book: BookView, names: Map<u64, u64>) -> BookView {
    BookView { bids: named_levels(book.bids, names), asks: named_levels(book.asks, names) }
}

/// A fill with the maker's id in place of its ticket.
pub open spec fn named_fill(fill: Fill, names: Map<u64, u64>, taker_id: u64) -> Fill {
    Fill { maker_order_id: names[fill.maker_order_id], taker_order_id: taker_id, ..fill }
}

/// Fills with the ids of their makers in place of tickets.
pub open spec fn named_fills(
    fills: Seq<Fill>,
    names: Map<u64, u64>,
    taker_id: u64,
) -> Seq<Fill> {
    fills.map_values(|fill: Fill| named_fill(fill, names, taker_id))
}

/// What ids still find on a book: the orders that rest.
pub open spec fn still_found(lookup: Map<u64, u64>, by_ticket: BookView) -> Map<u64, u64> {
    Map::new(
        |id: u64| lookup.contains_key(id) && by_ticket.rests(lookup[id]),
        |id: u64| lookup[id],
    )
}

} // verus!
