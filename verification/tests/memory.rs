//! The book must not grow with the number of *cancelled* orders.
//!
//! Agents cancel their resting orders on every wakeup, so run length translates
//! directly into cancel count. Any record the book keeps per cancelled order
//! therefore turns run length into memory.

use market_sim::{LimitOrder, OrderBook, Side};

/// Place then immediately cancel one order per id — the dominant flow in a run.
fn churn(book: &mut OrderBook, ids: std::ops::Range<u64>) {
    for id in ids {
        book.add_limit_order(LimitOrder {
            id,
            side: Side::Bid,
            price: 100,
            qty: 10,
            timestamp: id,
        });
        assert!(book.cancel_order(id), "order {id} should still be cancellable");
    }
}

#[test]
fn place_cancel_churn_does_not_grow_the_book() {
    let mut book = OrderBook::new();

    churn(&mut book, 0..10_000);
    churn(&mut book, 10_000..110_000);

    assert_eq!(book.order_count(), 0, "no order should be left resting");
    assert_eq!(book.best_bid(), None, "the emptied level is gone");
    assert_eq!(book.volume_at(100, Side::Bid), 0);
}

/// The tombstones behind a live order are drained once matching reaches them,
/// and never produce fills of their own.
#[test]
fn tombstones_are_skipped_by_matching_and_then_reclaimed() {
    let mut book = OrderBook::new();
    let live = LimitOrder { id: 1, side: Side::Ask, price: 100, qty: 10, timestamp: 0 };
    book.add_limit_order(live);

    for id in 2..1_000 {
        book.add_limit_order(LimitOrder { id, side: Side::Ask, price: 100, qty: 5, timestamp: id });
        assert!(book.cancel_order(id));
    }
    assert_eq!(book.order_count(), 1, "only the uncancelled order is live");
    assert_eq!(book.volume_at(100, Side::Ask), 10, "tombstones carry no volume");

    let taker = LimitOrder { id: 9_999, side: Side::Bid, price: 100, qty: 10, timestamp: 1_000 };
    let result = book.add_limit_order(taker);

    assert_eq!(result.fills.len(), 1, "tombstones must not fill");
    assert_eq!(result.fills[0].maker_order_id, 1);
    assert_eq!(book.order_count(), 0);
    assert_eq!(book.best_ask(), None, "the emptied level is gone");
}
