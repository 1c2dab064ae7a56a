use market_sim::{Fill, LimitOrder, MarketOrder, OrderBook, OrderStatus, Side};

fn limit(id: u64, side: Side, price: i64, qty: u64, ts: u64) -> LimitOrder {
    LimitOrder { id, side, price, qty, timestamp: ts }
}

fn market(id: u64, side: Side, qty: u64) -> MarketOrder {
    MarketOrder { id, side, qty }
}

// ── 1. Duplicate order ID ──────────────────────────────────────────
// Submitting a limit order with an ID already on the book overwrites the
// lookup entry. The old order remains in the queue but becomes un-cancellable
// via the ID (the new order's location wins in the map). This is documented
// as caller responsibility — the simulator must assign unique IDs.

#[test]
fn duplicate_id_overwrites_lookup() {
    let mut book = OrderBook::new();
    book.add_limit_order(limit(1, Side::Bid, 100, 10, 1));
    book.add_limit_order(limit(1, Side::Ask, 200, 5, 2));

    // Cancel hits the *new* mapping (ask side)
    assert!(book.cancel_order(1));
    // The old bid-side order is still in the queue but orphaned from the map.
    // It will be matched normally if a crossing order arrives.
    assert_eq!(book.volume_at(100, Side::Bid), 10);
}

#[test]
fn an_older_order_of_an_id_stays_matchable() {
    let mut book = OrderBook::new();
    book.add_limit_order(limit(1, Side::Bid, 100, 10, 1));
    book.add_limit_order(limit(1, Side::Ask, 200, 5, 2));
    assert_eq!(book.order_count(), 2);
    assert!(book.cancel_order(1));
    assert!(!book.cancel_order(1));
    assert_eq!(book.volume_at(200, Side::Ask), 0);
    assert_eq!(book.best_bid_level(), Some((100, 10)));

    let result = book.add_limit_order(limit(3, Side::Ask, 100, 10, 3));
    assert_eq!(result.status, OrderStatus::Filled);
    assert_eq!(
        result.fills,
        vec![Fill {
            maker_order_id: 1,
            taker_order_id: 3,
            price: 100,
            qty: 10,
            taker_side: Side::Ask,
        }]
    );
    assert_eq!(book.order_count(), 0);
}

#[test]
fn the_newer_of_two_orders_in_one_queue_is_cancelled() {
    let mut book = OrderBook::new();
    book.add_limit_order(limit(1, Side::Bid, 100, 10, 1));
    book.add_limit_order(limit(2, Side::Bid, 100, 3, 2));
    book.add_limit_order(limit(1, Side::Bid, 100, 5, 3));
    assert!(book.cancel_order(1));
    assert_eq!(book.volume_at(100, Side::Bid), 13);
    // A filled older order leaves the id of a newer one alone.
    book.add_limit_order(limit(1, Side::Bid, 99, 7, 4));
    let fills = book.add_market_order(market(9, Side::Ask, 10)).fills;
    assert_eq!((fills.len(), fills[0].maker_order_id, fills[0].qty), (1, 1, 10));
    assert!(book.cancel_order(1));
    assert_eq!(book.order_count(), 1);
}

#[test]
fn a_cancelled_order_does_not_come_back_with_its_id() {
    let mut book = OrderBook::new();
    book.add_limit_order(limit(1, Side::Bid, 100, 10, 1));
    book.add_limit_order(limit(2, Side::Bid, 100, 3, 2));
    assert!(book.cancel_order(1));
    book.add_limit_order(limit(1, Side::Bid, 90, 4, 3));
    let fills = book.add_market_order(market(9, Side::Ask, 5)).fills;
    let makers: Vec<(u64, i64, u64)> =
        fills.iter().map(|fill| (fill.maker_order_id, fill.price, fill.qty)).collect();
    assert_eq!(makers, vec![(2, 100, 3), (1, 90, 2)]);
}

// ── 2. Cancel an order that was just fully filled ──────────────────

#[test]
fn cancel_fully_filled_order_returns_false() {
    let mut book = OrderBook::new();
    book.add_limit_order(limit(1, Side::Ask, 100, 10, 1));
    book.add_limit_order(limit(2, Side::Bid, 100, 10, 2)); // fills order 1

    assert!(!book.cancel_order(1)); // already gone
}

// ── 3. Single tick book ────────────────────────────────────────────

#[test]
fn all_orders_at_same_price() {
    let mut book = OrderBook::new();
    book.add_limit_order(limit(1, Side::Bid, 100, 5, 1));
    book.add_limit_order(limit(2, Side::Bid, 100, 5, 2));
    book.add_limit_order(limit(3, Side::Ask, 100, 5, 3));
    book.add_limit_order(limit(4, Side::Ask, 100, 5, 4));

    // Bids and asks at same price: orders 3 and 4 should have matched against 1 and 2
    // Order 3 (ask@100) crosses bid@100 → matches order 1
    // Order 4 (ask@100) crosses bid@100 → matches order 2
    assert_eq!(book.order_count(), 0);
}

// ── 4. Sequential fill-cancel-add cycles ───────────────────────────

#[test]
fn rapid_fill_cancel_add_cycles() {
    let mut book = OrderBook::new();

    for i in 0..1000_u64 {
        // Add ask
        book.add_limit_order(limit(i * 3, Side::Ask, 100, 1, i));
        // Add bid that crosses
        let res = book.add_limit_order(limit(i * 3 + 1, Side::Bid, 100, 1, i));
        assert_eq!(res.status, OrderStatus::Filled);

        // Add and cancel
        book.add_limit_order(limit(i * 3 + 2, Side::Bid, 99, 1, i));
        assert!(book.cancel_order(i * 3 + 2));
    }

    assert_eq!(book.order_count(), 0);
    assert_eq!(book.best_bid(), None);
    assert_eq!(book.best_ask(), None);
}

// ── 5. Book state after full drain ─────────────────────────────────

#[test]
fn book_empty_after_full_drain() {
    let mut book = OrderBook::new();

    // Populate both sides
    for i in 0..10_u64 {
        book.add_limit_order(limit(i, Side::Bid, 90 + i as i64, 10, i));
        book.add_limit_order(limit(100 + i, Side::Ask, 100 + i as i64, 10, i));
    }
    assert_eq!(book.order_count(), 20);

    // Cancel all bids
    for i in 0..10_u64 {
        book.cancel_order(i);
    }
    // Market sell to drain asks
    let res = book.add_market_order(market(999, Side::Bid, 100));
    assert_eq!(res.status, OrderStatus::Filled);

    assert_eq!(book.order_count(), 0);
    assert_eq!(book.best_bid(), None);
    assert_eq!(book.best_ask(), None);
    assert_eq!(book.spread(), None);
}
