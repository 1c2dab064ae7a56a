//! What holds of a book and of an exchange, on concrete orders.

use market_sim::{
    Exchange, ExchangeMessage, Fill, L1Bucket, LimitOrder, MarketOrder, OrderAction, OrderBook,
    OrderStatus, RoutedMessage, Side,
};

fn limit(id: u64, side: Side, price: i64, qty: u64) -> LimitOrder {
    LimitOrder { id, side, price, qty, timestamp: id }
}

fn asks() -> OrderBook {
    let mut book = OrderBook::default();
    book.add_limit_order(limit(1, Side::Ask, 102, 4));
    book.add_limit_order(limit(2, Side::Ask, 101, 3));
    book.add_limit_order(limit(3, Side::Ask, 101, 5));
    book.add_limit_order(limit(4, Side::Ask, 105, 9));
    book
}

fn traded(fills: &[Fill]) -> u64 {
    fills.iter().map(|fill| fill.qty).sum()
}

// ── The book ─────────────────────────────────────────────────────────────

#[test]
fn no_quantity_is_lost() {
    let mut book = asks();
    let before = [101, 102, 105].map(|price| book.volume_at(price, Side::Ask));
    let result = book.add_limit_order(limit(9, Side::Bid, 103, 20));
    let after = [101, 102, 105].map(|price| book.volume_at(price, Side::Ask));
    assert_eq!(traded(&result.fills), 12);
    assert_eq!(result.status, OrderStatus::Resting { remaining_qty: 8 });
    assert_eq!(before, [8, 4, 9]);
    assert_eq!(after, [0, 0, 9]);
    assert_eq!(book.volume_at(103, Side::Bid), 8);
}

#[test]
fn best_prices_and_earlier_orders_fill_first() {
    let mut book = asks();
    let result = book.add_market_order(MarketOrder { id: 9, side: Side::Bid, qty: 13 });
    let makers: Vec<(u64, i64, u64)> =
        result.fills.iter().map(|fill| (fill.maker_order_id, fill.price, fill.qty)).collect();
    assert_eq!(makers, vec![(2, 101, 3), (3, 101, 5), (1, 102, 4), (4, 105, 1)]);
    assert!(result.fills.iter().all(|fill| fill.taker_order_id == 9));
    assert!(result.fills.iter().all(|fill| fill.taker_side == Side::Bid));
}

#[test]
fn a_limit_is_respected() {
    let mut book = asks();
    let result = book.add_limit_order(limit(9, Side::Bid, 101, 20));
    assert!(result.fills.iter().all(|fill| fill.price <= 101));
    assert_eq!(book.best_bid(), Some(101));
    assert_eq!(book.best_ask(), Some(102));
    assert_eq!(book.spread(), Some(1));
}

#[test]
fn a_taker_gets_the_executable_depth() {
    for limit_price in [None, Some(100), Some(101), Some(104), Some(105)] {
        let mut book = asks();
        let (depth, _) = book.executable_depth(Side::Bid, limit_price);
        for qty in [1, 8, 12, 21, 50] {
            let mut copy = asks();
            let fills = match limit_price {
                Some(price) => copy.add_limit_order(limit(9, Side::Bid, price, qty)).fills,
                None => copy.add_market_order(MarketOrder { id: 9, side: Side::Bid, qty }).fills,
            };
            assert_eq!(u128::from(traded(&fills)), depth.min(u128::from(qty)));
        }
        assert!(!book.cancel_order(77));
    }
}

#[test]
fn depth_that_does_not_fit_is_not_given() {
    let mut book = OrderBook::new();
    assert_eq!(book.try_executable_depth(Side::Bid, None), Some((0, 0)));
    book.add_limit_order(limit(1, Side::Ask, i64::MAX, u64::MAX));
    let one = i64::MAX as u128 * u128::from(u64::MAX);
    assert_eq!(book.try_executable_depth(Side::Bid, None), Some((u128::from(u64::MAX), one)));
    book.add_limit_order(limit(2, Side::Ask, i64::MAX - 1, u64::MAX));
    assert!(book.try_executable_depth(Side::Bid, None).is_some());
    book.add_limit_order(limit(3, Side::Ask, i64::MAX - 2, u64::MAX));
    assert_eq!(book.try_executable_depth(Side::Bid, None), None);
}

#[test]
fn a_cancel_undoes_a_placement() {
    let mut book = asks();
    book.add_limit_order(limit(5, Side::Bid, 99, 6));
    let seen = |book: &OrderBook| {
        (
            book.order_count(),
            book.best_bid_level(),
            book.best_ask_level(),
            book.executable_depth(Side::Bid, None),
            book.executable_depth(Side::Ask, None),
        )
    };
    let before = seen(&book);
    assert_eq!(book.add_limit_order(limit(6, Side::Bid, 100, 7)).status, OrderStatus::Placed);
    assert_ne!(seen(&book), before);
    assert!(book.cancel_order(6));
    assert_eq!(seen(&book), before);
    assert!(!book.cancel_order(6));
    assert_eq!(seen(&book), before);
}

#[test]
fn a_market_order_is_an_extreme_limit_order() {
    for qty in [1, 3, 8, 21, 50] {
        let mut a = asks();
        let mut b = asks();
        let m = a.add_market_order(MarketOrder { id: 9, side: Side::Bid, qty });
        let l = b.add_limit_order(limit(9, Side::Bid, i64::MAX, qty));
        assert_eq!(m.fills, l.fills);
        assert_eq!(m.status == OrderStatus::Filled, l.status == OrderStatus::Filled);
        if l.status != OrderStatus::Filled {
            assert!(b.cancel_order(9));
        }
        for price in 100..=106 {
            assert_eq!(a.volume_at(price, Side::Ask), b.volume_at(price, Side::Ask));
        }
        assert_eq!(a.best_bid_level(), b.best_bid_level());
        assert_eq!(a.best_ask_level(), b.best_ask_level());
        assert_eq!(a.order_count(), b.order_count());
    }
}

#[test]
fn the_count_moves_with_each_request() {
    let mut book = asks();
    assert_eq!(book.order_count(), 4);
    // Takes one order and a part of another.
    book.add_limit_order(limit(9, Side::Bid, 101, 4));
    assert_eq!(book.order_count(), 3);
    // Takes one order and rests.
    book.add_limit_order(limit(10, Side::Bid, 101, 10));
    assert_eq!(book.order_count(), 3);
    book.add_market_order(MarketOrder { id: 11, side: Side::Bid, qty: 5 });
    assert_eq!(book.order_count(), 2);
    assert!(!book.cancel_order(77));
    assert_eq!(book.order_count(), 2);
    assert!(book.cancel_order(10));
    assert!(book.cancel_order(4));
    assert_eq!(book.order_count(), 0);
    assert_eq!((book.best_bid(), book.best_ask()), (None, None));
}

#[test]
fn a_fill_is_written_behind_earlier_ones() {
    let mut book = asks();
    let mut fills = Vec::new();
    let status = book.add_limit_order_into(limit(8, Side::Bid, 101, 3), &mut fills);
    assert_eq!(status, OrderStatus::Filled);
    let status =
        book.add_market_order_into(MarketOrder { id: 9, side: Side::Bid, qty: 5 }, &mut fills);
    assert_eq!(status, OrderStatus::Filled);
    let makers: Vec<u64> = fills.iter().map(|fill| fill.maker_order_id).collect();
    assert_eq!(makers, vec![2, 3]);
    assert_eq!(Side::Bid.opposite(), Side::Ask);
    assert_eq!(Side::Ask.opposite(), Side::Bid);
}

// ── The exchange ─────────────────────────────────────────────────────────

fn new_limit(side: Side, price: i64, qty: u64, user_id: u64) -> OrderAction {
    OrderAction::NewLimitOrder { side, price, qty, user_id }
}

fn ask_of(ex: &mut Exchange, agent_id: usize, action: OrderAction, time: u64) -> Vec<RoutedMessage> {
    let mut out = Vec::new();
    assert!(ex.try_process_into(agent_id, action, time, &mut out));
    out
}

fn open_exchange() -> Exchange {
    let mut ex = Exchange::new(3, 100);
    ex.open(0);
    ex
}

#[test]
fn a_new_order_is_acknowledged_once_and_first() {
    let mut ex = open_exchange();
    ask_of(&mut ex, 0, new_limit(Side::Ask, 10, 5, 1), 1);
    ask_of(&mut ex, 1, new_limit(Side::Ask, 11, 5, 2), 2);
    let messages = ask_of(&mut ex, 2, new_limit(Side::Bid, 11, 12, 3), 3);
    let ids: Vec<u64> = messages
        .iter()
        .filter_map(|routed| match routed.message {
            ExchangeMessage::OrderAccepted { order_id, .. } => Some(order_id),
            _ => None,
        })
        .collect();
    assert_eq!(ids, vec![102]);
    assert!(matches!(
        messages[0].message,
        ExchangeMessage::OrderAccepted { order_id: 102, user_id: 3, symbol: 3, side: Side::Bid, qty: 12 }
    ));
    // Both makers are told in the order of the fills, then the taker.
    assert_eq!(messages.iter().map(|routed| routed.agent_id).collect::<Vec<_>>(), vec![2, 0, 1, 2]);
    assert!(matches!(
        messages[3].message,
        ExchangeMessage::OrderFilled { order_id: 102, price: 11, qty: 10, remaining: 2, notional: 105, .. }
    ));
}

#[test]
fn a_closed_market_refuses() {
    let mut ex = Exchange::new(3, 100);
    let order = ask_of(&mut ex, 7, new_limit(Side::Bid, 10, 5, 4), 1);
    assert_eq!(
        order,
        vec![RoutedMessage {
            agent_id: 7,
            message: ExchangeMessage::OrderRejected { order_id: 0, user_id: 4, symbol: 3 },
        }]
    );
    let cancel = ask_of(&mut ex, 7, OrderAction::CancelOrder { order_id: 55 }, 1);
    assert_eq!(
        cancel,
        vec![RoutedMessage {
            agent_id: 7,
            message: ExchangeMessage::OrderRejected { order_id: 55, user_id: 0, symbol: 3 },
        }]
    );
    assert_eq!(ex.order_count(), 0);
}

#[test]
fn an_unknown_cancel_is_refused() {
    let mut ex = open_exchange();
    let cancel = ask_of(&mut ex, 7, OrderAction::CancelOrder { order_id: 55 }, 1);
    assert!(matches!(
        cancel[..],
        [RoutedMessage { agent_id: 7, message: ExchangeMessage::OrderRejected { order_id: 55, .. } }]
    ));
}

#[test]
fn closing_cancels_every_order_once() {
    let mut ex = open_exchange();
    for price in [10, 11, 12] {
        ask_of(&mut ex, price as usize, new_limit(Side::Bid, price, 5, 0), 1);
    }
    let mut out = Vec::new();
    ex.close_into(9, &mut out);
    let told: Vec<(usize, u64)> = out
        .iter()
        .map(|routed| match routed.message {
            ExchangeMessage::OrderCancelled { order_id, .. } => (routed.agent_id, order_id),
            other => panic!("{other:?}"),
        })
        .collect();
    assert_eq!(told, vec![(10, 100), (11, 101), (12, 102)]);
    assert_eq!(ex.order_count(), 0);
    assert_eq!(ex.snapshot().best_bid, None);
    let order = ask_of(&mut ex, 7, new_limit(Side::Bid, 10, 5, 4), 10);
    assert!(matches!(order[0].message, ExchangeMessage::OrderRejected { .. }));
}

#[test]
fn a_market_order_that_finds_no_maker_is_cancelled() {
    let mut ex = open_exchange();
    ask_of(&mut ex, 0, new_limit(Side::Ask, 10, 2, 1), 1);
    let action = OrderAction::NewMarketOrder { side: Side::Bid, qty: 5, user_id: 6 };
    let messages = ask_of(&mut ex, 1, action, 2);
    assert_eq!(messages.len(), 4);
    assert!(matches!(
        messages[2].message,
        ExchangeMessage::OrderFilled { qty: 2, remaining: 0, notional: 20, user_id: 6, .. }
    ));
    assert!(matches!(
        messages[3].message,
        ExchangeMessage::OrderCancelled { order_id: 101, user_id: 6, symbol: 3 }
    ));
}

#[test]
fn a_fill_tells_whether_the_order_rests() {
    let mut ex = open_exchange();
    ask_of(&mut ex, 0, new_limit(Side::Ask, 10, 5, 1), 1);
    let told = |messages: &[RoutedMessage]| -> Vec<(u64, u64)> {
        messages
            .iter()
            .filter_map(|routed| match routed.message {
                ExchangeMessage::OrderFilled { order_id, remaining, .. } => {
                    Some((order_id, remaining))
                }
                _ => None,
            })
            .collect()
    };
    // The maker is left with 2, the taker is done.
    let messages = ask_of(&mut ex, 1, new_limit(Side::Bid, 10, 3, 2), 2);
    assert_eq!(told(&messages), vec![(100, 2), (101, 0)]);
    // The maker is done, 4 of the taker rest and can be cancelled.
    let messages = ask_of(&mut ex, 1, new_limit(Side::Bid, 10, 6, 3), 3);
    assert_eq!(told(&messages), vec![(100, 0), (102, 4)]);
    let messages = ask_of(&mut ex, 1, OrderAction::CancelOrder { order_id: 102 }, 4);
    assert!(matches!(messages[0].message, ExchangeMessage::OrderCancelled { order_id: 102, .. }));
    // A market order never rests.
    ask_of(&mut ex, 0, new_limit(Side::Ask, 10, 5, 4), 5);
    let action = OrderAction::NewMarketOrder { side: Side::Bid, qty: 8, user_id: 5 };
    let messages = ask_of(&mut ex, 1, action, 6);
    assert_eq!(told(&messages), vec![(103, 0), (104, 0)]);
    assert!(matches!(messages[3].message, ExchangeMessage::OrderCancelled { order_id: 104, .. }));
}

#[test]
fn requests_out_of_range_are_not_taken() {
    let mut ex = open_exchange();
    let mut out = Vec::new();
    assert!(!ex.try_process_into(0, new_limit(Side::Bid, 10, 0, 0), 1, &mut out));
    let mut ex = open_exchange();
    assert!(!ex.try_process_into(0, new_limit(Side::Bid, -1, 5, 0), 1, &mut out));
    let mut ex = open_exchange();
    let nothing = OrderAction::NewMarketOrder { side: Side::Bid, qty: 0, user_id: 0 };
    assert!(!ex.try_process_into(0, nothing, 1, &mut out));
    let mut ex = open_exchange();
    assert!(ex.try_process_into(0, new_limit(Side::Bid, 10, u64::MAX, 0), 1, &mut out));
    assert!(!ex.try_process_into(0, new_limit(Side::Bid, 10, 1, 0), 1, &mut out));
}

#[test]
fn quotes_are_logged_when_they_move() {
    let mut ex = open_exchange();
    ask_of(&mut ex, 0, new_limit(Side::Bid, 10, 5, 0), 1);
    ask_of(&mut ex, 0, new_limit(Side::Bid, 9, 5, 0), 2);
    ask_of(&mut ex, 0, new_limit(Side::Bid, 10, 5, 0), 3);
    ask_of(&mut ex, 0, new_limit(Side::Ask, 12, 6, 0), 4);
    let log = ex.take_l1_snapshots();
    let seen: Vec<(u64, i64, i64, u64, u64)> = log
        .iter()
        .map(|s| (s.timestamp, s.bid_price, s.ask_price, s.bid_volume, s.ask_volume))
        .collect();
    assert_eq!(seen, vec![(0, 0, 0, 0, 0), (1, 10, 0, 5, 0), (4, 10, 12, 10, 6)]);
    assert!(ex.take_l1_snapshots().is_empty());
}

#[test]
fn buckets_are_those_of_the_full_log() {
    let script = [
        (1, new_limit(Side::Bid, 10, 5, 0)),
        (12, new_limit(Side::Ask, 14, 5, 0)),
        (15, new_limit(Side::Bid, 11, 5, 0)),
        (15, new_limit(Side::Ask, 11, 7, 0)),
        (48, new_limit(Side::Bid, 13, 5, 0)),
    ];
    let mut full = Exchange::new(3, 100);
    let mut lean = Exchange::new(3, 100);
    lean.set_run_options(false, Some(10));
    for ex in [&mut full, &mut lean] {
        ex.open(0);
    }
    for (time, action) in script {
        assert_eq!(ask_of(&mut full, 0, action, time), ask_of(&mut lean, 0, action, time));
    }
    lean.flush_l1_bucket();
    assert!(lean.take_trades().is_empty());
    assert_eq!(full.take_trades().len(), 2);
    let mut expected: Vec<L1Bucket> = Vec::new();
    for snap in full.take_l1_snapshots() {
        let start = snap.timestamp - snap.timestamp % 10;
        if expected.last().map(|bucket| bucket.bucket_start) != Some(start) {
            expected.push(L1Bucket::new(start, 3));
        }
        let bucket = expected.last_mut().unwrap();
        bucket.absorb(snap.bid_price, snap.ask_price, snap.bid_volume, snap.ask_volume);
    }
    assert_eq!(lean.take_l1_buckets(), expected);
    assert_eq!(expected.len(), 3);
}

#[test]
fn a_bucket_without_room_takes_nothing() {
    let mut bucket = L1Bucket::new(0, 0);
    assert!(bucket.try_absorb(1, 2, u64::MAX, 0));
    let before = bucket;
    assert!(!bucket.try_absorb(1, 2, 1, 0));
    assert_eq!(bucket, before);
}
