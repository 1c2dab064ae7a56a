//! What an exchange answers, and what its flow recorder counts.

use market_sim::{
    AgentId, Exchange, ExchangeMessage, FlowBucket, FlowOptions, MoveTerm, Nanos, OrderAction,
    RatioEdge, Side, Symbol,
};

/// Half tick-lots as tick-lots.
fn whole(half: u128) -> f64 {
    half as f64 / 2.0
}

/// The sum of weighted price moves.
fn moved(terms: &[MoveTerm]) -> f64 {
    terms
        .iter()
        .map(|term| {
            let sign = if term.side == Side::Bid { 1.0 } else { -1.0 };
            sign * term.notional as f64 * (term.to2 as f64 / term.from2 as f64 - 1.0)
        })
        .sum()
}

fn edge(num: u64, den: u64) -> RatioEdge {
    RatioEdge { num, den }
}

const SYM: Symbol = 7;

fn open_exchange() -> Exchange {
    let mut ex = Exchange::new(SYM, 1_000_000_000);
    ex.open(0);
    ex
}

fn limit(side: Side, price: i64, qty: u64, user_id: u64) -> OrderAction {
    OrderAction::NewLimitOrder {
        side,
        price,
        qty,
        user_id,
    }
}

// Every new order gets exactly one creation ack — with symbol, side, qty
// and the echoed user_id — before any of its fills, INCLUDING an order
// that fully fills at submission (which previously got no ack at all).
#[test]
fn full_fill_still_gets_creation_ack_before_its_fill() {
    let mut ex = open_exchange();
    let mut msgs = Vec::new();
    ex.process_into(0, limit(Side::Ask, 100, 10, 5), 0, &mut msgs);
    msgs.clear();
    ex.process_into(1, limit(Side::Bid, 100, 10, 9), 1, &mut msgs);

    let to_taker: Vec<_> = msgs.iter().filter(|m| m.agent_id == 1).collect();
    assert_eq!(to_taker.len(), 2, "creation ack + fill");
    match to_taker[0].message {
        ExchangeMessage::OrderAccepted {
            user_id,
            symbol,
            side,
            qty,
            ..
        } => {
            assert_eq!((user_id, symbol, side, qty), (9, SYM, Side::Bid, 10));
        }
        other => panic!("first taker message must be the creation ack, got {other:?}"),
    }
    match to_taker[1].message {
        ExchangeMessage::OrderFilled {
            user_id,
            symbol,
            side,
            qty,
            remaining,
            ..
        } => {
            assert_eq!(
                (user_id, symbol, side, qty, remaining),
                (9, SYM, Side::Bid, 10, 0)
            );
        }
        other => panic!("second taker message must be the fill, got {other:?}"),
    }
}

// An order that partially fills at submission and rests: the creation
// ack comes first, and the fill reports the outstanding remainder, so an
// owner can maintain its resting set from fill content alone.
#[test]
fn partial_fill_at_submission_emits_ack_then_fill_with_remainder() {
    let mut ex = open_exchange();
    let mut msgs = Vec::new();
    ex.process_into(0, limit(Side::Ask, 100, 4, 5), 0, &mut msgs);
    msgs.clear();
    ex.process_into(1, limit(Side::Bid, 100, 10, 9), 1, &mut msgs);

    let to_taker: Vec<_> = msgs.iter().filter(|m| m.agent_id == 1).collect();
    assert_eq!(to_taker.len(), 2, "creation ack + submission fill");
    match to_taker[0].message {
        ExchangeMessage::OrderAccepted { qty, side, .. } => {
            assert_eq!((qty, side), (10, Side::Bid));
        }
        other => panic!("first message must be the creation ack, got {other:?}"),
    }
    match to_taker[1].message {
        ExchangeMessage::OrderFilled {
            qty,
            remaining,
            side,
            ..
        } => {
            assert_eq!((qty, remaining, side), (4, 6, Side::Bid));
        }
        other => panic!("second message must be the submission fill, got {other:?}"),
    }
}

// A fill of a resting order carries the RESTING order's side and its
// owner's user_id, not the aggressor's.
#[test]
fn maker_fill_carries_maker_side_and_user_id() {
    let mut ex = open_exchange();
    let mut msgs = Vec::new();
    ex.process_into(0, limit(Side::Ask, 100, 10, 5), 0, &mut msgs);
    msgs.clear();
    ex.process_into(1, limit(Side::Bid, 100, 4, 9), 1, &mut msgs);

    let maker_fill = msgs
        .iter()
        .find(|m| m.agent_id == 0)
        .expect("maker must be notified of the fill");
    match maker_fill.message {
        ExchangeMessage::OrderFilled {
            user_id,
            symbol,
            side,
            qty,
            remaining,
            ..
        } => {
            assert_eq!(
                (user_id, symbol, side, qty, remaining),
                (5, SYM, Side::Ask, 4, 6)
            );
        }
        other => panic!("maker must receive a fill, got {other:?}"),
    }
}

// A new order rejected on a closed market has no order id, but its
// echoed user_id and symbol still identify it.
#[test]
fn rejected_new_order_echoes_user_id_and_symbol() {
    let mut ex = Exchange::new(SYM, 1_000_000_000); // never opened
    let mut msgs = Vec::new();
    ex.process_into(3, limit(Side::Bid, 100, 10, 42), 0, &mut msgs);
    assert_eq!(msgs.len(), 1);
    match msgs[0].message {
        ExchangeMessage::OrderRejected {
            order_id,
            user_id,
            symbol,
        } => {
            assert_eq!((order_id, user_id, symbol), (0, 42, SYM));
        }
        other => panic!("expected a rejection, got {other:?}"),
    }
}

// Cancels (agent-requested and market-close) echo the order's user_id.
#[test]
fn cancels_echo_the_orders_user_id() {
    let mut ex = open_exchange();
    let mut msgs = Vec::new();
    ex.process_into(0, limit(Side::Bid, 90, 10, 11), 0, &mut msgs);
    let oid = match msgs[0].message {
        ExchangeMessage::OrderAccepted { order_id, .. } => order_id,
        other => panic!("expected the creation ack, got {other:?}"),
    };

    msgs.clear();
    ex.process_into(0, OrderAction::CancelOrder { order_id: oid }, 1, &mut msgs);
    match msgs[0].message {
        ExchangeMessage::OrderCancelled {
            order_id,
            user_id,
            symbol,
        } => {
            assert_eq!((order_id, user_id, symbol), (oid, 11, SYM));
        }
        other => panic!("expected the cancel echo, got {other:?}"),
    }

    msgs.clear();
    ex.process_into(0, limit(Side::Bid, 90, 10, 12), 2, &mut msgs);
    msgs.clear();
    ex.close_into(3, &mut msgs);
    match msgs[0].message {
        ExchangeMessage::OrderCancelled {
            user_id, symbol, ..
        } => {
            assert_eq!((user_id, symbol), (12, SYM));
        }
        other => panic!("expected the close-cancel echo, got {other:?}"),
    }
}

fn flow_exchange(ratio_edges: Vec<RatioEdge>) -> Exchange {
    let mut ex = Exchange::new(SYM, 1);
    ex.set_flow_options(Some(FlowOptions {
        agent_id: 0,
        interval_ns: 100,
        horizons_ns: vec![10],
        ratio_edges,
    }));
    ex.open(0);
    ex
}

fn place(ex: &mut Exchange, owner: AgentId, time: Nanos, action: OrderAction) -> u64 {
    let mut out = Vec::new();
    ex.process_into(owner, action, time, &mut out);
    out.iter()
        .find_map(|routed| match routed.message {
            ExchangeMessage::OrderAccepted { order_id, .. } if routed.agent_id == owner => {
                Some(order_id)
            }
            _ => None,
        })
        .expect("creation ack")
}

#[test]
fn the_depth_ratio_excludes_the_watched_agents_own_resting_orders() {
    let mut ex = flow_exchange(vec![edge(1, 2), edge(1, 1)]);
    place(&mut ex, 0, 0, limit(Side::Ask, 100, 10, 0));
    place(&mut ex, 1, 1, limit(Side::Ask, 100, 10, 0));
    place(&mut ex, 0, 2, limit(Side::Bid, 100, 10, 0));
    let (rows, _) = ex.flush_flow(99).unwrap();
    assert_eq!(rows.len(), 1);
    assert_eq!(rows[0].ratio_count, vec![0, 0, 1]);
    let notional: Vec<f64> = rows[0].ratio_half_notional.iter().map(|&half| whole(half)).collect();
    assert_eq!(notional, vec![0.0, 0.0, 1_000.0]);
    assert_eq!(rows[0].zero_depth_count, 1);
    assert_eq!(rows[0].zero_depth_qty, 10);
}

#[test]
fn the_own_depth_exclusion_uses_the_remaining_quantity() {
    let mut ex = flow_exchange(vec![edge(1, 2), edge(2, 1)]);
    place(&mut ex, 0, 0, limit(Side::Ask, 100, 10, 0));
    place(&mut ex, 1, 1, limit(Side::Bid, 100, 4, 0));
    place(&mut ex, 1, 2, limit(Side::Ask, 100, 10, 0));
    place(&mut ex, 0, 3, limit(Side::Bid, 100, 16, 0));
    let (rows, _) = ex.flush_flow(99).unwrap();
    assert_eq!(rows[0].ratio_count, vec![0, 1, 0]);
}

#[test]
fn a_carried_order_canceled_in_a_new_interval_stays_in_that_cohort() {
    let mut ex = flow_exchange(vec![edge(1, 2), edge(1, 1)]);
    let order_id = place(&mut ex, 0, 0, limit(Side::Bid, 100, 10, 0));
    ex.process_into(
        0,
        OrderAction::CancelOrder { order_id },
        110,
        &mut Vec::new(),
    );
    let (rows, _) = ex.flush_flow(199).unwrap();
    assert_eq!(rows.len(), 2);
    assert_eq!(rows[1].eligible_orders, 1);
    assert_eq!(rows[1].orders, 0);
    assert_eq!(rows[1].filled_orders, 0);
}

#[test]
fn an_event_exactly_at_the_end_lands_in_the_last_interval() {
    let mut ex = flow_exchange(vec![edge(1, 2), edge(1, 1)]);
    place(&mut ex, 0, 200, limit(Side::Bid, 100, 10, 0));
    let (rows, totals) = ex.flush_flow(200).unwrap();
    assert_eq!(rows.len(), 2);
    assert_eq!(rows[1].orders, 1);
    assert_eq!(rows[1].eligible_orders, 1);
    assert_eq!(totals.accepted_orders, 1);
}

#[test]
fn a_fill_exactly_at_the_end_does_not_repeat_the_filled_order() {
    let mut ex = flow_exchange(vec![edge(1, 2), edge(1, 1)]);
    place(&mut ex, 0, 50, limit(Side::Bid, 100, 10, 0));
    place(&mut ex, 1, 150, limit(Side::Ask, 100, 3, 0));
    place(&mut ex, 1, 200, limit(Side::Ask, 100, 3, 0));
    let (rows, totals) = ex.flush_flow(200).unwrap();
    assert_eq!(rows.len(), 2);
    assert_eq!(rows[1].filled_orders, 1);
    assert_eq!(rows[1].fill_events, 2);
    assert_eq!(rows[1].eligible_orders, 1);
    assert_eq!(rows[1].market_trades, 2);
    assert_eq!(totals.filled_orders, 1);
    assert_eq!(totals.fill_events, 2);
}

#[test]
fn a_market_order_without_a_mid_is_unvalued_not_zero_depth() {
    let mut ex = flow_exchange(vec![edge(1, 2), edge(1, 1)]);
    place(&mut ex, 1, 0, limit(Side::Ask, 100, 5, 0));
    let mut out = Vec::new();
    ex.process_into(
        0,
        OrderAction::NewMarketOrder {
            side: Side::Bid,
            qty: 5,
            user_id: 0,
        },
        1,
        &mut out,
    );
    place(&mut ex, 0, 2, limit(Side::Ask, 90, 4, 0));
    let (rows, _) = ex.flush_flow(99).unwrap();
    assert_eq!((rows[0].unvalued_count, rows[0].unvalued_qty), (1, 5));
    assert_eq!(rows[0].zero_depth_count, 1);
    assert_eq!(rows[0].zero_depth_qty, 4);
    assert!((whole(rows[0].zero_depth_half_notional) - 360.0).abs() < 1e-12);
    assert_eq!(rows[0].ratio_count, vec![0, 0, 0]);
}

#[test]
fn fixed_price_partial_fills_keep_the_pending_responses_bounded() {
    let mut ex = Exchange::new(SYM, 1);
    ex.set_flow_options(Some(FlowOptions {
        agent_id: 0,
        interval_ns: 1_000_000,
        horizons_ns: vec![10, 1_000],
        ratio_edges: vec![edge(1, 2), edge(1, 1)],
    }));
    ex.open(0);
    place(&mut ex, 1, 1, limit(Side::Bid, 90, 1, 0));
    place(&mut ex, 1, 2, limit(Side::Ask, 100, 50, 0));
    for fill in 1..=10 {
        place(&mut ex, 0, fill * 100, limit(Side::Bid, 100, 1, 0));
        let flow = ex.flow().unwrap();
        let pending: Vec<usize> = (0..2).map(|horizon| flow.pending_count(horizon)).collect();
        assert!(
            pending[0] <= 1,
            "fill {fill} keeps {} expired entries",
            pending[0]
        );
        assert_eq!(pending[1] as u64, fill);
    }
    let (rows, _) = ex.flush_flow(1_500).unwrap();
    let row: &FlowBucket = &rows[0];
    assert_eq!(row.response_count[0], 10);
    assert!((row.response_den[0] as f64 - 1_000.0).abs() < 1e-12);
    assert!(moved(&row.response_num[0]).abs() < 1e-12);
    assert_eq!(row.response_count[1], 5);
    assert!((row.response_den[1] as f64 - 500.0).abs() < 1e-12);
    assert!(moved(&row.response_num[1]).abs() < 1e-12);
    assert_eq!(row.response_excluded_count[1], 5);
    assert!((row.response_excluded_notional[1] as f64 - 500.0).abs() < 1e-12);
    assert_eq!(row.response_excluded_count[0], 0);
}
