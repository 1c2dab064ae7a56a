//! The event queue and the merge of logs.

use std::cmp::Reverse;
use std::collections::BinaryHeap;

use market_sim::merge::merge_by_time;
use market_sim::queue::EventQueue;
use market_sim::{EventPayload, Side, TradeRecord};

/// The compact queue pops in the exact order of a heap of events, duplicate
/// times included.
#[test]
fn compact_queue_matches_the_reference_heap() {
    let mut fast = EventQueue::with_capacity(8);
    let mut reference = BinaryHeap::new();
    let mut state: u64 = 20_260_921;
    let mut roll = move || {
        state ^= state << 13;
        state ^= state >> 7;
        state ^= state << 17;
        state
    };
    let mut seq = 0;
    for _ in 0..10_000 {
        if roll() % 3 != 0 {
            let time = roll() % 64;
            let payload = EventPayload::WakeUp { agent_id: usize::try_from(seq).unwrap() };
            fast.push(time, seq, payload);
            reference.push(Reverse((time, seq)));
            seq += 1;
        } else {
            let got = fast.pop().map(|(time, s, _)| (time, s));
            let want = reference.pop().map(|Reverse(key)| key);
            assert_eq!(got, want);
        }
    }
    while let Some(Reverse(want)) = reference.pop() {
        let got = fast.pop().map(|(time, s, _)| (time, s));
        assert_eq!(got, Some(want));
    }
    assert!(fast.pop().is_none());
}

#[test]
fn the_queue_hands_back_payloads() {
    let mut queue = EventQueue::with_capacity(0);
    queue.push(5, 0, EventPayload::MarketClose { symbol: 3 });
    queue.push(5, 1, EventPayload::MarketOpen { symbol: 4 });
    queue.push(1, 2, EventPayload::WakeUp { agent_id: 9 });
    assert!(matches!(queue.pop(), Some((1, 2, EventPayload::WakeUp { agent_id: 9 }))));
    queue.push(0, 3, EventPayload::WakeUp { agent_id: 8 });
    assert!(matches!(queue.pop(), Some((0, 3, EventPayload::WakeUp { agent_id: 8 }))));
    assert!(matches!(queue.pop(), Some((5, 0, EventPayload::MarketClose { symbol: 3 }))));
    assert!(matches!(queue.pop(), Some((5, 1, EventPayload::MarketOpen { symbol: 4 }))));
    assert!(queue.pop().is_none());
}

fn trade(timestamp: u64, symbol: u32) -> TradeRecord {
    TradeRecord {
        timestamp,
        symbol,
        price: 1,
        qty: 1,
        aggressor_side: Side::Bid,
        maker_order_id: 0,
        taker_order_id: 0,
    }
}

/// The merge equals concatenate-and-stable-sort, ties included.
#[test]
fn merge_matches_stable_sort_with_ties() {
    let times: [&[u64]; 3] = [&[1, 5, 5, 9], &[0, 5, 9, 9, 12], &[5, 5]];
    let logs: Vec<Vec<TradeRecord>> = times
        .iter()
        .zip(0..)
        .map(|(log, symbol)| log.iter().map(|&t| trade(t, symbol)).collect())
        .collect();
    let mut expected: Vec<TradeRecord> = logs.iter().flatten().copied().collect();
    expected.sort_by_key(|t| t.timestamp);

    let merged = merge_by_time(&logs);
    let pairs: Vec<_> = merged.iter().map(|t| (t.timestamp, t.symbol)).collect();
    let expected_pairs: Vec<_> = expected.iter().map(|t| (t.timestamp, t.symbol)).collect();
    assert_eq!(pairs, expected_pairs);
}
