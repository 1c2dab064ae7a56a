//! What sets, hashes and lookups keep, told from their items alone.

use crate::book_model::{after_cancel, after_limit, limit_sweep};
use crate::fasthash::{le_number, mixed, mixed_bytes};
use crate::merge::Timed;
use crate::order::LimitOrder;
use crate::orderbook::OrderBook;
use crate::records::{L1Bucket, L1Snapshot, TradeRecord};
use crate::utils::IndexedView;
use vstd::prelude::*;

verus! {

/// An id finds the order that came in last under it, as long as that rests:
/// a new order that rests takes its id over. Every other id finds what it
/// found, if that still rests, and nothing else. A new order always has a
/// ticket of its own.
pub proof fn law_an_id_finds_its_last_order(before: OrderBook, after: OrderBook, order: LimitOrder)
    requires
        after.took_limit(before, order),
    ensures
        ({
            let ticketed = LimitOrder {
                id: before.next_ticket(),
                side: order.side,
                price: order.price,
                qty: order.qty,
                timestamp: order.timestamp,
            };
            let rests = limit_sweep(before.by_ticket(), ticketed).remaining > 0;
            &&& after.by_ticket() == after_limit(before.by_ticket(), ticketed)
            &&& after.next_ticket() == before.next_ticket() + 1
            &&& rests ==> after.lookup().contains_key(order.id) && after.lookup()[order.id]
                == before.next_ticket()
            &&& forall|id: u64|
                (id != order.id || !rests) ==> (#[trigger] after.lookup().contains_key(id)
                    <==> before.lookup().contains_key(id) && after.by_ticket().rests(
                    before.lookup()[id],
                ))
            &&& forall|id: u64|
                (id != order.id || !rests) && #[trigger] after.lookup().contains_key(id)
                    ==> after.lookup()[id] == before.lookup()[id]
            &&& forall|ticket: u64|
                after.by_ticket().rests(ticket) && ticket != before.next_ticket() && (
                #[trigger] before.names().contains_key(ticket)) ==> after.names().contains_key(
                    ticket,
                ) && after.names()[ticket] == before.names()[ticket]
            &&& after.by_ticket().rests(before.next_ticket()) ==> after.names().contains_key(
                before.next_ticket(),
            ) && after.names()[before.next_ticket()] == order.id
        }),
{
}

/// A cancel takes off the book the one order that its id finds, and the id
/// finds nothing after it; other orders under that id still rest, and other
/// ids find what they found.
pub proof fn law_a_cancel_drops_what_its_id_finds(before: OrderBook, after: OrderBook, id: u64)
    requires
        after.dropped(before, id),
        before.lookup().contains_key(id),
    ensures
        after.by_ticket() == after_cancel(before.by_ticket(), before.lookup()[id]),
        !after.lookup().contains_key(id),
        forall|other: u64|
            other != id ==> (#[trigger] after.lookup().contains_key(other)
                <==> before.lookup().contains_key(other)),
        forall|other: u64|
            other != id && #[trigger] after.lookup().contains_key(other) ==> after.lookup()[other]
                == before.lookup()[other],
        forall|ticket: u64|
            ticket != before.lookup()[id] && #[trigger] before.names().contains_key(ticket)
                ==> after.names().contains_key(ticket) && after.names()[ticket]
                == before.names()[ticket],
        after.next_ticket() == before.next_ticket(),
{
}

/// A set that takes an item has it and all it had: at the end if the item is
/// new, and as it was if not.
pub proof fn law_a_set_keeps_its_items(set: IndexedView, x: u64)
    requires
        set.wf(),
    ensures
        ({
            let after = set.inserted(x).items;
            &&& after.contains(x)
            &&& set.items.contains(x) ==> after == set.items
            &&& !set.items.contains(x) ==> after == set.items.push(x)
        }),
{
    let after = set.inserted(x).items;
    if set.items.contains(x) {
        let i = set.items.index_of(x);
        assert(set.index.contains_key(set.items[i]));
    } else {
        if set.index.contains_key(x) {
            assert(set.items[set.index[x]] == x);
        }
        assert(after[after.len() - 1] == x);
    }
}

/// A set that loses an item puts its last one in the place of it; every other
/// item stays where it is, so that none but the one is lost.
pub proof fn law_the_last_item_fills_the_gap(set: IndexedView, i: int, x: u64)
    requires
        set.wf(),
        0 <= i < set.items.len(),
    ensures
        ({
            let after = set.removed_at(i).items;
            &&& after.len() == set.items.len() - 1
            &&& i < after.len() ==> after[i] == set.items[set.items.len() - 1]
            &&& forall|j: int|
                0 <= j < after.len() && j != i ==> #[trigger] after[j] == set.items[j]
        }),
        set.items[i] == x ==> set.removed(x) == set.removed_at(i),
        !set.items.contains(x) ==> set.removed(x) == set,
{
    if set.items[i] == x {
        assert(set.index[set.items[i]] == i);
    }
    if !set.items.contains(x) && set.index.contains_key(x) {
        assert(set.items[set.index[x]] == x);
    }
}

/// A hash takes bytes in words of eight: bytes after whole words are mixed in
/// as if they came alone, up to eight bytes are one word, and no bytes change
/// nothing. So a hash of more bytes is the hash of the rest, begun with the
/// hash of the words before it.
pub proof fn law_bytes_are_mixed_word_by_word(hash: u64, words: Seq<u8>, rest: Seq<u8>)
    requires
        words.len() % 8 == 0,
    ensures
        mixed_bytes(hash, words + rest) == mixed_bytes(mixed_bytes(hash, words), rest),
        rest.len() == 0 ==> mixed_bytes(hash, rest) == hash,
        0 < rest.len() <= 8 ==> mixed_bytes(hash, rest) == mixed(hash, le_number(rest) as u64),
    decreases words.len(),
{
    if words.len() == 0 {
        assert(words + rest =~= rest);
    } else if rest.len() == 0 {
        assert(words + rest =~= words);
    } else {
        let all = words + rest;
        assert(all.take(8) =~= words.take(8));
        assert(all.skip(8) =~= words.skip(8) + rest);
        let next = mixed(hash, le_number(words.take(8)) as u64);
        law_bytes_are_mixed_word_by_word(next, words.skip(8), rest);
        if words.len() == 8 {
            assert(words.take(8) =~= words);
            assert(words.skip(8) =~= Seq::<u8>::empty());
        }
    }
}

/// A byte more weighs 256 times as much as the one before it, and the first
/// byte weighs one.
pub proof fn law_later_bytes_weigh_more(bytes: Seq<u8>, first: u8)
    ensures
        le_number(seq![first]) == first,
        le_number(seq![first] + bytes) == first + 256 * le_number(bytes),
{
    assert(seq![first].drop_first() =~= Seq::<u8>::empty());
    assert((seq![first] + bytes).drop_first() =~= bytes);
    assert(le_number(Seq::<u8>::empty()) == 0);
}

/// A word is taken in by a rotation, an exclusive or and a multiplication: the
/// hash that starts at zero is the word times the multiplier, and the word
/// that equals the rotated hash gives zero.
pub proof fn law_a_word_is_rotated_in_and_multiplied(hash: u64, word: u64)
    ensures
        mixed(0, word) == (word * 0x51_7c_c1_b7_27_22_0a_95) % 0x1_0000_0000_0000_0000,
        mixed(hash, word) == mixed(0, word ^ ((hash << 5) | (hash >> 59))),
{
    assert(((0u64 << 5) | (0u64 >> 59)) ^ word == word) by (bit_vector);
    let turned = (hash << 5) | (hash >> 59);
    let all = word ^ turned;
    assert(((0u64 << 5) | (0u64 >> 59)) ^ all == all) by (bit_vector);
    assert(turned ^ word == word ^ turned) by (bit_vector);
}

/// Trades and quotes belong to their own times, a bucket to its start.
pub proof fn law_records_have_their_times(
    trade: TradeRecord,
    snapshot: L1Snapshot,
    bucket: L1Bucket,
)
    ensures
        trade.spec_time() == trade.timestamp,
        snapshot.spec_time() == snapshot.timestamp,
        bucket.spec_time() == bucket.bucket_start,
{
}

} // verus!
