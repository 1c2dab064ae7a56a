//! What an aggregate says of the quotes it was made of.

use crate::calendar::{epoch_days, spec_is_leap, year_days};
use crate::order::Side;
use crate::output::{spec_side_name, BucketColumns, SnapshotColumns, TradeColumns};
use crate::records::{quoted_value, L1Bucket, L1Snapshot, TradeRecord};
use crate::types::{Nanos, Symbol};
use vstd::prelude::*;

verus! {

/// The best quotes at one moment.
pub struct TopOfBook {
    pub bid_price: i64,
    pub ask_price: i64,
    pub bid_volume: u64,
    pub ask_volume: u64,
}

/// An empty bucket with these quotes folded in, one after the other.
pub open spec fn absorbed_all(start: Nanos, symbol: Symbol, tops: Seq<TopOfBook>) -> L1Bucket
    decreases tops.len(),
{
    if tops.len() == 0 {
        L1Bucket::empty(start, symbol)
    } else {
        let top = tops.last();
        absorbed_all(start, symbol, tops.drop_last()).absorbed(
            top.bid_price,
            top.ask_price,
            top.bid_volume,
            top.ask_volume,
        )
    }
}

/// Both sides are there.
pub open spec fn two_sided(top: TopOfBook) -> bool {
    top.bid_price > 0 && top.ask_price > 0
}

/// The volume of both sides, over all quotes.
pub open spec fn volume_of(tops: Seq<TopOfBook>) -> int
    decreases tops.len(),
{
    if tops.len() == 0 {
        0
    } else {
        tops[0].bid_volume + tops[0].ask_volume + volume_of(tops.drop_first())
    }
}

/// What one side of a quote is worth: nothing if it has no price.
pub open spec fn side_worth(price: i64, volume: u64) -> int {
    if price > 0 {
        price * volume
    } else {
        0
    }
}

/// What both sides are worth, over all quotes.
pub open spec fn worth_of(tops: Seq<TopOfBook>) -> int
    decreases tops.len(),
{
    if tops.len() == 0 {
        0
    } else {
        side_worth(tops[0].bid_price, tops[0].bid_volume) + side_worth(
            tops[0].ask_price,
            tops[0].ask_volume,
        ) + worth_of(tops.drop_first())
    }
}

proof fn lemma_side_worth(price: i64, volume: u64)
    ensures
        side_worth(price, volume) >= 0,
        side_worth(price, volume) == quoted_value(price, volume),
{
    assert(price > 0 ==> price * volume >= 0) by (nonlinear_arith)
        requires
            volume >= 0,
    ;
}

proof fn lemma_sums_push(tops: Seq<TopOfBook>)
    requires
        tops.len() > 0,
    ensures
        volume_of(tops) == volume_of(tops.drop_last()) + tops.last().bid_volume
            + tops.last().ask_volume,
        worth_of(tops) == worth_of(tops.drop_last()) + side_worth(
            tops.last().bid_price,
            tops.last().bid_volume,
        ) + side_worth(tops.last().ask_price, tops.last().ask_volume),
    decreases tops.len(),
{
    if tops.len() == 1 {
        assert(tops.drop_first() =~= Seq::<TopOfBook>::empty());
        assert(tops.drop_last() =~= Seq::<TopOfBook>::empty());
    } else {
        lemma_sums_push(tops.drop_first());
        assert(tops.drop_first().drop_last() =~= tops.drop_last().drop_first());
        assert(tops.drop_first().last() == tops.last());
        assert(tops.drop_last()[0] == tops[0]);
    }
}

/// The first two-sided quote stands at `i`.
pub open spec fn first_two_sided(tops: Seq<TopOfBook>, i: int) -> bool {
    &&& 0 <= i < tops.len()
    &&& two_sided(tops[i])
    &&& forall|j: int| 0 <= j < i ==> !two_sided(#[trigger] tops[j])
}

/// The last two-sided quote stands at `i`.
pub open spec fn last_two_sided(tops: Seq<TopOfBook>, i: int) -> bool {
    &&& 0 <= i < tops.len()
    &&& two_sided(tops[i])
    &&& forall|j: int| i < j < tops.len() ==> !two_sided(#[trigger] tops[j])
}

/// What a bucket says of its two-sided quotes: the first and the last of each
/// price, the lowest bid and the highest ask; zeros where there was none.
pub open spec fn tells_prices(bucket: L1Bucket, tops: Seq<TopOfBook>) -> bool {
    if exists|i: int| 0 <= i < tops.len() && two_sided(#[trigger] tops[i]) {
        &&& exists|i: int| #[trigger]
            first_two_sided(tops, i) && tops[i].bid_price == bucket.first_bid && tops[i].ask_price
                == bucket.first_ask
        &&& exists|i: int| #[trigger]
            last_two_sided(tops, i) && tops[i].bid_price == bucket.last_bid && tops[i].ask_price
                == bucket.last_ask
        &&& forall|i: int|
            0 <= i < tops.len() && two_sided(#[trigger] tops[i]) ==> bucket.min_bid
                <= tops[i].bid_price && tops[i].ask_price <= bucket.max_ask
        &&& exists|i: int|
            0 <= i < tops.len() && two_sided(#[trigger] tops[i]) && tops[i].bid_price
                == bucket.min_bid
        &&& exists|i: int|
            0 <= i < tops.len() && two_sided(#[trigger] tops[i]) && tops[i].ask_price
                == bucket.max_ask
    } else {
        &&& bucket.first_bid == 0 && bucket.min_bid == 0 && bucket.last_bid == 0
        &&& bucket.first_ask == 0 && bucket.max_ask == 0 && bucket.last_ask == 0
    }
}

/// A bucket tells of its quotes: the prices of the two-sided ones, and the
/// volume and worth of all.
pub proof fn law_a_bucket_tells_of_its_quotes(start: Nanos, symbol: Symbol, tops: Seq<TopOfBook>)
    requires
        volume_of(tops) <= u64::MAX,
        worth_of(tops) <= u128::MAX,
    ensures
        ({
            let bucket = absorbed_all(start, symbol, tops);
            &&& bucket.bucket_start == start
            &&& bucket.symbol == symbol
            &&& bucket.volume == volume_of(tops)
            &&& bucket.quote_volume == worth_of(tops)
            &&& tells_prices(bucket, tops)
        }),
    decreases tops.len(),
{
    if tops.len() > 0 {
        let init = tops.drop_last();
        let n = init.len() as int;
        let top = tops.last();
        lemma_sums_push(tops);
        lemma_side_worth(top.bid_price, top.bid_volume);
        lemma_side_worth(top.ask_price, top.ask_volume);
        law_a_bucket_tells_of_its_quotes(start, symbol, init);
        let (before, after) = (absorbed_all(start, symbol, init), absorbed_all(start, symbol, tops));
        assert(tops[n] == top);
        assert forall|i: int| 0 <= i < n implies #[trigger] tops[i] == init[i] by {}
        let some = exists|i: int| 0 <= i < init.len() && two_sided(#[trigger] init[i]);
        if some {
            let f = choose|i: int| #[trigger]
                first_two_sided(init, i) && init[i].bid_price == before.first_bid
                    && init[i].ask_price == before.first_ask;
            let l = choose|i: int| #[trigger]
                last_two_sided(init, i) && init[i].bid_price == before.last_bid
                    && init[i].ask_price == before.last_ask;
            let lo = choose|i: int|
                0 <= i < init.len() && two_sided(#[trigger] init[i]) && init[i].bid_price
                    == before.min_bid;
            let hi = choose|i: int|
                0 <= i < init.len() && two_sided(#[trigger] init[i]) && init[i].ask_price
                    == before.max_ask;
            assert(two_sided(tops[f]));
            assert(first_two_sided(tops, f)) by {
                assert forall|j: int| 0 <= j < f implies !two_sided(#[trigger] tops[j]) by {
                    assert(!two_sided(init[j]));
                }
            }
            assert(two_sided(tops[lo]) && two_sided(tops[hi]));
            if two_sided(top) {
                assert(last_two_sided(tops, n));
            } else {
                assert(last_two_sided(tops, l)) by {
                    assert forall|j: int| l < j < tops.len() implies !two_sided(
                        #[trigger] tops[j],
                    ) by {
                        if j < n {
                            assert(!two_sided(init[j]));
                        }
                    }
                }
            }
            assert forall|i: int|
                0 <= i < tops.len() && two_sided(#[trigger] tops[i]) implies after.min_bid
                <= tops[i].bid_price && tops[i].ask_price <= after.max_ask by {
                if i < n {
                    assert(two_sided(init[i]));
                }
            }
        } else if two_sided(top) {
            assert forall|j: int| 0 <= j < n implies !two_sided(#[trigger] tops[j]) by {
                assert(!two_sided(init[j]));
            }
            assert(first_two_sided(tops, n) && last_two_sided(tops, n));
        } else {
            assert forall|j: int| 0 <= j < tops.len() implies !two_sided(#[trigger] tops[j]) by {
                if j < n {
                    assert(!two_sided(init[j]));
                }
            }
        }
    }
}

/// A bucket has room for quotes exactly if their volume and worth still fit.
pub proof fn law_a_bucket_has_room_for_what_fits(bucket: L1Bucket, top: TopOfBook)
    ensures
        bucket.room(top.bid_price, top.ask_price, top.bid_volume, top.ask_volume) <==> {
            &&& bucket.volume + top.bid_volume + top.ask_volume <= u64::MAX
            &&& bucket.quote_volume + side_worth(top.bid_price, top.bid_volume) + side_worth(
                top.ask_price,
                top.ask_volume,
            ) <= u128::MAX
        },
{
    lemma_side_worth(top.bid_price, top.bid_volume);
    lemma_side_worth(top.ask_price, top.ask_volume);
}

/// Each column of a table of trades holds one value of each trade, in their
/// order.
pub proof fn law_trade_columns_hold_the_trades(columns: TradeColumns, trades: Seq<TradeRecord>)
    requires
        columns.holds(trades),
    ensures
        columns.timestamp@.len() == trades.len() && columns.symbol@.len() == trades.len(),
        columns.price@.len() == trades.len() && columns.qty@.len() == trades.len(),
        columns.aggressor_side@.len() == trades.len(),
        columns.maker_order_id@.len() == trades.len(),
        columns.taker_order_id@.len() == trades.len(),
        forall|i: int|
            #![trigger trades[i]]
            0 <= i < trades.len() ==> {
                &&& columns.timestamp@[i] == trades[i].timestamp
                &&& columns.symbol@[i] == trades[i].symbol
                &&& columns.price@[i] == trades[i].price
                &&& columns.qty@[i] == trades[i].qty
                &&& columns.aggressor_side@[i] == trades[i].aggressor_side
                &&& columns.maker_order_id@[i] == trades[i].maker_order_id
                &&& columns.taker_order_id@[i] == trades[i].taker_order_id
            },
{
}

/// Each column of a table of snapshots holds one value of each, in their
/// order.
pub proof fn law_snapshot_columns_hold_the_snapshots(
    columns: SnapshotColumns,
    snaps: Seq<L1Snapshot>,
)
    requires
        columns.holds(snaps),
    ensures
        columns.timestamp@.len() == snaps.len() && columns.symbol@.len() == snaps.len(),
        columns.bid_price@.len() == snaps.len() && columns.ask_price@.len() == snaps.len(),
        columns.bid_volume@.len() == snaps.len() && columns.ask_volume@.len() == snaps.len(),
        columns.last_trade_price@.len() == snaps.len(),
        forall|i: int|
            #![trigger snaps[i]]
            0 <= i < snaps.len() ==> {
                &&& columns.timestamp@[i] == snaps[i].timestamp
                &&& columns.symbol@[i] == snaps[i].symbol
                &&& columns.bid_price@[i] == snaps[i].bid_price
                &&& columns.ask_price@[i] == snaps[i].ask_price
                &&& columns.bid_volume@[i] == snaps[i].bid_volume
                &&& columns.ask_volume@[i] == snaps[i].ask_volume
                &&& columns.last_trade_price@[i] == snaps[i].last_trade_price
            },
{
}

/// Each column of a table of buckets holds one value of each, in their order.
pub proof fn law_bucket_columns_hold_the_buckets(columns: BucketColumns, buckets: Seq<L1Bucket>)
    requires
        columns.holds(buckets),
    ensures
        columns.bucket_start@.len() == buckets.len() && columns.symbol@.len() == buckets.len(),
        columns.first_bid@.len() == buckets.len() && columns.min_bid@.len() == buckets.len(),
        columns.last_bid@.len() == buckets.len() && columns.first_ask@.len() == buckets.len(),
        columns.max_ask@.len() == buckets.len() && columns.last_ask@.len() == buckets.len(),
        columns.volume@.len() == buckets.len() && columns.quote_volume@.len() == buckets.len(),
        forall|i: int|
            #![trigger buckets[i]]
            0 <= i < buckets.len() ==> {
                &&& columns.bucket_start@[i] == buckets[i].bucket_start
                &&& columns.symbol@[i] == buckets[i].symbol
                &&& columns.first_bid@[i] == buckets[i].first_bid
                &&& columns.min_bid@[i] == buckets[i].min_bid
                &&& columns.last_bid@[i] == buckets[i].last_bid
                &&& columns.first_ask@[i] == buckets[i].first_ask
                &&& columns.max_ask@[i] == buckets[i].max_ask
                &&& columns.last_ask@[i] == buckets[i].last_ask
                &&& columns.volume@[i] == buckets[i].volume
                &&& columns.quote_volume@[i] == buckets[i].quote_volume
            },
{
}

/// A side is named by its word, and the two names differ.
pub proof fn law_sides_are_named_apart()
    ensures
        spec_side_name(Side::Bid) == seq!['b', 'i', 'd'],
        spec_side_name(Side::Ask) == seq!['a', 's', 'k'],
        spec_side_name(Side::Bid) != spec_side_name(Side::Ask),
{
    assert(spec_side_name(Side::Bid)[0] != spec_side_name(Side::Ask)[0]);
}

/// Side and opposite: they differ, and the opposite of the opposite is the
/// side again.
pub proof fn law_the_opposite_side_is_the_other_one(side: Side)
    ensures
        side.spec_opposite() != side,
        side.spec_opposite().spec_opposite() == side,
{
}

/// The first days of two years in a row lie a year apart, and the epoch starts
/// with the year 1970. A year divisible by four is longer by a day, unless it
/// ends a century that four hundred does not divide.
pub proof fn law_years_follow_one_another(year: int)
    ensures
        epoch_days(1970) == 0,
        epoch_days(year + 1) - epoch_days(year) == if year % 400 == 0 {
            366int
        } else if year % 100 == 0 {
            365
        } else if year % 4 == 0 {
            366
        } else {
            365
        },
{
    lemma_longer_years(year);
    if year >= 1970 {
        assert(epoch_days(year + 1) == epoch_days(year) + year_days(year));
    } else {
        assert(epoch_days(year) == epoch_days(year + 1) - year_days(year));
    }
}

proof fn lemma_longer_years(year: int)
    ensures
        year_days(year) == if year % 400 == 0 {
            366int
        } else if year % 100 == 0 {
            365
        } else if year % 4 == 0 {
            366
        } else {
            365
        },
{
    assert(year % 400 == 0 ==> year % 100 == 0 && year % 4 == 0);
}

/// Leap years repeat every four hundred years.
pub proof fn law_leap_years_repeat(year: int)
    ensures
        spec_is_leap(year) <==> year % 4 == 0 && (year % 100 == 0 ==> year % 400 == 0),
        spec_is_leap(year + 400) == spec_is_leap(year),
{
    assert(year % 400 == 0 ==> year % 100 == 0 && year % 4 == 0);
    assert((year + 400) % 4 == year % 4);
    assert((year + 400) % 100 == year % 100);
    assert((year + 400) % 400 == year % 400);
}

} // verus!
