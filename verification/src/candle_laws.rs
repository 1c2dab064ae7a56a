//! What a candle says of the quotes and trades of its minute.

use crate::candles::{
    candle_at, candles_of, close_by, largest, mids_in, minute_of, notional_in, notionals_fit,
    qty_in, quotes, smallest,
};
use crate::records::{L1Snapshot, TradeRecord};
use crate::types::Nanos;
use vstd::prelude::*;

verus! {

/// The time lies in the minute that starts `minute` minutes from zero.
pub open spec fn in_minute(time: Nanos, minute: int) -> bool {
    minute * 60_000_000_000 <= time < (minute + 1) * 60_000_000_000
}

/// The snapshot quotes both sides, in this minute.
pub open spec fn quoted_in(snap: L1Snapshot, minute: int) -> bool {
    snap.bid_price > 0 && snap.ask_price > 0 && in_minute(snap.timestamp, minute)
}

/// The snapshot quotes both sides, by the end of this minute.
pub open spec fn quoted_by(snap: L1Snapshot, minute: int) -> bool {
    snap.bid_price > 0 && snap.ask_price > 0 && snap.timestamp < (minute + 1) * 60_000_000_000
}

/// Twice the mid of a snapshot.
pub open spec fn both_prices(snap: L1Snapshot) -> int {
    snap.bid_price + snap.ask_price
}

/// Twice the mid of some snapshot of the minute is this number.
pub open spec fn quotes_at(snaps: Seq<L1Snapshot>, minute: int, number: int) -> bool {
    exists|i: int|
        0 <= i < snaps.len() && quoted_in(#[trigger] snaps[i], minute) && both_prices(snaps[i])
            == number
}

/// The minute of a time is the one it lies in, and only that.
proof fn lemma_in_minute(time: Nanos, minute: u64)
    ensures
        minute_of(time) == minute <==> in_minute(time, minute as int),
        minute_of(time) <= minute <==> time < (minute + 1) * 60_000_000_000,
{
    assert(time as int / 60_000_000_000 == minute as int <==> minute as int * 60_000_000_000
        <= time < (minute + 1) * 60_000_000_000);
}

/// The numbers of a minute are those that its quotes show, in their order.
proof fn lemma_mids_show(snaps: Seq<L1Snapshot>, minute: u64)
    ensures
        ({
            let mids = mids_in(snaps, minute);
            &&& forall|k: int|
                0 <= k < mids.len() ==> quotes_at(snaps, minute as int, #[trigger] mids[k] as int)
            &&& forall|i: int|
                0 <= i < snaps.len() && quoted_in(#[trigger] snaps[i], minute as int)
                    ==> exists|k: int|
                    0 <= k < mids.len() && #[trigger] mids[k] == both_prices(snaps[i])
            &&& mids.len() > 0 ==> is_first_of(snaps, minute as int, mids[0] as int)
            &&& mids.len() > 0 ==> is_last_of(snaps, minute as int, mids.last() as int)
        }),
    decreases snaps.len(),
{
    let mids = mids_in(snaps, minute);
    let m = minute as int;
    if snaps.len() > 0 {
        let init = snaps.drop_last();
        let snap = snaps.last();
        let before = mids_in(init, minute);
        let n = init.len() as int;
        lemma_mids_show(init, minute);
        lemma_in_minute(snap.timestamp, minute);
        assert(snaps[n] == snap);
        assert forall|i: int| 0 <= i < n implies #[trigger] snaps[i] == init[i] by {}
        let here = quoted_in(snap, m);
        assert(here ==> mids == before.push(both_prices(snap) as u64));
        assert(!here ==> mids == before);
        assert forall|k: int| 0 <= k < mids.len() implies quotes_at(
            snaps,
            m,
            #[trigger] mids[k] as int,
        ) by {
            if k < before.len() {
                assert(mids[k] == before[k]);
                let i = choose|i: int|
                    0 <= i < init.len() && quoted_in(#[trigger] init[i], m) && both_prices(init[i])
                        == before[k];
                assert(snaps[i] == init[i]);
            } else {
                assert(quoted_in(snaps[n], m));
            }
        }
        assert forall|i: int| 0 <= i < snaps.len() && quoted_in(#[trigger] snaps[i], m) implies exists|
            k: int,
        | 0 <= k < mids.len() && #[trigger] mids[k] == both_prices(snaps[i]) by {
            if i < n {
                assert(quoted_in(init[i], m));
                let k = choose|k: int|
                    0 <= k < before.len() && #[trigger] before[k] == both_prices(init[i]);
                assert(mids[k] == both_prices(snaps[i]));
            } else {
                assert(mids[mids.len() - 1] == both_prices(snaps[i]));
            }
        }
        if mids.len() > 0 {
            if before.len() > 0 {
                let i = choose|i: int| first_at(init, m, before[0] as int, i);
                assert(first_at(snaps, m, mids[0] as int, i)) by {
                    assert forall|j: int| 0 <= j < i implies !quoted_in(#[trigger] snaps[j], m) by {
                        assert(!quoted_in(init[j], m));
                    }
                }
            } else {
                assert forall|j: int| 0 <= j < n implies !quoted_in(#[trigger] snaps[j], m) by {
                    if quoted_in(init[j], m) {
                        assert(exists|k: int|
                            0 <= k < before.len() && #[trigger] before[k] == both_prices(init[j]));
                    }
                }
                assert(first_at(snaps, m, mids[0] as int, n));
            }
            if here {
                assert(last_at(snaps, m, mids.last() as int, n));
            } else {
                let i = choose|i: int| last_at(init, m, before.last() as int, i);
                assert(last_at(snaps, m, mids.last() as int, i)) by {
                    assert forall|j: int| i < j < snaps.len() implies !quoted_in(
                        #[trigger] snaps[j],
                        m,
                    ) by {
                        if j < n {
                            assert(!quoted_in(init[j], m));
                        }
                    }
                }
            }
        }
    }
}

/// The first quote of the minute stands at `i` and shows this number.
pub open spec fn first_at(snaps: Seq<L1Snapshot>, minute: int, number: int, i: int) -> bool {
    &&& 0 <= i < snaps.len()
    &&& quoted_in(snaps[i], minute)
    &&& both_prices(snaps[i]) == number
    &&& forall|j: int| 0 <= j < i ==> !quoted_in(#[trigger] snaps[j], minute)
}

/// The last quote of the minute stands at `i` and shows this number.
pub open spec fn last_at(snaps: Seq<L1Snapshot>, minute: int, number: int, i: int) -> bool {
    &&& 0 <= i < snaps.len()
    &&& quoted_in(snaps[i], minute)
    &&& both_prices(snaps[i]) == number
    &&& forall|j: int| i < j < snaps.len() ==> !quoted_in(#[trigger] snaps[j], minute)
}

pub open spec fn is_first_of(snaps: Seq<L1Snapshot>, minute: int, number: int) -> bool {
    exists|i: int| first_at(snaps, minute, number, i)
}

pub open spec fn is_last_of(snaps: Seq<L1Snapshot>, minute: int, number: int) -> bool {
    exists|i: int| last_at(snaps, minute, number, i)
}

proof fn lemma_largest(numbers: Seq<u64>)
    requires
        numbers.len() > 0,
    ensures
        forall|k: int| 0 <= k < numbers.len() ==> #[trigger] numbers[k] <= largest(numbers),
        exists|k: int| 0 <= k < numbers.len() && #[trigger] numbers[k] == largest(numbers),
    decreases numbers.len(),
{
    if numbers.len() > 1 {
        let init = numbers.drop_last();
        lemma_largest(init);
        let k = choose|k: int| 0 <= k < init.len() && #[trigger] init[k] == largest(init);
        assert(numbers[k] == init[k]);
        assert(numbers[numbers.len() - 1] == numbers.last());
        assert forall|j: int| 0 <= j < numbers.len() implies #[trigger] numbers[j] <= largest(
            numbers,
        ) by {
            if j < init.len() {
                assert(init[j] <= largest(init));
            }
        }
    } else {
        assert(numbers[0] == largest(numbers));
    }
}

proof fn lemma_smallest(numbers: Seq<u64>)
    requires
        numbers.len() > 0,
    ensures
        forall|k: int| 0 <= k < numbers.len() ==> #[trigger] numbers[k] >= smallest(numbers),
        exists|k: int| 0 <= k < numbers.len() && #[trigger] numbers[k] == smallest(numbers),
    decreases numbers.len(),
{
    if numbers.len() > 1 {
        let init = numbers.drop_last();
        lemma_smallest(init);
        let k = choose|k: int| 0 <= k < init.len() && #[trigger] init[k] == smallest(init);
        assert(numbers[k] == init[k]);
        assert(numbers[numbers.len() - 1] == numbers.last());
        assert forall|j: int| 0 <= j < numbers.len() implies #[trigger] numbers[j] >= smallest(
            numbers,
        ) by {
            if j < init.len() {
                assert(init[j] >= smallest(init));
            }
        }
    } else {
        assert(numbers[0] == smallest(numbers));
    }
}

/// The candle of a minute with quotes: its high is the mid of one of them and
/// no other is above it, its low is the mid of one and no other is below it,
/// it opens at the first and closes at the last. So its open and close lie
/// between its low and its high.
pub proof fn law_high_and_low_bound_the_quotes(
    snaps: Seq<L1Snapshot>,
    trades: Seq<TradeRecord>,
    minute: u64,
)
    requires
        exists|i: int| 0 <= i < snaps.len() && quoted_in(#[trigger] snaps[i], minute as int),
    ensures
        ({
            let candle = candle_at(snaps, trades, minute);
            let m = minute as int;
            &&& forall|i: int|
                0 <= i < snaps.len() && quoted_in(#[trigger] snaps[i], m) ==> candle.low
                    <= both_prices(snaps[i]) <= candle.high
            &&& quotes_at(snaps, m, candle.high as int)
            &&& quotes_at(snaps, m, candle.low as int)
            &&& is_first_of(snaps, m, candle.open as int)
            &&& is_last_of(snaps, m, candle.close as int)
            &&& candle.low <= candle.open <= candle.high
            &&& candle.low <= candle.close <= candle.high
        }),
{
    let m = minute as int;
    let mids = mids_in(snaps, minute);
    lemma_mids_show(snaps, minute);
    let i = choose|i: int| 0 <= i < snaps.len() && quoted_in(#[trigger] snaps[i], m);
    assert(mids.len() > 0);
    lemma_largest(mids);
    lemma_smallest(mids);
    let candle = candle_at(snaps, trades, minute);
    assert forall|j: int| 0 <= j < snaps.len() && quoted_in(#[trigger] snaps[j], m) implies candle.low
        <= both_prices(snaps[j]) <= candle.high by {
        let k = choose|k: int| 0 <= k < mids.len() && #[trigger] mids[k] == both_prices(snaps[j]);
        assert(mids[k] <= largest(mids) && mids[k] >= smallest(mids));
    }
    let top = choose|k: int| 0 <= k < mids.len() && #[trigger] mids[k] == largest(mids);
    let bottom = choose|k: int| 0 <= k < mids.len() && #[trigger] mids[k] == smallest(mids);
    assert(quotes_at(snaps, m, mids[top] as int));
    assert(quotes_at(snaps, m, mids[bottom] as int));
    assert(mids[0] <= largest(mids) && mids[0] >= smallest(mids));
    assert(mids[mids.len() - 1] <= largest(mids) && mids[mids.len() - 1] >= smallest(mids));
}

/// The last quote by the end of the minute stands at `i` and shows this
/// number.
pub open spec fn latest_at(snaps: Seq<L1Snapshot>, minute: int, number: int, i: int) -> bool {
    &&& 0 <= i < snaps.len()
    &&& quoted_by(snaps[i], minute)
    &&& both_prices(snaps[i]) == number
    &&& forall|j: int| i < j < snaps.len() ==> !quoted_by(#[trigger] snaps[j], minute)
}

proof fn lemma_close_by(snaps: Seq<L1Snapshot>, minute: u64)
    ensures
        close_by(snaps, minute) matches Some(number) ==> exists|i: int|
            latest_at(snaps, minute as int, number as int, i),
        close_by(snaps, minute) is None ==> forall|i: int|
            0 <= i < snaps.len() ==> !quoted_by(#[trigger] snaps[i], minute as int),
    decreases snaps.len(),
{
    let m = minute as int;
    if snaps.len() > 0 {
        let init = snaps.drop_last();
        let n = init.len() as int;
        lemma_close_by(init, minute);
        lemma_in_minute(snaps.last().timestamp, minute);
        assert(snaps[n] == snaps.last());
        if quoted_by(snaps[n], m) {
            assert(latest_at(snaps, m, close_by(snaps, minute)->0 as int, n));
        } else {
            assert(close_by(snaps, minute) == close_by(init, minute));
            if let Some(number) = close_by(init, minute) {
                let i = choose|i: int| latest_at(init, m, number as int, i);
                assert(latest_at(snaps, m, number as int, i)) by {
                    assert forall|j: int| i < j < snaps.len() implies !quoted_by(
                        #[trigger] snaps[j],
                        m,
                    ) by {
                        if j < n {
                            assert(!quoted_by(init[j], m));
                        }
                    }
                }
            } else {
                assert forall|i: int| 0 <= i < snaps.len() implies !quoted_by(
                    #[trigger] snaps[i],
                    m,
                ) by {
                    if i < n {
                        assert(!quoted_by(init[i], m));
                    }
                }
            }
        }
    }
}

/// A minute without quotes repeats one price, that of the last quote before
/// its end: open, high, low and close.
pub proof fn law_a_minute_without_quotes_repeats_the_last_close(
    snaps: Seq<L1Snapshot>,
    trades: Seq<TradeRecord>,
    minute: u64,
)
    requires
        forall|i: int| 0 <= i < snaps.len() ==> !quoted_in(#[trigger] snaps[i], minute as int),
        exists|i: int| 0 <= i < snaps.len() && quoted_by(#[trigger] snaps[i], minute as int),
    ensures
        ({
            let candle = candle_at(snaps, trades, minute);
            &&& candle.open == candle.close
            &&& candle.high == candle.close
            &&& candle.low == candle.close
            &&& exists|i: int| latest_at(snaps, minute as int, candle.close as int, i)
        }),
{
    lemma_mids_show(snaps, minute);
    lemma_close_by(snaps, minute);
    let mids = mids_in(snaps, minute);
    if mids.len() > 0 {
        assert(quotes_at(snaps, minute as int, mids[0] as int));
    }
}

/// The quantity of the trades in a minute.
pub open spec fn traded_in(trades: Seq<TradeRecord>, minute: int) -> int
    decreases trades.len(),
{
    if trades.len() == 0 {
        0
    } else if in_minute(trades[0].timestamp, minute) {
        trades[0].qty + traded_in(trades.drop_first(), minute)
    } else {
        traded_in(trades.drop_first(), minute)
    }
}

/// What the trades in a minute were worth, price times quantity.
pub open spec fn worth_in(trades: Seq<TradeRecord>, minute: int) -> int
    decreases trades.len(),
{
    if trades.len() == 0 {
        0
    } else if in_minute(trades[0].timestamp, minute) {
        trades[0].price * trades[0].qty + worth_in(trades.drop_first(), minute)
    } else {
        worth_in(trades.drop_first(), minute)
    }
}

proof fn lemma_totals_push(trades: Seq<TradeRecord>, minute: int)
    requires
        trades.len() > 0,
    ensures
        traded_in(trades, minute) == traded_in(trades.drop_last(), minute) + if in_minute(
            trades.last().timestamp,
            minute,
        ) {
            trades.last().qty as int
        } else {
            0
        },
        worth_in(trades, minute) == worth_in(trades.drop_last(), minute) + if in_minute(
            trades.last().timestamp,
            minute,
        ) {
            trades.last().price * trades.last().qty
        } else {
            0
        },
    decreases trades.len(),
{
    if trades.len() == 1 {
        assert(trades.drop_first() =~= Seq::<TradeRecord>::empty());
        assert(trades.drop_last() =~= Seq::<TradeRecord>::empty());
    } else {
        lemma_totals_push(trades.drop_first(), minute);
        assert(trades.drop_first().drop_last() =~= trades.drop_last().drop_first());
        assert(trades.drop_first().last() == trades.last());
        assert(trades.drop_last()[0] == trades[0]);
    }
}

proof fn lemma_totals_agree(trades: Seq<TradeRecord>, minute: u64)
    ensures
        qty_in(trades, minute) == traded_in(trades, minute as int),
        notional_in(trades, minute) == worth_in(trades, minute as int),
        0 <= traded_in(trades, minute as int) <= trades.len() * u64::MAX,
    decreases trades.len(),
{
    if trades.len() > 0 {
        lemma_totals_agree(trades.drop_last(), minute);
        lemma_totals_push(trades, minute as int);
        lemma_in_minute(trades.last().timestamp, minute);
        assert(trades.len() * u64::MAX == (trades.len() - 1) * u64::MAX + u64::MAX)
            by (nonlinear_arith);
    }
}

/// A candle's volume and notional are those of the trades in its minute, with
/// or without quotes.
pub proof fn law_a_candle_counts_the_trades_of_its_minute(
    snaps: Seq<L1Snapshot>,
    trades: Seq<TradeRecord>,
    minute: u64,
)
    requires
        trades.len() <= usize::MAX,
        i128::MIN <= worth_in(trades, minute as int) <= i128::MAX,
    ensures
        candle_at(snaps, trades, minute).volume == traded_in(trades, minute as int),
        candle_at(snaps, trades, minute).notional == worth_in(trades, minute as int),
{
    lemma_totals_agree(trades, minute);
    assert(trades.len() * u64::MAX <= usize::MAX * u64::MAX) by (nonlinear_arith)
        requires
            trades.len() <= usize::MAX,
    ;
    assert(usize::MAX * u64::MAX <= u128::MAX) by (nonlinear_arith)
        requires
            usize::MAX <= 0xffff_ffff_ffff_ffff,
    ;
}

proof fn lemma_quotes_ends(snaps: Seq<L1Snapshot>)
    ensures
        ({
            let q = quotes(snaps);
            &&& q.len() > 0 ==> {
                &&& exists|i: int| earliest_quote(snaps, i) && snaps[i] == q.first()
                &&& exists|i: int| final_quote(snaps, i) && snaps[i] == q.last()
            }
            &&& q.len() == 0 ==> forall|i: int|
                0 <= i < snaps.len() ==> (#[trigger] snaps[i]).bid_price <= 0 || snaps[i].ask_price
                    <= 0
        }),
    decreases snaps.len(),
{
    reveal(Seq::filter);
    if snaps.len() > 0 {
        let init = snaps.drop_last();
        let n = init.len() as int;
        let (q, b) = (quotes(snaps), quotes(init));
        lemma_quotes_ends(init);
        assert(snaps[n] == snaps.last());
        assert forall|i: int| 0 <= i < n implies #[trigger] snaps[i] == init[i] by {}
        let here = snaps[n].bid_price > 0 && snaps[n].ask_price > 0;
        if b.len() > 0 {
            let i = choose|i: int| earliest_quote(init, i) && init[i] == b.first();
            assert(earliest_quote(snaps, i) && snaps[i] == q.first()) by {
                assert forall|j: int| 0 <= j < i implies (#[trigger] snaps[j]).bid_price <= 0
                    || snaps[j].ask_price <= 0 by {
                    assert(init[j].bid_price <= 0 || init[j].ask_price <= 0);
                }
            }
        } else if here {
            assert(earliest_quote(snaps, n) && snaps[n] == q.first()) by {
                assert forall|j: int| 0 <= j < n implies (#[trigger] snaps[j]).bid_price <= 0
                    || snaps[j].ask_price <= 0 by {
                    assert(init[j].bid_price <= 0 || init[j].ask_price <= 0);
                }
            }
        }
        if here {
            assert(final_quote(snaps, n) && snaps[n] == q.last());
        } else if b.len() > 0 {
            let i = choose|i: int| final_quote(init, i) && init[i] == b.last();
            assert(final_quote(snaps, i) && snaps[i] == q.last()) by {
                assert forall|j: int| i < j < snaps.len() implies (#[trigger] snaps[j]).bid_price
                    <= 0 || snaps[j].ask_price <= 0 by {
                    if j < n {
                        assert(init[j].bid_price <= 0 || init[j].ask_price <= 0);
                    }
                }
            }
        }
        if q.len() == 0 {
            assert forall|i: int| 0 <= i < snaps.len() implies (#[trigger] snaps[i]).bid_price <= 0
                || snaps[i].ask_price <= 0 by {
                if i < n {
                    assert(init[i].bid_price <= 0 || init[i].ask_price <= 0);
                }
            }
        }
    }
}

/// The first snapshot that quotes both sides stands at `i`.
pub open spec fn earliest_quote(snaps: Seq<L1Snapshot>, i: int) -> bool {
    &&& 0 <= i < snaps.len()
    &&& snaps[i].bid_price > 0 && snaps[i].ask_price > 0
    &&& forall|j: int|
        0 <= j < i ==> (#[trigger] snaps[j]).bid_price <= 0 || snaps[j].ask_price <= 0
}

/// The last snapshot that quotes both sides stands at `i`.
pub open spec fn final_quote(snaps: Seq<L1Snapshot>, i: int) -> bool {
    &&& 0 <= i < snaps.len()
    &&& snaps[i].bid_price > 0 && snaps[i].ask_price > 0
    &&& forall|j: int|
        i < j < snaps.len() ==> (#[trigger] snaps[j]).bid_price <= 0 || snaps[j].ask_price <= 0
}

/// A run has one candle for each minute from that of its first quote to that
/// of its last, in their order, and none without a quote.
pub proof fn law_there_is_a_candle_for_every_minute(
    snaps: Seq<L1Snapshot>,
    trades: Seq<TradeRecord>,
    first: int,
    last: int,
)
    requires
        earliest_quote(snaps, first),
        final_quote(snaps, last),
        snaps[first].timestamp <= snaps[last].timestamp,
    ensures
        ({
            let candles = candles_of(snaps, trades);
            let from = snaps[first].timestamp as int / 60_000_000_000;
            let upto = snaps[last].timestamp as int / 60_000_000_000;
            &&& candles.len() == upto - from + 1
            &&& forall|k: int|
                0 <= k < candles.len() ==> #[trigger] candles[k] == candle_at(
                    snaps,
                    trades,
                    (from + k) as u64,
                )
        }),
{
    lemma_quotes_ends(snaps);
    let q = quotes(snaps);
    assert(q.len() > 0) by {
        if q.len() == 0 {
            assert(snaps[first].bid_price <= 0 || snaps[first].ask_price <= 0);
        }
    }
    let i = choose|i: int| earliest_quote(snaps, i) && snaps[i] == q.first();
    let j = choose|j: int| final_quote(snaps, j) && snaps[j] == q.last();
    assert(i == first) by {
        if i < first {
            assert(snaps[i].bid_price <= 0 || snaps[i].ask_price <= 0);
        } else if first < i {
            assert(snaps[first].bid_price <= 0 || snaps[first].ask_price <= 0);
        }
    }
    assert(j == last) by {
        if j < last {
            assert(snaps[last].bid_price <= 0 || snaps[last].ask_price <= 0);
        } else if last < j {
            assert(snaps[j].bid_price <= 0 || snaps[j].ask_price <= 0);
        }
    }
    assert(snaps[first].timestamp as int / 60_000_000_000 <= snaps[last].timestamp as int
        / 60_000_000_000);
}

/// A run without a quote has no candle.
pub proof fn law_no_quotes_no_candles(snaps: Seq<L1Snapshot>, trades: Seq<TradeRecord>)
    requires
        forall|i: int|
            0 <= i < snaps.len() ==> (#[trigger] snaps[i]).bid_price <= 0 || snaps[i].ask_price
                <= 0,
    ensures
        candles_of(snaps, trades).len() == 0,
{
    lemma_quotes_ends(snaps);
    let q = quotes(snaps);
    if q.len() > 0 {
        let i = choose|i: int| earliest_quote(snaps, i) && snaps[i] == q.first();
        assert(snaps[i].bid_price <= 0 || snaps[i].ask_price <= 0);
    }
}

/// Notionals are refused only where the trades of one minute, up to one of
/// them, are worth more than fits.
pub proof fn law_notionals_that_fit_are_taken(trades: Seq<TradeRecord>)
    ensures
        notionals_fit(trades) <==> forall|n: int|
            0 < n <= trades.len() ==> i128::MIN <= worth_in(
                #[trigger] trades.take(n),
                trades[n - 1].timestamp as int / 60_000_000_000,
            ) <= i128::MAX,
    decreases trades.len(),
{
    if trades.len() > 0 {
        let init = trades.drop_last();
        let len = trades.len() as int;
        law_notionals_that_fit_are_taken(init);
        let minute = minute_of(trades.last().timestamp);
        lemma_totals_agree(trades, minute);
        assert(trades.take(len) =~= trades);
        assert forall|n: int| 0 < n <= init.len() implies #[trigger] init.take(n) == trades.take(
            n,
        ) by {
            assert(init.take(n) =~= trades.take(n));
        }
        if notionals_fit(trades) {
            assert forall|n: int| 0 < n <= trades.len() implies i128::MIN <= worth_in(
                #[trigger] trades.take(n),
                trades[n - 1].timestamp as int / 60_000_000_000,
            ) <= i128::MAX by {
                if n < len {
                    assert(init.take(n) == trades.take(n));
                    assert(init[n - 1] == trades[n - 1]);
                }
            }
        }
        if forall|n: int|
            0 < n <= trades.len() ==> i128::MIN <= worth_in(
                #[trigger] trades.take(n),
                trades[n - 1].timestamp as int / 60_000_000_000,
            ) <= i128::MAX {
            assert forall|n: int| 0 < n <= init.len() implies i128::MIN <= worth_in(
                #[trigger] init.take(n),
                init[n - 1].timestamp as int / 60_000_000_000,
            ) <= i128::MAX by {
                assert(init.take(n) == trades.take(n));
                assert(init[n - 1] == trades[n - 1]);
            }
            assert(trades[len - 1] == trades.last());
        }
    }
}

} // verus!
