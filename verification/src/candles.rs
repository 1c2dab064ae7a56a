//! One-minute candles of a run.

use crate::kernel::SimulationResult;
use crate::merge::time_ordered;
use crate::records::{L1Snapshot, TradeRecord};
use crate::types::Nanos;
use std::collections::HashMap;
use vstd::prelude::*;

verus! {

broadcast use vstd::std_specs::hash::group_hash_axioms;

/// Nanoseconds of a minute.
pub const ONE_MINUTE_NS: u64 = 60_000_000_000;

/// Per-minute prices and volumes. A price is twice the mid: the best bid plus
/// the best ask. The notional is the sum of price times quantity.
#[derive(Debug, Clone, Copy, PartialEq, Eq, Structural)]
pub struct MinuteCandle {
    pub open: u64,
    pub high: u64,
    pub low: u64,
    pub close: u64,
    pub volume: u128,
    pub notional: i128,
}

/// The minute of a time.
pub open spec fn minute_of(time: Nanos) -> u64 {
    time / ONE_MINUTE_NS
}

/// Both sides are quoted.
pub open spec fn is_quoted(snap: L1Snapshot) -> bool {
    snap.bid_price > 0 && snap.ask_price > 0
}

/// Twice the mid.
pub open spec fn mid2_of(snap: L1Snapshot) -> u64 {
    (snap.bid_price + snap.ask_price) as u64
}

/// The mids of the quotes in a minute.
pub open spec fn mids_in(snaps: Seq<L1Snapshot>, minute: u64) -> Seq<u64>
    decreases snaps.len(),
{
    if snaps.len() == 0 {
        Seq::empty()
    } else {
        let before = mids_in(snaps.drop_last(), minute);
        let snap = snaps.last();
        if is_quoted(snap) && minute_of(snap.timestamp) == minute {
            before.push(mid2_of(snap))
        } else {
            before
        }
    }
}

/// The mid of the last quote up to the end of a minute.
pub open spec fn close_by(snaps: Seq<L1Snapshot>, minute: u64) -> Option<u64>
    decreases snaps.len(),
{
    if snaps.len() == 0 {
        None
    } else {
        let snap = snaps.last();
        if is_quoted(snap) && minute_of(snap.timestamp) <= minute {
            Some(mid2_of(snap))
        } else {
            close_by(snaps.drop_last(), minute)
        }
    }
}

/// The quotes, without the one-sided snapshots.
pub open spec fn quotes(snaps: Seq<L1Snapshot>) -> Seq<L1Snapshot> {
    snaps.filter(|snap: L1Snapshot| is_quoted(snap))
}

/// The largest of some numbers.
pub open spec fn largest(numbers: Seq<u64>) -> u64
    decreases numbers.len(),
{
    if numbers.len() <= 1 {
        numbers[0]
    } else {
        let before = largest(numbers.drop_last());
        if numbers.last() > before {
            numbers.last()
        } else {
            before
        }
    }
}

/// The smallest of some numbers.
pub open spec fn smallest(numbers: Seq<u64>) -> u64
    decreases numbers.len(),
{
    if numbers.len() <= 1 {
        numbers[0]
    } else {
        let before = smallest(numbers.drop_last());
        if numbers.last() < before {
            numbers.last()
        } else {
            before
        }
    }
}

/// The quantity traded in a minute.
pub open spec fn qty_in(trades: Seq<TradeRecord>, minute: u64) -> int
    decreases trades.len(),
{
    if trades.len() == 0 {
        0
    } else {
        let trade = trades.last();
        qty_in(trades.drop_last(), minute) + if minute_of(trade.timestamp) == minute {
            trade.qty as int
        } else {
            0
        }
    }
}

/// The notional traded in a minute.
pub open spec fn notional_in(trades: Seq<TradeRecord>, minute: u64) -> int
    decreases trades.len(),
{
    if trades.len() == 0 {
        0
    } else {
        let trade = trades.last();
        notional_in(trades.drop_last(), minute) + if minute_of(trade.timestamp) == minute {
            trade.price * trade.qty
        } else {
            0
        }
    }
}

/// The notional of every minute fits in 128 bits, at every trade.
pub open spec fn notionals_fit(trades: Seq<TradeRecord>) -> bool
    decreases trades.len(),
{
    trades.len() == 0 || (notionals_fit(trades.drop_last()) && i128::MIN <= notional_in(
        trades,
        minute_of(trades.last().timestamp),
    ) <= i128::MAX)
}

/// The candle of a minute. Its volume and notional are what was traded in the
/// minute, whether or not it has a quote; a minute without a quote holds the
/// close before it.
pub open spec fn candle_at(
    snaps: Seq<L1Snapshot>,
    trades: Seq<TradeRecord>,
    minute: u64,
) -> MinuteCandle {
    let mids = mids_in(snaps, minute);
    let volume = qty_in(trades, minute) as u128;
    let notional = notional_in(trades, minute) as i128;
    if mids.len() > 0 {
        MinuteCandle {
            open: mids[0],
            high: largest(mids),
            low: smallest(mids),
            close: mids.last(),
            volume,
            notional,
        }
    } else {
        let close = match close_by(snaps, minute) {
            Some(mid2) => mid2,
            None => 0,
        };
        MinuteCandle { open: close, high: close, low: close, close, volume, notional }
    }
}

/// The candles from the minute of the first quote to that of the last.
pub open spec fn candles_of(
    snaps: Seq<L1Snapshot>,
    trades: Seq<TradeRecord>,
) -> Seq<MinuteCandle> {
    let quotes = quotes(snaps);
    if quotes.len() == 0 {
        Seq::empty()
    } else {
        let first = minute_of(quotes.first().timestamp);
        let last = minute_of(quotes.last().timestamp);
        Seq::new(
            (last - first + 1) as nat,
            |i: int| candle_at(snaps, trades, (first + i) as u64),
        )
    }
}

/// The prices of a minute that has a quote.
#[derive(Clone, Copy)]
struct Bar {
    minute: u64,
    open: u64,
    high: u64,
    low: u64,
    close: u64,
}

/// The bar is that of its minute.
spec fn is_bar_of(bar: Bar, snaps: Seq<L1Snapshot>) -> bool {
    let mids = mids_in(snaps, bar.minute);
    &&& mids.len() > 0
    &&& bar.open == mids[0]
    &&& bar.high == largest(mids)
    &&& bar.low == smallest(mids)
    &&& bar.close == mids.last()
}

/// There is a bar of the minute.
spec fn has_bar(bars: Seq<Bar>, minute: u64) -> bool {
    exists|j: int| 0 <= j < bars.len() && (#[trigger] bars[j]).minute == minute
}

/// The minute comes after the bar and before the next one.
spec fn follows(bars: Seq<Bar>, j: int, minute: u64) -> bool {
    &&& 0 <= j < bars.len()
    &&& bars[j].minute <= minute
    &&& j + 1 < bars.len() ==> minute < bars[j + 1].minute
}

/// The bars are those of the quotes.
spec fn are_bars_of(bars: Seq<Bar>, snaps: Seq<L1Snapshot>) -> bool {
    &&& forall|i: int, j: int|
        0 <= i < j < bars.len() ==> (#[trigger] bars[i]).minute < (#[trigger] bars[j]).minute
    &&& forall|j: int| 0 <= j < bars.len() ==> #[trigger] is_bar_of(bars[j], snaps)
    &&& forall|minute: u64|
        #![trigger mids_in(snaps, minute)]
        mids_in(snaps, minute).len() > 0 ==> has_bar(bars, minute)
    &&& forall|j: int, minute: u64| #[trigger]
        follows(bars, j, minute) ==> close_by(snaps, minute) == Some(bars[j].close)
    &&& (bars.len() == 0) == (quotes(snaps).len() == 0)
    &&& bars.len() > 0 ==> {
        &&& bars.first().minute == minute_of(quotes(snaps).first().timestamp)
        &&& bars.last().minute == minute_of(quotes(snaps).last().timestamp)
    }
}

/// The quotes after one more snapshot.
proof fn lemma_quotes_push(snaps: Seq<L1Snapshot>, snap: L1Snapshot)
    ensures
        quotes(snaps.push(snap)) == if is_quoted(snap) {
            quotes(snaps).push(snap)
        } else {
            quotes(snaps)
        },
{
    let more = snaps.push(snap);
    assert(more.drop_last() =~= snaps);
    reveal(Seq::filter);
}

/// A quoted snapshot goes into the last bar or opens a new one.
fn add_quote(bars: &mut Vec<Bar>, snap: &L1Snapshot, snaps: Ghost<Seq<L1Snapshot>>)
    requires
        are_bars_of(old(bars)@, snaps@),
        is_quoted(*snap),
        old(bars)@.len() > 0 ==> old(bars)@.last().minute <= minute_of(snap.timestamp),
    ensures
        are_bars_of(final(bars)@, snaps@.push(*snap)),
{
    let mid2: u64 = snap.bid_price as u64 + snap.ask_price as u64;
    let minute: u64 = snap.timestamp / ONE_MINUTE_NS;
    let len: usize = bars.len();
    let ghost before = bars@;
    let ghost more = snaps@.push(*snap);
    proof {
        assert(more.drop_last() =~= snaps@);
        lemma_quotes_push(snaps@, *snap);
    }
    if len > 0 && bars[len - 1].minute == minute {
        let mut bar = bars[len - 1];
        let ghost old_mids = mids_in(snaps@, minute);
        let ghost mids = mids_in(more, minute);
        proof {
            assert(is_bar_of(before[len - 1], snaps@));
            assert(mids.drop_last() =~= old_mids);
        }
        if mid2 > bar.high {
            bar.high = mid2;
        }
        if mid2 < bar.low {
            bar.low = mid2;
        }
        bar.close = mid2;
        bars.set(len - 1, bar);
        assert(is_bar_of(bar, more));
    } else {
        bars.push(Bar { minute, open: mid2, high: mid2, low: mid2, close: mid2 });
        proof {
            if mids_in(snaps@, minute).len() > 0 {
                assert(has_bar(before, minute));
            }
            assert(mids_in(more, minute) =~= seq![mid2]);
        }
    }
    proof {
        let after = bars@;
        assert forall|j: int| 0 <= j < after.len() implies #[trigger] is_bar_of(after[j], more) by {
            if j < after.len() - 1 {
                assert(after[j] == before[j]);
                assert(is_bar_of(before[j], snaps@));
            }
        }
        assert forall|m: u64|
            #![trigger mids_in(more, m)]
            mids_in(more, m).len() > 0 implies has_bar(after, m) by {
            if m == minute {
                assert(after[after.len() - 1].minute == m);
            } else {
                assert(mids_in(snaps@, m).len() > 0);
                let j = choose|j: int| 0 <= j < before.len() && (#[trigger] before[j]).minute == m;
                assert(after[j].minute == m);
            }
        }
        assert forall|j: int, m: u64| #[trigger] follows(after, j, m) implies close_by(more, m)
            == Some(after[j].close) by {
            if m < minute {
                assert(j < after.len() - 1);
                assert(after[j] == before[j]);
                assert(follows(before, j, m));
            } else {
                assert(j == after.len() - 1);
            }
        }
    }
}

/// The bars of the minutes that have a quote.
fn bars_of(snaps: &Vec<L1Snapshot>) -> (bars: Vec<Bar>)
    requires
        time_ordered(snaps@),
    ensures
        are_bars_of(bars@, snaps@),
{
    let mut bars: Vec<Bar> = Vec::new();
    proof {
        reveal(Seq::filter);
        assert(snaps@.take(0) =~= Seq::<L1Snapshot>::empty());
    }
    for i in 0..snaps.len()
        invariant
            time_ordered(snaps@),
            are_bars_of(bars@, snaps@.take(i as int)),
            bars@.len() > 0 ==> (exists|k: int|
                0 <= k < i && minute_of((#[trigger] snaps@[k]).timestamp) == bars@.last().minute),
    {
        let snap = snaps[i];
        let ghost done = snaps@.take(i as int);
        let ghost more = snaps@.take(i + 1);
        proof {
            assert(more =~= done.push(snap));
        }
        if snap.bid_price > 0 && snap.ask_price > 0 {
            proof {
                if bars@.len() > 0 {
                    let k = choose|k: int|
                        0 <= k < i && minute_of((#[trigger] snaps@[k]).timestamp)
                            == bars@.last().minute;
                    lemma_minutes_ordered(snaps@[k].timestamp, snaps@[i as int].timestamp);
                }
            }
            add_quote(&mut bars, &snap, Ghost(done));
            proof {
                lemma_quotes_push(done, snap);
                assert(bars@.last().minute == minute_of(snaps@[i as int].timestamp));
            }
        } else {
            proof {
                lemma_unquoted(bars@, done, snap);
            }
        }
    }
    assert(snaps@.take(snaps@.len() as int) =~= snaps@);
    bars
}

/// A later time is in the same minute or a later one.
proof fn lemma_minutes_ordered(earlier: Nanos, later: Nanos)
    requires
        earlier <= later,
    ensures
        minute_of(earlier) <= minute_of(later),
{
    assert(earlier as int / ONE_MINUTE_NS as int <= later as int / ONE_MINUTE_NS as int);
}

/// A one-sided snapshot changes no bar.
proof fn lemma_unquoted(bars: Seq<Bar>, snaps: Seq<L1Snapshot>, snap: L1Snapshot)
    requires
        are_bars_of(bars, snaps),
        !is_quoted(snap),
    ensures
        are_bars_of(bars, snaps.push(snap)),
{
    let more = snaps.push(snap);
    assert(more.drop_last() =~= snaps);
    lemma_quotes_push(snaps, snap);
    assert(forall|minute: u64| #[trigger]
        mids_in(more, minute) == mids_in(snaps, minute) && close_by(more, minute) == close_by(
            snaps,
            minute,
        ));
    assert forall|j: int| 0 <= j < bars.len() implies #[trigger] is_bar_of(bars[j], more) by {
        assert(is_bar_of(bars[j], snaps));
    }
    assert forall|j: int, minute: u64| #[trigger] follows(bars, j, minute) implies close_by(
        more,
        minute,
    ) == Some(bars[j].close) by {
        assert(mids_in(more, minute) == mids_in(snaps, minute));
    }
}

/// The quantity of some trades fits in 128 bits.
proof fn lemma_qty_fits(trades: Seq<TradeRecord>, minute: u64)
    ensures
        0 <= qty_in(trades, minute) <= trades.len() * u64::MAX,
    decreases trades.len(),
{
    if trades.len() > 0 {
        lemma_qty_fits(trades.drop_last(), minute);
        assert(trades.len() * u64::MAX == (trades.len() - 1) * u64::MAX + u64::MAX)
            by (nonlinear_arith);
    }
}

/// A prefix of trades whose notionals fit has notionals that fit.
proof fn lemma_fit_prefix(trades: Seq<TradeRecord>, n: int)
    requires
        notionals_fit(trades),
        0 <= n <= trades.len(),
    ensures
        notionals_fit(trades.take(n)),
    decreases trades.len(),
{
    if n < trades.len() {
        lemma_fit_prefix(trades.drop_last(), n);
        assert(trades.drop_last().take(n) =~= trades.take(n));
    } else {
        assert(trades.take(n) =~= trades);
    }
}

/// What a minute traded.
spec fn are_totals_of(totals: Map<u64, (u128, i128)>, trades: Seq<TradeRecord>) -> bool {
    forall|minute: u64|
        #![trigger totals.contains_key(minute)]
        #![trigger qty_in(trades, minute)]
        if totals.contains_key(minute) {
            totals[minute].0 == qty_in(trades, minute) && totals[minute].1 == notional_in(
                trades,
                minute,
            )
        } else {
            qty_in(trades, minute) == 0 && notional_in(trades, minute) == 0
        }
}

/// Adds a trade to the totals of its minute.
fn add_trade(
    totals: &mut HashMap<u64, (u128, i128)>,
    trade: &TradeRecord,
    trades: Ghost<Seq<TradeRecord>>,
) -> (ok: bool)
    requires
        are_totals_of(old(totals)@, trades@),
        trades@.len() < usize::MAX,
    ensures
        ok == (i128::MIN <= notional_in(trades@.push(*trade), minute_of(trade.timestamp))
            <= i128::MAX),
        ok ==> are_totals_of(final(totals)@, trades@.push(*trade)),
{
    let minute: u64 = trade.timestamp / ONE_MINUTE_NS;
    let ghost more = trades@.push(*trade);
    let (volume, notional): (u128, i128) = match totals.get(&minute) {
        Some(total) => *total,
        None => (0, 0),
    };
    proof {
        assert(more.drop_last() =~= trades@);
        assert(totals@.contains_key(minute) || qty_in(trades@, minute) == 0);
        lemma_qty_fits(more, minute);
        assert(more.len() * u64::MAX <= usize::MAX * u64::MAX) by (nonlinear_arith)
            requires
                more.len() <= usize::MAX,
        ;
        assert(usize::MAX * u64::MAX <= u128::MAX) by (nonlinear_arith)
            requires
                usize::MAX <= 0xffff_ffff_ffff_ffff,
        ;
        assert(i128::MIN <= trade.price * trade.qty <= i128::MAX) by (nonlinear_arith)
            requires
                -0x8000_0000_0000_0000 <= trade.price <= 0x7fff_ffff_ffff_ffff,
                0 <= trade.qty <= 0xffff_ffff_ffff_ffff,
        ;
    }
    let value: i128 = trade.price as i128 * trade.qty as i128;
    match notional.checked_add(value) {
        Some(sum) => {
            totals.insert(minute, (volume + trade.qty as u128, sum));
            proof {
                assert forall|m: u64| m != minute implies qty_in(more, m) == qty_in(trades@, m)
                    && notional_in(more, m) == notional_in(trades@, m) by {}
            }
            true
        },
        None => false,
    }
}

/// What each minute traded, unless a notional does not fit.
fn totals_of(trades: &Vec<TradeRecord>) -> (totals: Option<HashMap<u64, (u128, i128)>>)
    ensures
        totals is Some <==> notionals_fit(trades@),
        totals matches Some(totals) ==> are_totals_of(totals@, trades@),
{
    let mut totals: HashMap<u64, (u128, i128)> = HashMap::new();
    assert(trades@.take(0) =~= Seq::<TradeRecord>::empty());
    for i in 0..trades.len()
        invariant
            notionals_fit(trades@.take(i as int)),
            are_totals_of(totals@, trades@.take(i as int)),
    {
        let trade = trades[i];
        let ghost done = trades@.take(i as int);
        let ghost more = trades@.take(i + 1);
        proof {
            assert(more =~= done.push(trade));
            assert(more.drop_last() =~= done);
        }
        if !add_trade(&mut totals, &trade, Ghost(done)) {
            proof {
                if notionals_fit(trades@) {
                    lemma_fit_prefix(trades@, i + 1);
                }
            }
            return None;
        }
    }
    assert(trades@.take(trades@.len() as int) =~= trades@);
    Some(totals)
}

/// Compute 1-minute candles from a run.
///
/// Uses the mid price for open, high, low and close.
/// Forward-fills the prices of minutes with no quote. `None` if the notional of a minute does
/// not fit in 128 bits.
#[must_use]
pub fn compute_year_candles(result: &SimulationResult) -> (candles: Option<Vec<MinuteCandle>>)
    requires
        time_ordered(result.l1_snapshots@),
    ensures
        candles is Some <==> notionals_fit(result.trades@) || quotes(
            result.l1_snapshots@,
        ).len() == 0,
        candles matches Some(candles) ==> candles@ == candles_of(
            result.l1_snapshots@,
            result.trades@,
        ),
{
    let ghost snaps = result.l1_snapshots@;
    let ghost trades = result.trades@;
    let bars = bars_of(&result.l1_snapshots);
    let mut candles: Vec<MinuteCandle> = Vec::new();
    if bars.len() == 0 {
        return Some(candles);
    }
    let totals = match totals_of(&result.trades) {
        Some(totals) => totals,
        None => {
            return None;
        },
    };
    let first: u64 = bars[0].minute;
    let last: u64 = bars[bars.len() - 1].minute;
    let mut minute: u64 = first;
    let mut idx: usize = 0;
    while idx < bars.len()
        invariant
            are_bars_of(bars@, snaps),
            are_totals_of(totals@, trades),
            bars@.len() > 0,
            first == bars@.first().minute,
            last == bars@.last().minute,
            last < u64::MAX,
            first <= minute,
            idx <= bars@.len(),
            idx == 0 ==> minute == first,
            idx > 0 ==> bars@[idx - 1].minute < minute,
            idx < bars@.len() ==> minute <= bars@[idx as int].minute,
            idx == bars@.len() ==> minute == last + 1,
            candles@.len() == minute - first,
            forall|i: int|
                0 <= i < minute - first ==> #[trigger] candles@[i] == candle_at(
                    snaps,
                    trades,
                    (first + i) as u64,
                ),
        decreases last + 1 - minute,
    {
        let (volume, notional): (u128, i128) = match totals.get(&minute) {
            Some(total) => *total,
            None => (0, 0),
        };
        proof {
            assert(bars@[idx as int].minute <= last);
            assert(totals@.contains_key(minute) || qty_in(trades, minute) == 0);
        }
        if bars[idx].minute == minute {
            let bar = bars[idx];
            assert(is_bar_of(bars@[idx as int], snaps));
            candles.push(
                MinuteCandle {
                    open: bar.open,
                    high: bar.high,
                    low: bar.low,
                    close: bar.close,
                    volume,
                    notional,
                },
            );
            idx = idx + 1;
        } else {
            let close: u64 = bars[idx - 1].close;
            proof {
                assert(!has_bar(bars@, minute));
                assert(mids_in(snaps, minute).len() == 0);
                assert(follows(bars@, idx - 1, minute));
            }
            candles.push(
                MinuteCandle { open: close, high: close, low: close, close, volume, notional },
            );
        }
        minute = minute + 1;
    }
    assert(candles@ =~= candles_of(snaps, trades));
    Some(candles)
}

} // verus!
