//! What the agents do, told from what they heard and saw.

use crate::agent::{Agent, AgentAction, Call};
use crate::event::{ExchangeMessage, OrderAction};
use crate::latency::{base_of, Latency, LatencyModel};
use crate::market_maker_agent::{
    inventory_after, is_geometric_mid, is_geometric_mid_at, is_nearest_root, market_maker_actions,
    market_maker_inventory, market_maker_resting, quote_actions, MarketMakerAgent,
    MarketMakerTraits,
};
use crate::order::Side;
use crate::samplers::{FixedIntervalWakeup, Ladder, MovingAverage, Quote, WakeupSampler};
use crate::trend_following_agent::{
    moving_average, price_sum, spec_should_trade, traded, trend_actions, trend_candles,
    trend_resting, trend_side, Candles, TrendDraw, TrendFollowingAgent, TrendFollowingConfig,
    TrendTraits,
};
use crate::types::{AgentId, MarketSnapshot, Nanos, Symbol};
use crate::utils::{
    accepts, ends, every_wakeup, law_outstanding_orders_are_known, outstanding, spec_mid_at,
    spec_mid_price,
};
use crate::zi_agent::{zi_actions, zi_resting, ZiAgent, ZiDraw, ZiTraits};
use vstd::prelude::*;

verus! {

/// The quantity of the fills of one side that an agent heard of.
pub open spec fn heard_filled(past: Seq<Call>, side: Side) -> int
    decreases past.len(),
{
    if past.len() == 0 {
        0
    } else {
        heard_filled(past.drop_first(), side) + match past[0] {
            Call::Heard {
                message: ExchangeMessage::OrderFilled { side: own, qty, .. },
                ..
            } => if own == side {
                qty as int
            } else {
                0
            },
            _ => 0,
        }
    }
}

proof fn lemma_heard_push(past: Seq<Call>, side: Side)
    requires
        past.len() > 0,
    ensures
        heard_filled(past, side) == heard_filled(past.drop_last(), side) + match past.last() {
            Call::Heard {
                message: ExchangeMessage::OrderFilled { side: own, qty, .. },
                ..
            } => if own == side {
                qty as int
            } else {
                0
            },
            _ => 0,
        },
        heard_filled(past.drop_last(), side) >= 0,
        heard_filled(past, side) >= 0,
    decreases past.len(),
{
    if past.len() == 1 {
        assert(past.drop_first() =~= Seq::<Call>::empty());
        assert(past.drop_last() =~= Seq::<Call>::empty());
    } else {
        lemma_heard_push(past.drop_first(), side);
        assert(past.drop_first().drop_last() =~= past.drop_last().drop_first());
        assert(past.drop_first().last() == past.last());
        assert(past.drop_last()[0] == past[0]);
    }
}

/// The inventory of a market maker is what its bids were filled for less what
/// its asks were, over all fills that it heard of, whether or not a part of
/// the order still rests. Nothing else moves it.
pub proof fn law_the_inventory_is_what_was_bought_less_what_was_sold(past: Seq<Call>)
    requires
        heard_filled(past, Side::Bid) + heard_filled(past, Side::Ask) <= i128::MAX,
    ensures
        market_maker_inventory(past) == heard_filled(past, Side::Bid) - heard_filled(
            past,
            Side::Ask,
        ),
    decreases past.len(),
{
    if past.len() > 0 {
        lemma_heard_push(past, Side::Bid);
        lemma_heard_push(past, Side::Ask);
        law_the_inventory_is_what_was_bought_less_what_was_sold(past.drop_last());
    }
}

/// A fill moves the inventory by its quantity, up for a bid and down for an
/// ask, or to the end of the range where that does not fit. No other message
/// moves it.
pub proof fn law_a_fill_moves_the_inventory_by_its_quantity(
    inventory: i128,
    message: ExchangeMessage,
)
    ensures
        message matches ExchangeMessage::OrderFilled { side, qty, .. } ==> {
            let exact = if side == Side::Bid {
                inventory + qty
            } else {
                inventory - qty
            };
            let after = inventory_after(inventory, message);
            &&& i128::MIN <= exact <= i128::MAX ==> after == exact
            &&& exact > i128::MAX ==> after == i128::MAX
            &&& exact < i128::MIN ==> after == i128::MIN
        },
        !(message is OrderFilled) ==> inventory_after(inventory, message) == inventory,
{
}

/// The mid of a market maker lies between positive best prices, and is the
/// whole number nearest to the root of their product: a half more would be too
/// much, a half less too little. Without one side it is the other, and without
/// both the reference.
pub proof fn law_the_geometric_mid_is_the_nearest_root(
    snap: MarketSnapshot,
    reference: i64,
    mid: i64,
)
    requires
        is_geometric_mid(snap, reference, mid),
    ensures
        match (snap.best_bid, snap.best_ask) {
            (Some((bid, _)), Some((ask, _))) => {
                &&& 0 < bid <= ask ==> {
                    &&& bid <= mid <= ask
                    &&& (2 * mid - 1) * (2 * mid - 1) <= 4 * (bid * ask)
                    &&& 4 * (bid * ask) < (2 * mid + 1) * (2 * mid + 1)
                }
                &&& bid * ask < 0 ==> mid == 0
                &&& bid == ask && bid >= 0 ==> mid == bid
            },
            (Some((bid, _)), None) => mid == bid,
            (None, Some((ask, _))) => mid == ask,
            (None, None) => mid == reference,
        },
{
    if let (Some((bid, _)), Some((ask, _))) = (snap.best_bid, snap.best_ask) {
        let (b, a, m) = (bid as int, ask as int, mid as int);
        if 0 <= b <= a {
            assert(b * a >= b * b && b * a <= a * a) by (nonlinear_arith)
                requires
                    0 <= b <= a,
            ;
            assert(b * a >= 0);
            lemma_root_bounds(m, b * a, b, a);
            lemma_root_bounds(m + 1, b * a, b, a);
            if b == a {
                lemma_root_bounds(m, b * a, b, b);
                lemma_root_bounds(m + 1, b * a, b, b);
            }
        }
    }
}

/// A nearest root of a number between two squares lies between their roots.
proof fn lemma_root_bounds(root: int, square: int, low: int, high: int)
    requires
        0 <= low <= high,
        low * low <= square <= high * high,
    ensures
        is_nearest_root(root, square) ==> low <= root <= high,
{
    if is_nearest_root(root, square) {
        if root < low {
            assert((2 * root + 1) * (2 * root + 1) <= 4 * (low * low)) by (nonlinear_arith)
                requires
                    0 <= root < low,
            ;
        }
        if root > high {
            assert((2 * root - 1) * (2 * root - 1) > 4 * (high * high)) by (nonlinear_arith)
                requires
                    0 <= high < root,
            ;
        }
    }
}

/// A quote is placed unless it has no quantity or, for a bid, a price below
/// one tick.
pub open spec fn worth_quoting(side: Side, quote: Quote) -> bool {
    match side {
        Side::Bid => quote.qty > 0 && quote.price > 0,
        Side::Ask => quote.qty > 0,
    }
}

/// A limit order for a quote, without a tag.
pub open spec fn order_for(symbol: Symbol, side: Side, quote: Quote) -> AgentAction {
    AgentAction::SubmitOrder {
        symbol,
        order: OrderAction::NewLimitOrder {
            side,
            price: quote.price,
            qty: quote.qty,
            user_id: 0,
        },
    }
}

/// The quotes of one side become limit orders of that side, one for each that
/// is worth quoting, in their order and at their prices and quantities.
pub proof fn law_quotes_become_orders(symbol: Symbol, side: Side, quotes: Seq<Quote>)
    ensures
        quote_actions(symbol, side, quotes) == quotes.filter(
            |quote: Quote| worth_quoting(side, quote),
        ).map_values(|quote: Quote| order_for(symbol, side, quote)),
    decreases quotes.len(),
{
    reveal(Seq::filter);
    let keep = |quote: Quote| worth_quoting(side, quote);
    let turn = |quote: Quote| order_for(symbol, side, quote);
    if quotes.len() == 0 {
        assert(quote_actions(symbol, side, quotes) =~= quotes.filter(keep).map_values(turn));
    } else {
        law_quotes_become_orders(symbol, side, quotes.drop_last());
        assert(quote_actions(symbol, side, quotes) =~= quotes.filter(keep).map_values(turn));
    }
}

/// The actions begin with a cancel of each of these orders.
pub open spec fn cancels_first(actions: Seq<AgentAction>, symbol: Symbol, ids: Seq<u64>) -> bool {
    &&& actions.len() >= ids.len()
    &&& forall|i: int|
        0 <= i < ids.len() ==> #[trigger] actions[i] == (AgentAction::CancelOrder {
            symbol,
            order_id: ids[i],
        })
}

/// A market maker's wakeup as a whole: it cancels each outstanding order once,
/// then places the bids and then the asks that its model may draw at the
/// geometric mid and at the inventory, and then schedules one wakeup.
pub proof fn law_a_maker_cancels_quotes_and_schedules(traits: MarketMakerTraits, past: Seq<Call>)
    requires
        traits.may_end(past),
    ensures
        past.last() matches Call::Woke { time, agent_id, snapshots, actions } && {
            let before = past.drop_last();
            &&& exists|ids: Seq<u64>, ladder: Ladder, mid: i64, delay_ns: u64| #[trigger]
                maker_wakeup(traits, before, snapshots, actions, ids, ladder, mid, delay_ns)
        },
{
    let before = past.drop_last();
    if let Call::Woke { time, agent_id, snapshots, actions } = past.last() {
        let (mid, ladder, delay_ns) = choose|mid: i64, ladder: Ladder, delay_ns: u64| #[trigger]
            traits.may_draw(mid, market_maker_inventory(before), ladder, delay_ns)
                && is_geometric_mid_at(snapshots, traits.symbol, traits.reference, mid) && actions
                == market_maker_actions(
                traits.symbol,
                market_maker_resting(before).items,
                ladder.bids@,
                ladder.asks@,
                delay_ns,
            );
        let ids = market_maker_resting(before).items;
        assert forall|id: u64| ids.contains(id) <==> #[trigger] outstanding(
            before,
            every_wakeup(),
            id,
        ) by {
            law_outstanding_orders_are_known(before, every_wakeup(), id);
        }
        law_outstanding_orders_are_known(before, every_wakeup(), 0);
        law_quotes_become_orders(traits.symbol, Side::Bid, ladder.bids@);
        law_quotes_become_orders(traits.symbol, Side::Ask, ladder.asks@);
        let bids = ladder.bids@.filter(|quote: Quote| worth_quoting(Side::Bid, quote));
        let asks = ladder.asks@.filter(|quote: Quote| worth_quoting(Side::Ask, quote));
        if heard_filled(before, Side::Bid) + heard_filled(before, Side::Ask) <= i128::MAX {
            law_the_inventory_is_what_was_bought_less_what_was_sold(before);
        }
        assert forall|k: int| 0 <= k < bids.len() implies #[trigger] actions[ids.len() + k]
            == order_for(traits.symbol, Side::Bid, bids[k]) by {}
        assert forall|k: int| 0 <= k < asks.len() implies #[trigger] actions[ids.len() + bids.len()
            + k] == order_for(traits.symbol, Side::Ask, asks[k]) by {}
        assert(maker_wakeup(traits, before, snapshots, actions, ids, ladder, mid, delay_ns));
    }
}

/// What a market maker does on a wakeup, with this ladder and delay drawn.
pub open spec fn maker_wakeup(
    traits: MarketMakerTraits,
    before: Seq<Call>,
    snapshots: Seq<MarketSnapshot>,
    actions: Seq<AgentAction>,
    ids: Seq<u64>,
    ladder: Ladder,
    mid: i64,
    delay_ns: u64,
) -> bool {
    let bids = ladder.bids@.filter(|quote: Quote| worth_quoting(Side::Bid, quote));
    let asks = ladder.asks@.filter(|quote: Quote| worth_quoting(Side::Ask, quote));
    let (n, m) = (ids.len() as int, ids.len() + bids.len());
    &&& ids.no_duplicates()
    &&& forall|id: u64| ids.contains(id) <==> #[trigger] outstanding(before, every_wakeup(), id)
    &&& cancels_first(actions, traits.symbol, ids)
    &&& forall|k: int|
        0 <= k < bids.len() ==> #[trigger] actions[n + k] == order_for(
            traits.symbol,
            Side::Bid,
            bids[k],
        )
    &&& forall|k: int|
        0 <= k < asks.len() ==> #[trigger] actions[m + k] == order_for(
            traits.symbol,
            Side::Ask,
            asks[k],
        )
    &&& actions.len() == m + asks.len() + 1
    &&& actions.last() == (AgentAction::ScheduleWakeUp { delay_ns })
    &&& (traits.delays)(delay_ns)
    &&& if traits.symbol < snapshots.len() {
        is_geometric_mid(snapshots[traits.symbol as int], traits.reference, mid)
    } else {
        mid == traits.reference
    }
    &&& heard_filled(before, Side::Bid) + heard_filled(before, Side::Ask) <= i128::MAX
        ==> (traits.ladders)(
        mid,
        (heard_filled(before, Side::Bid) - heard_filled(before, Side::Ask)) as i128,
        ladder.bids@,
        ladder.asks@,
    )
}

/// The mid price lies within half a tick of the middle of the two best prices
/// and is even where it has to round; without one side it is the other, and
/// without both the reference.
pub proof fn law_the_mid_price_lies_in_the_middle(snap: MarketSnapshot, reference: i64)
    ensures
        ({
            let mid = spec_mid_price(snap, reference);
            match (snap.best_bid, snap.best_ask) {
                (Some((bid, _)), Some((ask, _))) => {
                    &&& -1 <= 2 * mid - (bid + ask) <= 1
                    &&& 2 * mid != bid + ask ==> mid as int % 2 == 0
                },
                (Some((bid, _)), None) => mid == bid,
                (None, Some((ask, _))) => mid == ask,
                (None, None) => mid == reference,
            }
        }),
{
}

/// An agent sees the market of its own symbol: the mid is that of the snapshot
/// at the place of the symbol, and the reference where there is none.
pub proof fn law_an_agent_sees_its_own_market(
    snapshots: Seq<MarketSnapshot>,
    symbol: Symbol,
    reference: i64,
)
    ensures
        symbol < snapshots.len() ==> spec_mid_at(snapshots, symbol, reference) == spec_mid_price(
            snapshots[symbol as int],
            reference,
        ),
        symbol >= snapshots.len() ==> spec_mid_at(snapshots, symbol, reference) == reference,
{
}

/// The actions of a zero-intelligence wakeup: one limit order of the values
/// drawn, behind the cancels, without a tag, and then one wakeup.
pub proof fn law_a_draw_becomes_one_order(symbol: Symbol, resting: Seq<u64>, draw: ZiDraw)
    ensures
        ({
            let actions = zi_actions(symbol, resting, draw);
            let n = resting.len() as int;
            &&& cancels_first(actions, symbol, resting)
            &&& actions.len() == n + 2
            &&& actions[n] == order_for(
                symbol,
                draw.side,
                (Quote { price: draw.price, qty: draw.qty }),
            )
            &&& actions[n + 1] == (AgentAction::ScheduleWakeUp { delay_ns: draw.delay_ns })
        }),
{
}

/// What a zero-intelligence agent does on a wakeup, with these values drawn:
/// it cancels its outstanding orders, places the one order, and schedules the
/// wakeup. The price is drawn at the mid of its market, or at its reference
/// where it sees no market.
pub open spec fn zi_wakeup(
    traits: ZiTraits,
    before: Seq<Call>,
    snapshots: Seq<MarketSnapshot>,
    actions: Seq<AgentAction>,
    ids: Seq<u64>,
    draw: ZiDraw,
) -> bool {
    let n = ids.len() as int;
    &&& ids.no_duplicates()
    &&& forall|id: u64| ids.contains(id) <==> #[trigger] outstanding(before, every_wakeup(), id)
    &&& cancels_first(actions, traits.symbol, ids)
    &&& actions.len() == n + 2
    &&& actions[n] == order_for(
        traits.symbol,
        draw.side,
        (Quote { price: draw.price, qty: draw.qty }),
    )
    &&& actions[n + 1] == (AgentAction::ScheduleWakeUp { delay_ns: draw.delay_ns })
    &&& (traits.sizes)(draw.qty)
    &&& (traits.delays)(draw.delay_ns)
    &&& if traits.symbol < snapshots.len() {
        (traits.prices)(
            spec_mid_price(snapshots[traits.symbol as int], traits.reference),
            draw.price,
        )
    } else {
        (traits.prices)(traits.reference, draw.price)
    }
}

/// A zero-intelligence agent does nothing else on a wakeup.
pub proof fn law_a_zero_intelligence_agent_trades_on_its_draw(traits: ZiTraits, past: Seq<Call>)
    requires
        traits.may_end(past),
    ensures
        past.len() > 0,
        past.last() matches Call::Woke { time, agent_id, snapshots, actions } && exists|
            ids: Seq<u64>,
            draw: ZiDraw,
        | #[trigger]
            zi_wakeup(traits, past.drop_last(), snapshots, actions, ids, draw),
{
    let before = past.drop_last();
    if let Call::Woke { time, agent_id, snapshots, actions } = past.last() {
        let ids = zi_resting(before).items;
        let draw = choose|draw: ZiDraw| #[trigger] traits.acts_on(ids, snapshots, draw, actions);
        law_a_draw_becomes_one_order(traits.symbol, ids, draw);
        assert forall|id: u64| ids.contains(id) <==> #[trigger] outstanding(
            before,
            every_wakeup(),
            id,
        ) by {
            law_outstanding_orders_are_known(before, every_wakeup(), id);
        }
        law_outstanding_orders_are_known(before, every_wakeup(), 0);
        assert(zi_wakeup(traits, before, snapshots, actions, ids, draw));
    }
}

proof fn lemma_price_sum_front(prices: Seq<i64>)
    requires
        prices.len() > 0,
    ensures
        price_sum(prices) == prices[0] + price_sum(prices.drop_first()),
    decreases prices.len(),
{
    if prices.len() == 1 {
        assert(prices.drop_first() =~= Seq::<i64>::empty());
        assert(prices.drop_last() =~= Seq::<i64>::empty());
        assert(price_sum(prices.drop_last()) == 0);
    } else {
        lemma_price_sum_front(prices.drop_last());
        assert(prices.drop_last().drop_first() =~= prices.drop_first().drop_last());
        assert(prices.drop_first().last() == prices.last());
    }
}

proof fn lemma_price_sum_bound(prices: Seq<i64>)
    ensures
        i64::MIN * prices.len() <= price_sum(prices) <= i64::MAX * prices.len(),
    decreases prices.len(),
{
    if prices.len() > 0 {
        lemma_price_sum_bound(prices.drop_last());
    }
}

proof fn lemma_sum_fits(prices: Seq<i64>)
    requires
        prices.len() <= usize::MAX,
    ensures
        i128::MIN <= price_sum(prices) <= i128::MAX,
{
    lemma_price_sum_bound(prices);
    let n = prices.len() as int;
    assert(i64::MIN * n >= i64::MIN * 0xffff_ffff_ffff_ffff) by (nonlinear_arith)
        requires
            0 <= n <= 0xffff_ffff_ffff_ffff,
    ;
    assert(i64::MAX * n <= i64::MAX * 0xffff_ffff_ffff_ffff) by (nonlinear_arith)
        requires
            0 <= n <= 0xffff_ffff_ffff_ffff,
    ;
}

/// A moving average is there once there are as many candles as its window. It
/// is over the latest of them: over one, it is the last price; with a window
/// longer by one, the price before is added; and with a new candle, that one
/// comes in and the oldest of the window goes out.
pub proof fn law_a_moving_average_moves(prices: Seq<i64>, window: usize, price: i64)
    requires
        prices.len() < usize::MAX,
    ensures
        moving_average(prices, window) is Some <==> prices.len() >= window,
        moving_average(prices, window) matches Some(ma) ==> ma.window == window,
        prices.len() >= 1 ==> moving_average(prices, 1)->0.sum == prices.last(),
        prices.len() > window ==> moving_average(prices, (window + 1) as usize)->0.sum
            == moving_average(prices, window)->0.sum + prices[prices.len() - window - 1],
        prices.len() >= window && window > 0 ==> moving_average(prices.push(price), window)->0.sum
            == moving_average(prices, window)->0.sum + price - prices[prices.len() - window],
{
    let n = prices.len() as int;
    let w = window as int;
    if n >= 1 {
        let one = prices.skip(n - 1);
        assert(one.drop_last() =~= Seq::<i64>::empty());
        assert(price_sum(one.drop_last()) == 0);
    }
    if n >= w {
        lemma_sum_fits(prices.skip(n - w));
    }
    if n > w {
        let longer = prices.skip(n - w - 1);
        lemma_sum_fits(longer);
        lemma_price_sum_front(longer);
        assert(longer.drop_first() =~= prices.skip(n - w));
    }
    if n >= w && w > 0 {
        let more = prices.push(price);
        let moved = more.skip(n + 1 - w);
        lemma_sum_fits(moved);
        lemma_price_sum_front(prices.skip(n - w));
        assert(moved.drop_last() =~= prices.skip(n - w).drop_first());
        assert(moved.last() == price);
    }
}

/// A trend agent buys when the short average lies above the long one and sells
/// when it does not; a contrarian does the opposite.
pub proof fn law_the_side_follows_the_trend(
    contrarian: bool,
    short: MovingAverage,
    long: MovingAverage,
)
    ensures
        short.sum * long.window > long.sum * short.window ==> trend_side(contrarian, short, long)
            == (if contrarian {
            Side::Ask
        } else {
            Side::Bid
        }),
        short.sum * long.window <= long.sum * short.window ==> trend_side(contrarian, short, long)
            == (if contrarian {
            Side::Bid
        } else {
            Side::Ask
        }),
        trend_side(!contrarian, short, long) != trend_side(contrarian, short, long),
{
}

/// A trend follower trades when the ratio of the averages is below the lower
/// edge of its band or above the upper one; a contrarian when it is strictly
/// between them. At an edge neither trades.
pub proof fn law_the_band_decides_on_a_trade(
    cfg: TrendFollowingConfig,
    short: MovingAverage,
    long: MovingAverage,
)
    ensures
        ({
            let (s, l) = (short.sum * long.window, long.sum * short.window);
            let under_low = s * cfg.band_low.den < l * cfg.band_low.num;
            let over_low = s * cfg.band_low.den > l * cfg.band_low.num;
            let under_high = s * cfg.band_high.den < l * cfg.band_high.num;
            let over_high = s * cfg.band_high.den > l * cfg.band_high.num;
            &&& !cfg.contrarian ==> (spec_should_trade(cfg, short, long) <==> under_low
                || over_high)
            &&& cfg.contrarian ==> (spec_should_trade(cfg, short, long) <==> over_low
                && under_high)
        }),
{
}

/// A candle is taken if there is none yet or the sampling time has passed
/// since the last, and not otherwise. It is the mid, it comes last, and the
/// oldest goes when there are more than ten beyond the long window.
pub proof fn law_candles_are_sampled_in_time(
    candles: Candles,
    cfg: TrendFollowingConfig,
    time: Nanos,
    mid: i64,
)
    ensures
        ({
            let after = candles.sampled(cfg, time, mid);
            let n = candles.prices.len() as int;
            let due = n == 0 || time - candles.last_time >= cfg.sampling_freq_ns;
            &&& !due ==> after == candles
            &&& due && n + 1 <= cfg.long_window + 10 ==> after.prices == candles.prices.push(mid)
            &&& due && n + 1 > cfg.long_window + 10 ==> after.prices == candles.prices.push(
                mid,
            ).skip(1)
            &&& due ==> after.last_time == time
        }),
{
    let more = candles.prices.push(mid);
    assert(more.drop_first() =~= more.skip(1));
}

/// A trend agent's candles are sampled on its wakeups only, at the mid of its
/// own market.
pub proof fn law_only_wakeups_sample_candles(
    cfg: TrendFollowingConfig,
    past: Seq<Call>,
    call: Call,
)
    ensures
        trend_candles(cfg, Seq::empty()).prices.len() == 0,
        trend_candles(cfg, Seq::empty()).last_time == 0,
        trend_candles(cfg, past.push(call)) == match call {
            Call::Heard { .. } => trend_candles(cfg, past),
            Call::Woke { time, agent_id, snapshots, actions } => trend_candles(
                cfg,
                past,
            ).sampled(cfg, time, spec_mid_at(snapshots, cfg.symbol, cfg.reference_price)),
        },
{
    assert(past.push(call).drop_last() =~= past);
}

/// What a trend agent does on a wakeup: with both averages above zero and a
/// signal it cancels its outstanding orders and places one order on the side
/// of the trend; without, it leaves them alone. Either way it schedules one
/// wakeup, last.
pub open spec fn trend_wakeup(
    traits: TrendTraits,
    past: Seq<Call>,
    snapshots: Seq<MarketSnapshot>,
    actions: Seq<AgentAction>,
    ids: Seq<u64>,
    draw: TrendDraw,
) -> bool {
    let cfg = traits.cfg;
    let prices = trend_candles(cfg, past).prices;
    let short = moving_average(prices, cfg.short_window);
    let long = moving_average(prices, cfg.long_window);
    let trades = short is Some && long is Some && short->0.sum > 0 && long->0.sum > 0
        && spec_should_trade(cfg, short->0, long->0);
    let side = trend_side(cfg.contrarian, short->0, long->0);
    let n = ids.len() as int;
    &&& ids.no_duplicates()
    &&& (traits.delays)(draw.delay_ns)
    &&& actions.last() == (AgentAction::ScheduleWakeUp { delay_ns: draw.delay_ns })
    &&& if trades {
        &&& actions.len() == n + 2
        &&& cancels_first(actions, cfg.symbol, ids)
        &&& actions[n] == order_for(
            cfg.symbol,
            side,
            (Quote { price: draw.price, qty: draw.qty }),
        )
        &&& (traits.sizes)(short->0, long->0, draw.qty)
        &&& (traits.prices)(
            spec_mid_at(snapshots, cfg.symbol, cfg.reference_price),
            side,
            draw.price,
        )
    } else {
        actions.len() == 1
    }
}

/// The actions of a wakeup on which a trend agent trades are more than one.
pub open spec fn more_than_one() -> spec_fn(Seq<AgentAction>) -> bool {
    |actions: Seq<AgentAction>| actions.len() > 1
}

/// A trend agent's wakeup as a whole.
pub proof fn law_a_trend_agent_trades_on_its_signal(traits: TrendTraits, past: Seq<Call>)
    requires
        traits.may_end(past),
    ensures
        past.last() matches Call::Woke { time, agent_id, snapshots, actions } && exists|
            ids: Seq<u64>,
            draw: TrendDraw,
        |
            {
                &&& #[trigger] trend_wakeup(traits, past, snapshots, actions, ids, draw)
                &&& forall|id: u64|
                    ids.contains(id) <==> #[trigger] outstanding(
                        past.drop_last(),
                        more_than_one(),
                        id,
                    )
            },
{
    let before = past.drop_last();
    if let Call::Woke { time, agent_id, snapshots, actions } = past.last() {
        let cfg = traits.cfg;
        let prices = trend_candles(cfg, past).prices;
        let mid = spec_mid_at(snapshots, cfg.symbol, cfg.reference_price);
        let ids = trend_resting(before).items;
        let draw = choose|draw: TrendDraw| #[trigger]
            traits.may_draw(mid, prices, draw) && actions == trend_actions(
                cfg,
                prices,
                ids,
                draw,
            );
        let clears = |actions: Seq<AgentAction>| traded(actions);
        assert(clears =~= more_than_one());
        assert forall|id: u64| ids.contains(id) <==> #[trigger] outstanding(
            before,
            more_than_one(),
            id,
        ) by {
            law_outstanding_orders_are_known(before, clears, id);
        }
        law_outstanding_orders_are_known(before, clears, 0);
        assert(trend_wakeup(traits, past, snapshots, actions, ids, draw));
    }
}

/// An agent's delay is its own.
pub proof fn law_a_delay_is_that_of_the_agent(bases: Seq<u64>, agent_id: AgentId)
    ensures
        agent_id < bases.len() ==> base_of(bases, agent_id) == bases[agent_id as int],
        agent_id >= bases.len() ==> base_of(bases, agent_id) == 0,
{
}

/// Which of an agent's messages keep an order outstanding: it is from its
/// acceptance on, through every fill that leaves some of it, until a fill
/// leaves nothing or it is cancelled.
pub proof fn law_an_order_is_outstanding_until_it_ends(
    past: Seq<Call>,
    time: Nanos,
    agent_id: AgentId,
    message: ExchangeMessage,
    id: u64,
)
    ensures
        ({
            let then = past.push(Call::Heard { time, agent_id, message });
            let was = outstanding(past, every_wakeup(), id);
            outstanding(then, every_wakeup(), id) == match message {
                ExchangeMessage::OrderAccepted { order_id, .. } => was || order_id == id,
                ExchangeMessage::OrderFilled { order_id, remaining, .. } => was && !(order_id == id
                    && remaining == 0),
                ExchangeMessage::OrderCancelled { order_id, .. } => was && order_id != id,
                ExchangeMessage::OrderRejected { .. } => was,
            }
        }),
{
    let call = Call::Heard { time, agent_id, message };
    let then = past.push(call);
    let clears = every_wakeup();
    let n = past.len() as int;
    assert(then[n] == call);
    if outstanding(past, clears, id) && !ends(call, clears, id) {
        let i = choose|i: int|
            0 <= i < past.len() && #[trigger] accepts(past[i], id) && (forall|j: int|
                i < j < past.len() ==> !ends(#[trigger] past[j], clears, id));
        assert(accepts(then[i], id));
        assert forall|j: int| i < j < then.len() implies !ends(
            #[trigger] then[j],
            clears,
            id,
        ) by {
            if j < n {
                assert(!ends(past[j], clears, id));
            }
        }
    }
    if accepts(call, id) {
        assert(accepts(then[n], id));
    }
    if outstanding(then, clears, id) && !accepts(call, id) {
        let i = choose|i: int|
            0 <= i < then.len() && #[trigger] accepts(then[i], id) && (forall|j: int|
                i < j < then.len() ==> !ends(#[trigger] then[j], clears, id));
        assert(i != n);
        assert(accepts(past[i], id));
        assert(!ends(then[n], clears, id));
        assert forall|j: int| i < j < past.len() implies !ends(
            #[trigger] past[j],
            clears,
            id,
        ) by {
            assert(then[j] == past[j]);
            assert(!ends(then[j], clears, id));
        }
    }
}

/// The agents keep a record of all their calls, and every record that one can
/// come to have ends in a wakeup that it may make.
pub proof fn law_agents_do_what_they_may(
    zi: ZiAgent,
    trend: TrendFollowingAgent,
    maker: MarketMakerAgent,
    past: Seq<Call>,
)
    ensures
        zi.past() == Some(zi.calls()),
        trend.past() == Some(trend.calls()),
        maker.past() == Some(maker.calls()),
        (zi.strategy())(past) ==> zi.traits().may_end(past),
        (trend.strategy())(past) ==> trend.traits().may_end(past),
        (maker.strategy())(past) ==> maker.traits().may_end(past),
{
}

/// A fixed model gives an agent its own delay and no other, both ways.
pub proof fn law_a_fixed_model_gives_the_delay_of_the_agent(
    model: LatencyModel,
    agent_id: AgentId,
    delay: u64,
)
    requires
        agent_id < model.bases().len(),
    ensures
        (model.to_exchange())(agent_id, delay) <==> delay == model.bases()[agent_id as int],
        (model.to_agent())(agent_id, delay) <==> delay == model.bases()[agent_id as int],
{
}

/// A fixed interval is the only delay that its sampler draws.
pub proof fn law_a_fixed_interval_is_always_drawn(sampler: FixedIntervalWakeup, delay_ns: u64)
    ensures
        (sampler.delays())(delay_ns) <==> delay_ns == sampler.interval(),
{
}

} // verus!
