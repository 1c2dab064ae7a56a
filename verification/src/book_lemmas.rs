//! Facts about queues and matching that the order book proofs rest on.

use crate::book_model::{
    ahead, best_price, distinct, front_filled, is_best, least, levels_wf, queue_wf, queued, sum_of,
    sweep, volume, with_queue, within, without, Levels, Sweep,
};
use crate::fills::Fill;
use crate::order::{RestingOrder, Side};
use vstd::prelude::*;

verus! {

/// Filtering reads a sequence from its front as well as from its back.
pub proof fn lemma_filter_front<A>(s: Seq<A>, pred: spec_fn(A) -> bool)
    requires
        s.len() > 0,
    ensures
        pred(s[0]) ==> s.filter(pred) == seq![s[0]] + s.drop_first().filter(pred),
        !pred(s[0]) ==> s.filter(pred) == s.drop_first().filter(pred),
{
    let head = seq![s[0]];
    assert(s =~= head + s.drop_first());
    Seq::filter_distributes_over_add(head, s.drop_first(), pred);
    assert(head.filter(pred) =~= if pred(s[0]) {
        head
    } else {
        Seq::empty()
    }) by {
        reveal(Seq::filter);
        assert(head.drop_last() =~= Seq::<A>::empty());
        assert(head.drop_last().filter(pred) =~= Seq::<A>::empty());
    }
    assert(Seq::<A>::empty() + s.drop_first().filter(pred) =~= s.drop_first().filter(pred));
}

/// Filtering a sequence that grew at its end.
pub proof fn lemma_filter_push<A>(s: Seq<A>, x: A, pred: spec_fn(A) -> bool)
    ensures
        pred(x) ==> s.push(x).filter(pred) == s.filter(pred).push(x),
        !pred(x) ==> s.push(x).filter(pred) == s.filter(pred),
{
    reveal(Seq::filter);
    assert(s.push(x).drop_last() =~= s);
}

/// Predicates that agree on the elements filter alike.
pub proof fn lemma_filter_cong<A>(s: Seq<A>, p: spec_fn(A) -> bool, q: spec_fn(A) -> bool)
    requires
        forall|i: int| 0 <= i < s.len() ==> p(#[trigger] s[i]) == q(s[i]),
    ensures
        s.filter(p) == s.filter(q),
    decreases s.len(),
{
    reveal(Seq::filter);
    if s.len() > 0 {
        lemma_filter_cong(s.drop_last(), p, q);
    }
}

/// Two filters in a row keep what both keep.
pub proof fn lemma_filter_filter<A>(s: Seq<A>, p: spec_fn(A) -> bool, q: spec_fn(A) -> bool)
    ensures
        s.filter(p).filter(q) == s.filter(|x: A| p(x) && q(x)),
    decreases s.len(),
{
    reveal(Seq::filter);
    if s.len() > 0 {
        lemma_filter_filter(s.drop_last(), p, q);
        if p(s.last()) {
            lemma_filter_push(s.drop_last().filter(p), s.last(), q);
        }
    }
}

/// What is in a filtered sequence is in the sequence and passes.
pub proof fn lemma_filter_member<A>(s: Seq<A>, pred: spec_fn(A) -> bool, i: int)
    requires
        0 <= i < s.filter(pred).len(),
    ensures
        pred(s.filter(pred)[i]),
        exists|j: int| 0 <= j < s.len() && #[trigger] s[j] == s.filter(pred)[i],
    decreases s.len(),
{
    reveal(Seq::filter);
    if s.len() > 0 {
        if i < s.drop_last().filter(pred).len() {
            lemma_filter_member(s.drop_last(), pred, i);
            let j = choose|j: int|
                0 <= j < s.drop_last().len() && #[trigger] s.drop_last()[j] == s.filter(pred)[i];
            assert(s[j] == s.filter(pred)[i]);
        } else {
            assert(s[s.len() - 1] == s.filter(pred)[i]);
        }
    }
}

/// What passes is in the filtered sequence.
pub proof fn lemma_filter_keeps<A>(s: Seq<A>, pred: spec_fn(A) -> bool, j: int)
    requires
        0 <= j < s.len(),
        pred(s[j]),
    ensures
        exists|i: int| 0 <= i < s.filter(pred).len() && #[trigger] s.filter(pred)[i] == s[j],
    decreases s.len(),
{
    reveal(Seq::filter);
    let kept = s.filter(pred);
    if j == s.len() - 1 {
        assert(kept[kept.len() - 1] == s[j]);
    } else {
        lemma_filter_keeps(s.drop_last(), pred, j);
        let before = s.drop_last().filter(pred);
        let i = choose|i: int| 0 <= i < before.len() && #[trigger] before[i] == s.drop_last()[j];
        assert(kept[i] == s[j]);
    }
}

pub proof fn lemma_volume_push(queue: Seq<RestingOrder>, order: RestingOrder)
    ensures
        volume(queue.push(order)) == volume(queue) + order.qty,
{
    assert(queue.push(order).drop_last() =~= queue);
}

/// Volume adds up over the two parts of a queue.
pub proof fn lemma_volume_concat(a: Seq<RestingOrder>, b: Seq<RestingOrder>)
    ensures
        volume(a + b) == volume(a) + volume(b),
    decreases b.len(),
{
    if b.len() == 0 {
        assert(a + b =~= a);
    } else {
        assert((a + b).drop_last() =~= a + b.drop_last());
        lemma_volume_concat(a, b.drop_last());
    }
}

/// The first order in line counts in full.
pub proof fn lemma_volume_front(queue: Seq<RestingOrder>)
    requires
        queue.len() > 0,
    ensures
        volume(queue) == queue[0].qty + volume(queue.drop_first()),
{
    let head = seq![queue[0]];
    assert(queue =~= head + queue.drop_first());
    lemma_volume_concat(head, queue.drop_first());
    assert(head.drop_last() =~= Seq::<RestingOrder>::empty());
    assert(volume(head.drop_last()) == 0);
    assert(volume(head) == head.last().qty);
}

/// A queue has volume exactly when one of its orders has quantity.
pub proof fn lemma_volume_positive(queue: Seq<RestingOrder>)
    requires
        forall|i: int| 0 <= i < queue.len() ==> (#[trigger] queue[i]).qty > 0,
    ensures
        volume(queue) > 0 <==> queue.len() > 0,
{
    if queue.len() > 0 {
        assert(queue[queue.len() - 1].qty > 0);
    }
}

/// Filling the front takes exactly the filled quantity out of the queue.
pub proof fn lemma_volume_front_filled(queue: Seq<RestingOrder>, qty: nat)
    requires
        queue.len() > 0,
        qty <= queue[0].qty,
    ensures
        volume(front_filled(queue, qty)) == volume(queue) - qty,
{
    lemma_volume_front(queue);
    let filled = front_filled(queue, qty);
    if qty < queue[0].qty {
        lemma_volume_front(filled);
        assert(filled.drop_first() =~= queue.drop_first());
    }
}

/// Taking an order out takes exactly its quantity out.
pub proof fn lemma_volume_without(queue: Seq<RestingOrder>, i: int)
    requires
        0 <= i < queue.len(),
        distinct(queue),
    ensures
        volume(without(queue, queue[i].id)) == volume(queue) - queue[i].qty,
    decreases queue.len(),
{
    let id = queue[i].id;
    let pred = |order: RestingOrder| order.id != id;
    let init = queue.drop_last();
    lemma_filter_push(init, queue.last(), pred);
    assert(init.push(queue.last()) =~= queue);
    if i == queue.len() - 1 {
        assert forall|j: int| 0 <= j < init.len() implies (#[trigger] init[j]).id != id by {
            assert(queue[j].id != queue[i].id);
        }
        lemma_without_absent(init, id);
    } else {
        assert(queue[i].id != queue[queue.len() - 1].id);
        assert(init[i] == queue[i]);
        lemma_volume_without(init, i);
        lemma_volume_push(without(init, id), queue.last());
    }
}

/// A queue without an order it never held is the queue itself.
pub proof fn lemma_without_absent(queue: Seq<RestingOrder>, id: u64)
    requires
        !queued(queue, id),
    ensures
        without(queue, id) == queue,
    decreases queue.len(),
{
    reveal(Seq::filter);
    if queue.len() > 0 {
        let init = queue.drop_last();
        if queued(init, id) {
            let i = choose|i: int| 0 <= i < init.len() && (#[trigger] init[i]).id == id;
            assert(queue[i].id == id);
        }
        lemma_without_absent(init, id);
        assert(queue[queue.len() - 1].id != id);
        assert(init.push(queue.last()) =~= queue);
    }
}

/// Filtering keeps ids different.
pub proof fn lemma_filter_distinct(queue: Seq<RestingOrder>, pred: spec_fn(RestingOrder) -> bool)
    requires
        distinct(queue),
    ensures
        distinct(queue.filter(pred)),
    decreases queue.len(),
{
    reveal(Seq::filter);
    if queue.len() > 0 {
        let init = queue.drop_last();
        lemma_filter_distinct(init, pred);
        let kept = init.filter(pred);
        if pred(queue.last()) {
            assert forall|i: int| 0 <= i < kept.len() implies (#[trigger] kept[i]).id
                != queue.last().id by {
                lemma_filter_member(init, pred, i);
                let j = choose|j: int| 0 <= j < init.len() && #[trigger] init[j] == kept[i];
                assert(queue[j].id != queue[queue.len() - 1].id);
            }
        }
    }
}

/// A side has at most one best price.
pub proof fn lemma_best_unique(levels: Levels, side: Side, price: i64)
    requires
        is_best(levels, side, price),
    ensures
        best_price(levels, side) == Some(price),
{
    let chosen = choose|p: i64| is_best(levels, side, p);
    assert(is_best(levels, side, chosen));
    assert(levels.contains_key(price) && levels.contains_key(chosen));
}

pub proof fn lemma_best_of_empty(levels: Levels, side: Side)
    requires
        forall|p: i64| !levels.contains_key(p),
    ensures
        best_price(levels, side) is None,
{
}

/// What matching takes from one queue.
#[verifier::ext_equal]
pub struct QueueSweep {
    pub queue: Seq<RestingOrder>,
    pub fills: Seq<Fill>,
    pub remaining: nat,
}

/// Matching inside one price level, first in line first.
pub open spec fn sweep_queue(
    queue: Seq<RestingOrder>,
    price: i64,
    taker_side: Side,
    taker_id: u64,
    remaining: nat,
) -> QueueSweep
    decreases remaining,
{
    if remaining == 0 || queue.len() == 0 || queue[0].qty == 0 {
        QueueSweep { queue, fills: Seq::empty(), remaining }
    } else {
        let qty = least(queue[0].qty as nat, remaining);
        let fill = Fill {
            maker_order_id: queue[0].id,
            taker_order_id: taker_id,
            price,
            qty: qty as u64,
            taker_side,
        };
        let rest = sweep_queue(
            front_filled(queue, qty),
            price,
            taker_side,
            taker_id,
            (remaining - qty) as nat,
        );
        QueueSweep { fills: seq![fill] + rest.fills, ..rest }
    }
}

/// Matching never leaves more than came in.
pub proof fn lemma_sweep_queue_shrinks(
    queue: Seq<RestingOrder>,
    price: i64,
    taker_side: Side,
    taker_id: u64,
    remaining: nat,
)
    ensures
        sweep_queue(queue, price, taker_side, taker_id, remaining).remaining <= remaining,
    decreases remaining,
{
    if remaining > 0 && queue.len() > 0 && queue[0].qty > 0 {
        let qty = least(queue[0].qty as nat, remaining);
        lemma_sweep_queue_shrinks(
            front_filled(queue, qty),
            price,
            taker_side,
            taker_id,
            (remaining - qty) as nat,
        );
    }
}

/// Matching at the best price, then going on with what is left of it.
pub proof fn lemma_sweep_level(
    levels: Levels,
    taker_side: Side,
    taker_id: u64,
    limit: Option<i64>,
    remaining: nat,
    price: i64,
)
    requires
        is_best(levels, taker_side.spec_opposite(), price),
        within(taker_side, limit, price),
        levels[price].len() > 0,
        forall|i: int| 0 <= i < levels[price].len() ==> (#[trigger] levels[price][i]).qty > 0,
    ensures
        ({
            let taken = sweep_queue(levels[price], price, taker_side, taker_id, remaining);
            let rest = sweep(
                with_queue(levels, price, taken.queue),
                taker_side,
                taker_id,
                limit,
                taken.remaining,
            );
            sweep(levels, taker_side, taker_id, limit, remaining) == Sweep {
                fills: taken.fills + rest.fills,
                ..rest
            }
        }),
    decreases remaining,
{
    let queue = levels[price];
    let taken = sweep_queue(queue, price, taker_side, taker_id, remaining);
    if remaining == 0 {
        assert(with_queue(levels, price, queue) =~= levels);
        let all = sweep(levels, taker_side, taker_id, limit, remaining);
        assert(taken.fills + all.fills =~= all.fills);
    } else {
        lemma_best_unique(levels, taker_side.spec_opposite(), price);
        let qty = least(queue[0].qty as nat, remaining);
        let next = front_filled(queue, qty);
        let after = with_queue(levels, price, next);
        let left = (remaining - qty) as nat;
        let step = sweep_queue(next, price, taker_side, taker_id, left);
        if next.len() == 0 {
            assert(step.fills =~= Seq::<Fill>::empty());
            let rest = sweep(after, taker_side, taker_id, limit, left);
            assert(step.fills + rest.fills =~= rest.fills);
        } else {
            assert forall|i: int|
                0 <= i < after[price].len() implies (#[trigger] after[price][i]).qty
                > 0 by {
                if qty >= queue[0].qty {
                    assert(next[i] == queue[i + 1]);
                } else if i > 0 {
                    assert(next[i] == queue[i]);
                }
            }
            assert(is_best(after, taker_side.spec_opposite(), price)) by {
                assert forall|other: i64|
                    #[trigger] after.contains_key(other) implies other == price
                    || ahead(taker_side.spec_opposite(), price, other) by {
                    assert(levels.contains_key(other));
                }
            }
            lemma_sweep_level(after, taker_side, taker_id, limit, left, price);
        }
        let rest = sweep(
            with_queue(after, price, step.queue),
            taker_side,
            taker_id,
            limit,
            step.remaining,
        );
        assert(with_queue(after, price, step.queue) =~= with_queue(levels, price, step.queue));
        let fill = taken.fills[0];
        assert(seq![fill] + (step.fills + rest.fills) =~= taken.fills + rest.fills);
    }
}

pub proof fn lemma_sum_of_empty<A>(value: spec_fn(A) -> nat)
    ensures
        sum_of(Set::empty(), value) == 0,
{
    vstd::set::fold::lemma_fold_empty(0nat, |sum: nat, member: A| sum + value(member));
}

/// One more member adds its value.
pub proof fn lemma_sum_of_insert<A>(members: Set<A>, value: spec_fn(A) -> nat, member: A)
    requires
        members.finite(),
        !members.contains(member),
    ensures
        sum_of(members.insert(member), value) == sum_of(members, value) + value(member),
{
    let add = |sum: nat, m: A| sum + value(m);
    assert(vstd::set::fold::is_fun_commutative(add));
    vstd::set::fold::lemma_fold_insert(members, 0nat, add, member);
}

/// A sum grows with its set.
pub proof fn lemma_sum_of_subset<A>(part: Set<A>, whole: Set<A>, value: spec_fn(A) -> nat)
    requires
        whole.finite(),
        part.subset_of(whole),
    ensures
        sum_of(part, value) <= sum_of(whole, value),
    decreases whole.len(),
{
    if part =~= whole {
    } else {
        let member = choose|m: A| whole.contains(m) && !part.contains(m);
        let smaller = whole.remove(member);
        assert(smaller.insert(member) =~= whole);
        lemma_sum_of_insert(smaller, value, member);
        assert(part.subset_of(smaller));
        lemma_sum_of_subset(part, smaller, value);
    }
}

/// A side with orders has a best price.
pub proof fn lemma_best_exists(levels: Levels, side: Side)
    requires
        levels.dom().finite(),
        exists|price: i64| levels.contains_key(price),
    ensures
        best_price(levels, side) is Some,
        is_best(levels, side, best_price(levels, side)->0),
    decreases levels.dom().len(),
{
    let price = choose|price: i64| levels.contains_key(price);
    let rest = levels.remove(price);
    if exists|other: i64| rest.contains_key(other) {
        lemma_best_exists(rest, side);
        let best = best_price(rest, side)->0;
        let winner = if ahead(side, price, best) {
            price
        } else {
            best
        };
        assert(is_best(levels, side, winner)) by {
            assert forall|other: i64| #[trigger] levels.contains_key(other) implies other == winner
                || ahead(side, winner, other) by {
                if other != price {
                    assert(rest.contains_key(other));
                }
            }
        }
    } else {
        assert(is_best(levels, side, price)) by {
            assert forall|other: i64|
                #[trigger] levels.contains_key(other) implies other == price by {
                if other != price {
                    assert(rest.contains_key(other));
                }
            }
        }
    }
}

/// A queue keeps its shape when its first order is filled.
pub proof fn lemma_front_filled_wf(queue: Seq<RestingOrder>, qty: nat)
    requires
        queue_wf(queue),
        0 < qty <= queue[0].qty,
        front_filled(queue, qty).len() > 0,
    ensures
        queue_wf(front_filled(queue, qty)),
        forall|id: u64| queued(front_filled(queue, qty), id) ==> queued(queue, id),
{
    let next = front_filled(queue, qty);
    lemma_volume_front_filled(queue, qty);
    let shift: int = if qty == queue[0].qty {
        1
    } else {
        0
    };
    assert forall|i: int| 0 <= i < next.len() implies (#[trigger] next[i]).id == queue[i + shift].id
        && next[i].qty > 0 by {
        assert(queue[i + shift].qty > 0);
    }
    assert forall|i: int, j: int| 0 <= i < j < next.len() implies (#[trigger] next[i]).id != (
    #[trigger] next[j]).id by {
        assert(queue[i + shift].id != queue[j + shift].id);
    }
    assert forall|id: u64| queued(next, id) implies queued(queue, id) by {
        let i = choose|i: int| 0 <= i < next.len() && (#[trigger] next[i]).id == id;
        assert(queue[i + shift].id == id);
    }
}

/// One step of matching keeps the shape of a side.
pub proof fn lemma_level_filled_wf(levels: Levels, price: i64, qty: nat)
    requires
        levels_wf(levels),
        levels.contains_key(price),
        0 < qty <= levels[price][0].qty,
    ensures
        levels_wf(with_queue(levels, price, front_filled(levels[price], qty))),
        forall|p: i64| #[trigger]
            with_queue(levels, price, front_filled(levels[price], qty)).contains_key(p)
                ==> levels.contains_key(p),
{
    let next = front_filled(levels[price], qty);
    let after = with_queue(levels, price, next);
    if next.len() > 0 {
        lemma_front_filled_wf(levels[price], qty);
    }
    assert forall|p: i64| #[trigger] after.contains_key(p) implies p >= 0 && queue_wf(after[p]) by {
        assert(levels.contains_key(p));
    }
}

/// Matching keeps the shape of a side, adds nothing to it, and stops short of
/// the full quantity only when no price within the limit is left.
pub proof fn lemma_sweep_shape(
    levels: Levels,
    taker_side: Side,
    taker_id: u64,
    limit: Option<i64>,
    remaining: nat,
)
    requires
        levels_wf(levels),
    ensures
        ({
            let outcome = sweep(levels, taker_side, taker_id, limit, remaining);
            &&& levels_wf(outcome.levels)
            &&& outcome.remaining <= remaining
            &&& forall|p: i64| #[trigger]
                outcome.levels.contains_key(p) ==> levels.contains_key(p)
            &&& outcome.remaining > 0 ==> forall|p: i64| #[trigger]
                outcome.levels.contains_key(p) ==> !within(taker_side, limit, p)
        }),
    decreases remaining,
{
    let side = taker_side.spec_opposite();
    if remaining > 0 && exists|p: i64| levels.contains_key(p) {
        lemma_best_exists(levels, side);
        let price = best_price(levels, side)->0;
        if within(taker_side, limit, price) {
            let qty = least(levels[price][0].qty as nat, remaining);
            assert(levels[price][0].qty > 0);
            lemma_level_filled_wf(levels, price, qty);
            let after = with_queue(levels, price, front_filled(levels[price], qty));
            lemma_sweep_shape(after, taker_side, taker_id, limit, (remaining - qty) as nat);
        }
    }
}

} // verus!
