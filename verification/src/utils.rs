//! What the agents share: the set of their resting orders, and the mid price.

use crate::agent::{AgentAction, Call};
use crate::event::ExchangeMessage;
use crate::types::{MarketSnapshot, Symbol};
use std::collections::HashMap;
use vstd::prelude::*;

verus! {

broadcast use vstd::std_specs::hash::group_hash_axioms;

/// Items in the order in which they are kept, and where each is found.
#[verifier::ext_equal]
pub struct IndexedView {
    pub items: Seq<u64>,
    pub index: Map<u64, int>,
}

/// A sequence whose last item took the place of the item at `i`.
pub open spec fn swap_removed(items: Seq<u64>, i: int) -> Seq<u64> {
    items.update(i, items.last()).drop_last()
}

impl IndexedView {
    pub open spec fn empty() -> IndexedView {
        IndexedView { items: Seq::empty(), index: Map::empty() }
    }

    /// Every item is found where it is, and what is found is there: no item is
    /// there twice.
    pub open spec fn wf(self) -> bool {
        &&& forall|x: u64| #[trigger]
            self.index.contains_key(x) ==> 0 <= self.index[x] < self.items.len()
                && self.items[self.index[x]] == x
        &&& forall|i: int|
            0 <= i < self.items.len() ==> self.index.contains_key(#[trigger] self.items[i])
                && self.index[self.items[i]] == i
    }

    /// The item `x` is there: nothing changes if it was there before.
    pub open spec fn inserted(self, x: u64) -> IndexedView {
        if self.index.contains_key(x) {
            self
        } else {
            IndexedView {
                items: self.items.push(x),
                index: self.index.insert(x, self.items.len() as int),
            }
        }
    }

    /// The item at `i` is gone, and the last one in its place.
    pub open spec fn removed_at(self, i: int) -> IndexedView {
        let items = swap_removed(self.items, i);
        let index = self.index.remove(self.items[i]);
        IndexedView {
            items,
            index: if i < items.len() {
                index.insert(items[i], i)
            } else {
                index
            },
        }
    }

    /// The item `x` is gone, if it is found.
    pub open spec fn removed(self, x: u64) -> IndexedView {
        if self.index.contains_key(x) {
            self.removed_at(self.index[x])
        } else {
            self
        }
    }
}

/// A set with one more item is a set.
proof fn lemma_inserted_wf(set: IndexedView, x: u64)
    requires
        set.wf(),
    ensures
        set.inserted(x).wf(),
{
    let more = set.inserted(x);
    assert forall|i: int| 0 <= i < more.items.len() implies more.index.contains_key(
        #[trigger] more.items[i],
    ) && more.index[more.items[i]] == i by {
        if i < set.items.len() {
            assert(more.items[i] == set.items[i]);
        }
    }
    assert forall|y: u64| #[trigger] more.index.contains_key(y) implies 0 <= more.index[y]
        < more.items.len() && more.items[more.index[y]] == y by {
        if set.index.contains_key(y) {
            assert(set.items[set.index[y]] == y);
        }
    }
}

/// A set without one of its items is a set.
proof fn lemma_removed_wf(set: IndexedView, at: int)
    requires
        set.wf(),
        0 <= at < set.items.len(),
    ensures
        set.removed_at(at).wf(),
        !set.removed_at(at).index.contains_key(set.items[at]),
{
    let less = set.removed_at(at);
    let last = set.items.len() - 1;
    assert(set.index[set.items[last]] == last);
    assert(set.index[set.items[at]] == at);
    assert forall|i: int| 0 <= i < less.items.len() implies less.index.contains_key(
        #[trigger] less.items[i],
    ) && less.index[less.items[i]] == i by {
        if i == at {
            assert(less.items[i] == set.items[last]);
        } else {
            assert(less.items[i] == set.items[i]);
            assert(set.index[set.items[i]] == i);
        }
    }
    assert forall|y: u64| #[trigger] less.index.contains_key(y) implies 0 <= less.index[y]
        < less.items.len() && less.items[less.index[y]] == y by {
        if !(at < less.items.len() && y == less.items[at]) {
            assert(set.index.contains_key(y));
            assert(set.items[set.index[y]] == y);
        }
    }
}

/// The items of a set and where each of them is.
struct Parts {
    vec: Vec<u64>,
    map: HashMap<u64, usize>,
}

impl Parts {
    spec fn view(&self) -> IndexedView {
        IndexedView { items: self.vec@, index: self.map@.map_values(|i: usize| i as int) }
    }
}

impl Parts {
    spec fn wf(&self) -> bool {
        self@.wf()
    }

    fn new() -> (parts: Self)
        ensures
            parts.wf(),
            parts@ == IndexedView::empty(),
    {
        let parts = Parts { vec: Vec::new(), map: HashMap::new() };
        assert(parts@ =~= IndexedView::empty());
        parts
    }

    fn insert(&mut self, val: u64)
        requires
            old(self).wf(),
        ensures
            final(self).wf(),
            final(self)@ == old(self)@.inserted(val),
    {
        let ghost before = self@;
        if self.map.contains_key(&val) {
            assert(before.index.contains_key(val));
            return;
        }
        let idx: usize = self.vec.len();
        self.vec.push(val);
        self.map.insert(val, idx);
        proof {
            assert(!before.index.contains_key(val));
            assert(self@ =~= before.inserted(val));
            lemma_inserted_wf(before, val);
        }
    }

    fn remove(&mut self, val: u64) -> (found: bool)
        requires
            old(self).wf(),
        ensures
            final(self).wf(),
            found == old(self)@.index.contains_key(val),
            final(self)@ == old(self)@.removed(val),
    {
        let idx: usize = match self.map.get(&val) {
            Some(idx) => *idx,
            None => {
                return false;
            },
        };
        proof {
            assert(old(self)@.index.contains_key(val));
        }
        self.remove_at(idx);
        true
    }

    fn remove_at(&mut self, idx: usize) -> (val: u64)
        requires
            old(self).wf(),
            idx < old(self)@.items.len(),
        ensures
            final(self).wf(),
            val == old(self)@.items[idx as int],
            final(self)@ == old(self)@.removed_at(idx as int),
    {
        let ghost before = self@;
        let val: u64 = self.vec.swap_remove(idx);
        self.map.remove(&val);
        if idx < self.vec.len() {
            let swapped: u64 = self.vec[idx];
            self.map.insert(swapped, idx);
        }
        proof {
            assert(self@.index =~= before.removed_at(idx as int).index);
            assert(self@ =~= before.removed_at(idx as int));
            lemma_removed_wf(before, idx as int);
        }
        val
    }
}

/// Set supporting O(1) insert, remove-by-value, and random-index selection. No
/// item is in it twice.
pub struct IndexedSet {
    parts: Parts,
}

impl View for IndexedSet {
    type V = IndexedView;

    closed spec fn view(&self) -> IndexedView {
        self.parts@
    }
}

impl IndexedSet {
    #[verifier::type_invariant]
    spec fn inv(&self) -> bool {
        self.parts.wf()
    }

    /// A set with no items.
    #[must_use]
    pub fn new() -> (set: Self)
        ensures
            set@ == IndexedView::empty(),
    {
        IndexedSet { parts: Parts::new() }
    }

    /// Number of items.
    #[must_use]
    pub fn len(&self) -> (len: usize)
        ensures
            len == self@.items.len(),
    {
        self.parts.vec.len()
    }

    /// Whether there are no items.
    #[must_use]
    pub fn is_empty(&self) -> (empty: bool)
        ensures
            empty == (self@.items.len() == 0),
    {
        self.parts.vec.len() == 0
    }

    /// Add an item. Nothing changes if it is there.
    pub fn insert(&mut self, val: u64)
        ensures
            final(self)@ == old(self)@.inserted(val),
            final(self)@.wf(),
    {
        proof {
            use_type_invariant(&*self);
        }
        let mut parts = Parts::new();
        std::mem::swap(&mut self.parts, &mut parts);
        parts.insert(val);
        self.parts = parts;
    }

    /// Remove an item by its value. Returns `true` if it was found.
    pub fn remove(&mut self, val: u64) -> (found: bool)
        ensures
            found == old(self)@.index.contains_key(val),
            final(self)@ == old(self)@.removed(val),
            final(self)@.wf(),
    {
        proof {
            use_type_invariant(&*self);
        }
        let mut parts = Parts::new();
        std::mem::swap(&mut self.parts, &mut parts);
        let found = parts.remove(val);
        self.parts = parts;
        found
    }

    /// Remove the item at an index, and return it.
    pub fn remove_at(&mut self, idx: usize) -> (val: u64)
        requires
            idx < old(self)@.items.len(),
        ensures
            val == old(self)@.items[idx as int],
            final(self)@ == old(self)@.removed_at(idx as int),
            final(self)@.wf(),
    {
        proof {
            use_type_invariant(&*self);
        }
        let mut parts = Parts::new();
        std::mem::swap(&mut self.parts, &mut parts);
        let val: u64 = parts.remove_at(idx);
        self.parts = parts;
        val
    }

    /// Remove all elements and return their ids.
    pub fn drain_all(&mut self) -> (all: Vec<u64>)
        ensures
            all@ == old(self)@.items,
            all@.no_duplicates(),
            final(self)@ == IndexedView::empty(),
    {
        proof {
            use_type_invariant(&*self);
            lemma_no_item_twice(self@);
        }
        let mut parts = Parts::new();
        std::mem::swap(&mut self.parts, &mut parts);
        parts.vec
    }
}

/// No item of a set is there twice.
proof fn lemma_no_item_twice(set: IndexedView)
    requires
        set.wf(),
    ensures
        set.items.no_duplicates(),
{
    assert forall|i: int, j: int|
        0 <= i < set.items.len() && 0 <= j < set.items.len() && i != j implies set.items[i]
        != set.items[j] by {
        assert(set.index[set.items[i]] == i);
        assert(set.index[set.items[j]] == j);
    }
}

/// An indexed set is a set: no item is there twice, an item that is there
/// changes nothing when it is inserted again, a new one makes the set one
/// larger, and a removed one takes exactly itself away.
pub proof fn law_indexed_set_is_a_set(set: IndexedView, x: u64)
    requires
        set.wf(),
    ensures
        set.items.no_duplicates(),
        set.index.contains_key(x) <==> set.items.contains(x),
        set.inserted(x).wf(),
        set.inserted(x).items.to_set() == set.items.to_set().insert(x),
        set.items.contains(x) ==> set.inserted(x) == set,
        !set.items.contains(x) ==> set.inserted(x).items.len() == set.items.len() + 1,
        set.removed(x).wf(),
        set.removed(x).items.to_set() == set.items.to_set().remove(x),
        !set.items.contains(x) ==> set.removed(x) == set,
{
    lemma_no_item_twice(set);
    lemma_inserted_wf(set, x);
    if set.items.contains(x) {
        let i = choose|i: int| 0 <= i < set.items.len() && set.items[i] == x;
        assert(set.index.contains_key(set.items[i]));
    }
    let more = set.inserted(x);
    assert forall|y: u64| #[trigger] more.items.to_set().contains(y)
        == set.items.to_set().insert(x).contains(y) by {
        if !set.items.contains(x) {
            if set.items.contains(y) {
                let j = choose|j: int| 0 <= j < set.items.len() && set.items[j] == y;
                assert(more.items[j] == y);
            }
            assert(more.items[set.items.len() as int] == x);
        }
    }
    assert(more.items.to_set() =~= set.items.to_set().insert(x));
    let less = set.removed(x);
    if set.index.contains_key(x) {
        let at = set.index[x];
        let last = set.items.len() - 1;
        assert(set.items[at] == x);
        lemma_removed_wf(set, at);
        assert forall|y: u64| #[trigger] less.items.to_set().contains(y)
            == set.items.to_set().remove(x).contains(y) by {
            if set.items.contains(y) {
                let j = choose|j: int| 0 <= j < set.items.len() && set.items[j] == y;
                if j == last {
                    assert(y != x ==> less.items[at] == y);
                } else if j != at {
                    assert(less.items[j] == y);
                }
            }
            if less.items.contains(y) {
                let j = choose|j: int| 0 <= j < less.items.len() && less.items[j] == y;
                assert(less.index.contains_key(less.items[j]));
                if j == at {
                    assert(set.items[last] == y);
                } else {
                    assert(set.items[j] == y);
                }
            }
        }
        assert(less.items.to_set() =~= set.items.to_set().remove(x));
    } else {
        assert(less.items.to_set() =~= set.items.to_set().remove(x));
    }
}

/// The resting orders that an agent knows after a message: an accepted order
/// rests, and so does one that was filled in part. One that was filled with
/// nothing left, or cancelled, no longer does.
pub open spec fn resting_after(resting: IndexedView, message: ExchangeMessage) -> IndexedView {
    match message {
        ExchangeMessage::OrderAccepted { order_id, .. } => resting.inserted(order_id),
        ExchangeMessage::OrderFilled { order_id, remaining, .. } => if remaining == 0 {
            resting.removed(order_id)
        } else {
            resting
        },
        ExchangeMessage::OrderCancelled { order_id, .. } => resting.removed(order_id),
        ExchangeMessage::OrderRejected { .. } => resting,
    }
}

/// The orders that an agent knows to rest after its calls. A wakeup that
/// clears cancels them all.
pub open spec fn known_resting(
    past: Seq<Call>,
    clears: spec_fn(Seq<AgentAction>) -> bool,
) -> IndexedView
    decreases past.len(),
{
    if past.len() == 0 {
        IndexedView::empty()
    } else {
        let before = known_resting(past.drop_last(), clears);
        match past.last() {
            Call::Heard { time, agent_id, message } => resting_after(before, message),
            Call::Woke { time, agent_id, snapshots, actions } => if clears(actions) {
                IndexedView::empty()
            } else {
                before
            },
        }
    }
}

/// Every wakeup clears, whatever the agent does.
pub open spec fn every_wakeup() -> spec_fn(Seq<AgentAction>) -> bool {
    |actions: Seq<AgentAction>| true
}

/// The agent hears that its order was accepted.
pub open spec fn accepts(call: Call, id: u64) -> bool {
    call matches Call::Heard {
        message: ExchangeMessage::OrderAccepted { order_id, .. },
        ..
    } && order_id == id
}

/// The agent hears that nothing is left of its order, or cancels it.
pub open spec fn ends(call: Call, clears: spec_fn(Seq<AgentAction>) -> bool, id: u64) -> bool {
    match call {
        Call::Heard { time, agent_id, message } => match message {
            ExchangeMessage::OrderFilled { order_id, remaining, .. } => order_id == id && remaining
                == 0,
            ExchangeMessage::OrderCancelled { order_id, .. } => order_id == id,
            _ => false,
        },
        Call::Woke { time, agent_id, snapshots, actions } => clears(actions),
    }
}

/// The order is outstanding: it was accepted, and has not ended since.
pub open spec fn outstanding(
    past: Seq<Call>,
    clears: spec_fn(Seq<AgentAction>) -> bool,
    id: u64,
) -> bool {
    exists|i: int|
        0 <= i < past.len() && #[trigger] accepts(past[i], id) && (forall|j: int|
            i < j < past.len() ==> !ends(#[trigger] past[j], clears, id))
}

/// The orders that an agent knows to rest are the outstanding ones, each of
/// them once. An order that was filled in part is one of them.
pub proof fn law_outstanding_orders_are_known(
    past: Seq<Call>,
    clears: spec_fn(Seq<AgentAction>) -> bool,
    id: u64,
)
    ensures
        known_resting(past, clears).wf(),
        known_resting(past, clears).items.no_duplicates(),
        known_resting(past, clears).items.contains(id) <==> outstanding(past, clears, id),
    decreases past.len(),
{
    let known = known_resting(past, clears);
    if past.len() > 0 {
        let init = past.drop_last();
        let last = past.last();
        let n = past.len() - 1;
        let before = known_resting(init, clears);
        law_outstanding_orders_are_known(init, clears, id);
        assert(accepts(last, id) ==> outstanding(past, clears, id)) by {
            if accepts(last, id) {
                assert(accepts(past[n], id));
            }
        }
        if !accepts(last, id) {
            if outstanding(past, clears, id) {
                let i = choose|i: int|
                    0 <= i < past.len() && #[trigger] accepts(past[i], id) && (forall|j: int|
                        i < j < past.len() ==> !ends(#[trigger] past[j], clears, id));
                assert(i != n);
                assert(!ends(past[n], clears, id));
                assert(accepts(init[i], id));
                assert forall|j: int| i < j < init.len() implies !ends(
                    #[trigger] init[j],
                    clears,
                    id,
                ) by {
                    assert(!ends(past[j], clears, id));
                }
                assert(outstanding(init, clears, id));
            }
            if outstanding(init, clears, id) && !ends(last, clears, id) {
                let i = choose|i: int|
                    0 <= i < init.len() && #[trigger] accepts(init[i], id) && (forall|j: int|
                        i < j < init.len() ==> !ends(#[trigger] init[j], clears, id));
                assert(accepts(past[i], id));
                assert forall|j: int| i < j < past.len() implies !ends(
                    #[trigger] past[j],
                    clears,
                    id,
                ) by {
                    if j < n {
                        assert(!ends(init[j], clears, id));
                    }
                }
            }
        }
        match last {
            Call::Heard { time, agent_id, message } => match message {
                ExchangeMessage::OrderAccepted { order_id, .. } => {
                    law_indexed_set_is_a_set(before, order_id);
                    assert(known.items.to_set().contains(id) == known.items.contains(id));
                    assert(before.items.to_set().contains(id) == before.items.contains(id));
                },
                ExchangeMessage::OrderFilled { order_id, remaining, .. } => {
                    law_indexed_set_is_a_set(before, order_id);
                    assert(known.items.to_set().contains(id) == known.items.contains(id));
                    assert(before.items.to_set().contains(id) == before.items.contains(id));
                },
                ExchangeMessage::OrderCancelled { order_id, .. } => {
                    law_indexed_set_is_a_set(before, order_id);
                    assert(known.items.to_set().contains(id) == known.items.contains(id));
                    assert(before.items.to_set().contains(id) == before.items.contains(id));
                },
                ExchangeMessage::OrderRejected { .. } => {},
            },
            Call::Woke { time, agent_id, snapshots, actions } => {},
        }
    }
    law_indexed_set_is_a_set(known, id);
}

/// Keeps track of an agent's resting orders.
pub(crate) fn track(resting: &mut IndexedSet, message: ExchangeMessage)
    ensures
        final(resting)@ == resting_after(old(resting)@, message),
{
    match message {
        ExchangeMessage::OrderAccepted { order_id, .. } => {
            resting.insert(order_id);
        },
        ExchangeMessage::OrderFilled { order_id, remaining, .. } => {
            if remaining == 0 {
                resting.remove(order_id);
            }
        },
        ExchangeMessage::OrderCancelled { order_id, .. } => {
            resting.remove(order_id);
        },
        ExchangeMessage::OrderRejected { .. } => {},
    }
}

/// One cancel for each order.
pub open spec fn cancels(symbol: Symbol, ids: Seq<u64>) -> Seq<AgentAction> {
    Seq::new(ids.len(), |i: int| AgentAction::CancelOrder { symbol, order_id: ids[i] })
}

/// Cancels each order.
pub(crate) fn cancel_all(symbol: Symbol, ids: &Vec<u64>, actions: &mut Vec<AgentAction>)
    ensures
        final(actions)@ == old(actions)@ + cancels(symbol, ids@),
{
    let ghost before = actions@;
    for i in 0..ids.len()
        invariant
            actions@ == before + cancels(symbol, ids@.take(i as int)),
    {
        let order_id: u64 = ids[i];
        actions.push(AgentAction::CancelOrder { symbol, order_id });
        assert(actions@ =~= before + cancels(symbol, ids@.take(i + 1)));
    }
    assert(ids@.take(ids@.len() as int) =~= ids@);
}

/// Half of a sum, a half going to the even neighbour.
pub open spec fn half_to_even(sum: int) -> int {
    let below = sum / 2;
    if sum % 2 == 0 || below % 2 == 0 {
        below
    } else {
        below + 1
    }
}

/// Mid price of a snapshot: between the best prices, at the one there is, or
/// at the reference.
pub open spec fn spec_mid_price(snap: MarketSnapshot, reference: i64) -> i64 {
    match (snap.best_bid, snap.best_ask) {
        (Some((bid, _)), Some((ask, _))) => half_to_even(bid + ask) as i64,
        (Some((bid, _)), None) => bid,
        (None, Some((ask, _))) => ask,
        (None, None) => reference,
    }
}

/// Compute mid-price from a market snapshot, falling back to `reference`.
///
/// A half-tick mid goes to the even neighbour, so the rounding error cancels
/// over many books. Truncation would cut the half tick on every odd spread and
/// push the price down, by an amount that matters when a tick is a large
/// fraction of the price.
#[must_use]
pub fn mid_price(snap: &MarketSnapshot, reference: i64) -> (mid: i64)
    ensures
        mid == spec_mid_price(*snap, reference),
{
    match (snap.best_bid, snap.best_ask) {
        (Some((bid, _)), Some((ask, _))) => {
            let sum: i128 = bid as i128 + ask as i128;
            let below: i128 = half_floor(sum);
            let mid: i128 = if below * 2 == sum || half_floor(below) * 2 == below {
                below
            } else {
                below + 1
            };
            mid as i64
        },
        (Some((bid, _)), None) => bid,
        (None, Some((ask, _))) => ask,
        (None, None) => reference,
    }
}

/// Mid price of a symbol: the reference where there is no snapshot of it.
pub open spec fn spec_mid_at(
    snapshots: Seq<MarketSnapshot>,
    symbol: Symbol,
    reference: i64,
) -> i64 {
    if symbol < snapshots.len() {
        spec_mid_price(snapshots[symbol as int], reference)
    } else {
        reference
    }
}

/// Mid price of a symbol: the reference where there is no snapshot of it.
pub(crate) fn mid_at(snapshots: &[MarketSnapshot], symbol: Symbol, reference: i64) -> (mid: i64)
    ensures
        mid == spec_mid_at(snapshots@, symbol, reference),
{
    if (symbol as usize) < snapshots.len() {
        mid_price(&snapshots[symbol as usize], reference)
    } else {
        reference
    }
}

/// Half of a number, rounded down.
fn half_floor(x: i128) -> (half: i128)
    requires
        -0x8000_0000_0000_0000_0000 <= x <= 0x8000_0000_0000_0000_0000,
    ensures
        half == x as int / 2,
{
    if x >= 0 {
        x / 2
    } else {
        -((1 - x) / 2)
    }
}

/// A mid price is within half a tick of the middle, and on the odd spread it
/// is even: over the two kinds of odd book the error cancels.
pub proof fn law_mid_price_is_unbiased(bid: i64, ask: i64)
    ensures
        ({
            let mid = half_to_even(bid + ask);
            &&& -1 <= 2 * mid - (bid + ask) <= 1
            &&& (bid + ask) % 2 == 0 ==> 2 * mid == bid + ask
            &&& (bid + ask) % 2 != 0 ==> mid % 2 == 0
            &&& (2 * mid - (bid + ask)) + (2 * half_to_even(bid + ask + 2) - (bid + ask + 2)) == 0
        }),
{
}

} // verus!
