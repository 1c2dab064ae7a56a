//! The global event queue.

use crate::event::{Event, EventPayload};
use crate::types::Nanos;
use crate::wide::WORD;
use vstd::multiset::Multiset;
use vstd::prelude::*;

verus! {

#[derive(Debug, Clone, Copy, PartialEq, Eq, Structural)]
struct HeapEntry {
    /// `delivery_time * 2^64 + seq`.
    key: u128,
    slot: u32,
}

/// The global event queue: a binary min-heap of ((time, seq), slot) keys
/// with the payloads parked in a slot arena. A sift moves a key and a slot
/// instead of a whole event, and a popped slot is reused by the next push.
/// Where keys are unique, the pop order is the exact (time, seq) order.
pub struct EventQueue {
    heap: Vec<HeapEntry>,
    slots: Vec<Option<EventPayload>>,
    free: Vec<u32>,
}

/// One event is due before another, or they have the same key.
pub open spec fn not_after(a: Event, b: Event) -> bool {
    a.delivery_time < b.delivery_time || (a.delivery_time == b.delivery_time && a.seq <= b.seq)
}

spec fn parent(i: int) -> int {
    (i - 1) / 2
}

/// The event behind a heap entry.
spec fn event_of(entry: HeapEntry, slots: Seq<Option<EventPayload>>) -> Event {
    Event {
        delivery_time: (entry.key / WORD) as u64,
        seq: (entry.key % WORD) as u64,
        payload: slots[entry.slot as int]->0,
    }
}

/// The events behind a heap.
spec fn events_of(heap: Seq<HeapEntry>, slots: Seq<Option<EventPayload>>) -> Seq<Event> {
    heap.map_values(|entry: HeapEntry| event_of(entry, slots))
}

/// The entry at `i` is no smaller than its parent.
spec fn in_place(heap: Seq<HeapEntry>, i: int) -> bool {
    heap[parent(i)].key <= heap[i].key
}

/// Every entry is in place, but for the entry at `pos`.
spec fn ordered_but(heap: Seq<HeapEntry>, pos: int) -> bool {
    forall|i: int| 0 < i < heap.len() && i != pos ==> #[trigger] in_place(heap, i)
}

/// Every entry is in place, but for the entry at `hole` and those below it.
spec fn ordered_around(heap: Seq<HeapEntry>, hole: int) -> bool {
    forall|i: int|
        0 < i < heap.len() && i != hole && parent(i) != hole ==> #[trigger] in_place(heap, i)
}

/// The entry at `c` is no smaller than the entry two above it.
spec fn spans(heap: Seq<HeapEntry>, c: int) -> bool {
    heap[parent(parent(c))].key <= heap[c].key
}

/// The entries below `pos` are no smaller than the entry above it.
spec fn bridged(heap: Seq<HeapEntry>, pos: int) -> bool {
    0 < pos ==> forall|c: int|
        0 < c < heap.len() && parent(c) == pos ==> #[trigger] spans(heap, c)
}

impl View for EventQueue {
    type V = Multiset<Event>;

    closed spec fn view(&self) -> Multiset<Event> {
        events_of(self.heap@, self.slots@).to_multiset()
    }
}

impl EventQueue {
    /// Slots are used by one heap entry or are free, and the heap is ordered.
    pub closed spec fn wf(&self) -> bool {
        &&& ordered_but(self.heap@, -1)
        &&& self.slots_wf()
    }

    spec fn slots_wf(&self) -> bool {
        let heap = self.heap@;
        let slots = self.slots@;
        let free = self.free@;
        &&& slots.len() == heap.len() + free.len()
        &&& slots.len() <= u32::MAX + 1
        &&& forall|i: int|
            0 <= i < heap.len() ==> (#[trigger] heap[i]).slot < slots.len()
                && slots[heap[i].slot as int] is Some
        &&& forall|i: int, j: int|
            0 <= i < j < heap.len() ==> (#[trigger] heap[i]).slot != (#[trigger] heap[j]).slot
        &&& forall|k: int| 0 <= k < free.len() ==> (#[trigger] free[k]) < slots.len()
        &&& forall|k: int, m: int| 0 <= k < m < free.len() ==> free[k] != free[m]
        &&& forall|i: int, k: int|
            0 <= i < heap.len() && 0 <= k < free.len() ==> (#[trigger] heap[i]).slot
                != #[trigger] free[k]
    }

    /// A queue with no events.
    #[must_use]
    pub fn with_capacity(capacity: usize) -> (queue: Self)
        ensures
            queue.wf(),
            queue@ == Multiset::<Event>::empty(),
    {
        let queue = EventQueue {
            heap: Vec::with_capacity(capacity),
            slots: Vec::with_capacity(capacity),
            free: Vec::new(),
        };
        proof {
            broadcast use vstd::seq_lib::group_to_multiset_ensures;

            assert(events_of(queue.heap@, queue.slots@) =~= Seq::<Event>::empty());
            assert(queue@.len() == 0);
        }
        queue
    }

    /// Move the entry at `child` up until its parent is no larger.
    fn sift_up(&mut self, child: usize)
        requires
            child < old(self).heap@.len(),
            ordered_but(old(self).heap@, child as int),
            bridged(old(self).heap@, child as int),
            old(self).slots_wf(),
        ensures
            final(self).wf(),
            final(self)@ == old(self)@,
    {
        let mut child: usize = child;
        while child > 0
            invariant
                child < self.heap@.len(),
                ordered_but(self.heap@, child as int),
                bridged(self.heap@, child as int),
                self.slots_wf(),
                self@ == old(self)@,
            ensures
                child > 0 ==> ordered_but(self.heap@, -1),
            decreases child,
        {
            let up: usize = (child - 1) / 2;
            assert(up as int == parent(child as int));
            if self.heap[up].key <= self.heap[child].key {
                proof {
                    lemma_ordered(self.heap@, child as int);
                }
                break;
            }
            let ghost before = self.heap@;
            self.swap(up, child);
            proof {
                lemma_sift_up_step(before, self.heap@, child as int);
            }
            child = up;
        }
        proof {
            if child == 0 {
                lemma_ordered(self.heap@, 0);
            }
        }
    }

    /// Exchange two entries.
    fn swap(&mut self, i: usize, j: usize)
        requires
            i < old(self).heap@.len(),
            j < old(self).heap@.len(),
            i != j,
            old(self).slots_wf(),
        ensures
            final(self).heap@ == old(self).heap@.update(i as int, old(self).heap@[j as int]).update(
                j as int,
                old(self).heap@[i as int],
            ),
            final(self).slots == old(self).slots,
            final(self).free == old(self).free,
            final(self).slots_wf(),
            final(self)@ == old(self)@,
    {
        let ghost before = self.heap@;
        let a: HeapEntry = self.heap[i];
        let b: HeapEntry = self.heap[j];
        self.heap[i] = b;
        self.heap[j] = a;
        proof {
            let events = events_of(before, self.slots@);
            let after = events_of(self.heap@, self.slots@);
            assert(after =~= events.update(i as int, events[j as int]).update(
                j as int,
                events[i as int],
            ));
            lemma_swap_multiset(events, i as int, j as int);
        }
    }

    /// Restore the order after the entry at the root was replaced: walk it
    /// down to a leaf along the smaller children, then back up to its place.
    /// The entry comes from the end of the heap, so the way back is short.
    fn sift_down(&mut self)
        requires
            old(self).heap@.len() > 0,
            ordered_around(old(self).heap@, 0),
            old(self).slots_wf(),
        ensures
            final(self).wf(),
            final(self)@ == old(self)@,
    {
        let end: usize = self.heap.len();
        let mut hole: usize = 0;
        while hole < end / 2
            invariant
                end == self.heap@.len(),
                hole < end,
                self.slots_wf(),
                self@ == old(self)@,
                ordered_around(self.heap@, hole as int),
                bridged(self.heap@, hole as int),
            decreases end - hole,
        {
            let left: usize = 2 * hole + 1;
            let mut child: usize = left;
            if left + 1 < end && self.heap[left + 1].key < self.heap[left].key {
                child = left + 1;
            }
            let ghost before = self.heap@;
            self.swap(hole, child);
            proof {
                assert forall|c: int|
                    0 < c < end && #[trigger] parent(c) == hole implies before[child as int].key
                    <= before[c].key by {
                    assert(c == left || c == left + 1);
                }
                lemma_sift_down_step(before, self.heap@, hole as int, child as int);
            }
            hole = child;
        }
        proof {
            assert forall|i: int| 0 < i < end && i != hole implies #[trigger] in_place(
                self.heap@,
                i,
            ) by {
                assert(parent(i) != hole);
            }
            assert(bridged(self.heap@, hole as int));
        }
        self.sift_up(hole);
    }

    /// Add an event, unless the slots are used up. Says whether it was added.
    pub fn try_push(&mut self, delivery_time: Nanos, seq: u64, payload: EventPayload) -> (ok: bool)
        requires
            old(self).wf(),
        ensures
            final(self).wf(),
            ok == (old(self)@.len() <= u32::MAX),
            ok ==> final(self)@ == old(self)@.insert(Event { delivery_time, seq, payload }),
            !ok ==> final(self)@ == old(self)@,
    {
        broadcast use vstd::seq_lib::group_to_multiset_ensures;

        let ghost before = *self;
        let slot: u32 = if self.free.len() > 0 {
            let slot: u32 = self.free[self.free.len() - 1];
            self.free.pop();
            self.slots[slot as usize] = Some(payload);
            slot
        } else {
            let slots: usize = self.slots.len();
            if slots as u64 > u32::MAX as u64 {
                return false;
            }
            self.slots.push(Some(payload));
            slots as u32
        };
        let key: u128 = delivery_time as u128 * WORD + seq as u128;
        let entry = HeapEntry { key, slot };
        self.heap.push(entry);
        proof {
            assert(key / WORD == delivery_time && key % WORD == seq) by (nonlinear_arith)
                requires
                    key == delivery_time * WORD + seq,
                    0 <= seq < WORD,
                    WORD == 0x1_0000_0000_0000_0000,
            ;
            let events = events_of(before.heap@, before.slots@);
            assert(events_of(self.heap@, self.slots@) =~= events.push(
                Event { delivery_time, seq, payload },
            )) by {
                assert forall|i: int| 0 <= i < before.heap@.len() implies event_of(
                    self.heap@[i],
                    self.slots@,
                ) == #[trigger] events[i] by {
                    assert(before.heap@[i].slot != slot);
                }
            }
            assert(self.slots_wf()) by {
                assert forall|i: int| 0 <= i < self.heap@.len() implies (
                #[trigger] self.heap@[i]).slot < self.slots@.len()
                    && self.slots@[self.heap@[i].slot as int] is Some by {
                    if i < before.heap@.len() {
                        assert(before.heap@[i].slot != slot);
                    }
                }
            }
        }
        let last: usize = self.heap.len() - 1;
        proof {
            assert forall|i: int| 0 < i < last implies #[trigger] in_place(self.heap@, i) by {
                assert(in_place(before.heap@, i));
            }
        }
        self.sift_up(last);
        true
    }

    /// Add an event.
    pub fn push(&mut self, delivery_time: Nanos, seq: u64, payload: EventPayload)
        requires
            old(self).wf(),
            old(self)@.len() <= u32::MAX,
        ensures
            final(self).wf(),
            final(self)@ == old(self)@.insert(Event { delivery_time, seq, payload }),
    {
        self.try_push(delivery_time, seq, payload);
    }

    /// Take out an event than which none is due earlier, if there is one.
    pub fn pop(&mut self) -> (popped: Option<(Nanos, u64, EventPayload)>)
        requires
            old(self).wf(),
        ensures
            final(self).wf(),
            match popped {
                Some((delivery_time, seq, payload)) => {
                    let event = Event { delivery_time, seq, payload };
                    &&& old(self)@.contains(event)
                    &&& final(self)@ == old(self)@.remove(event)
                    &&& forall|other: Event| #[trigger]
                        old(self)@.contains(other) ==> not_after(event, other)
                },
                None => {
                    &&& old(self)@ == Multiset::<Event>::empty()
                    &&& final(self)@ == old(self)@
                },
            },
    {
        broadcast use vstd::seq_lib::group_to_multiset_ensures;

        let ghost before = *self;
        let ghost events = events_of(before.heap@, before.slots@);
        let count: usize = self.heap.len();
        if count == 0 {
            assert(self@.len() == 0);
            return None;
        }
        let top: HeapEntry = self.heap[0];
        proof {
            assert forall|other: Event| #[trigger] before@.contains(other) implies not_after(
                events[0],
                other,
            ) by {
                assert(events.contains(other));
                let i = choose|i: int| 0 <= i < events.len() && events[i] == other;
                lemma_root_least(before.heap@, i);
                lemma_key_order(before.heap@[0].key, before.heap@[i].key);
            }
            assert(events.contains(events[0]));
        }
        let last: HeapEntry = self.heap[count - 1];
        self.heap.pop();
        if self.heap.len() > 0 {
            self.heap[0] = last;
        }
        let payload = self.slots[top.slot as usize];
        self.free.push(top.slot);
        proof {
            lemma_pop_multiset(events);
            let left = events_of(self.heap@, self.slots@);
            let kept = if events.len() > 1 {
                events.drop_last().update(0, events.last())
            } else {
                Seq::empty()
            };
            assert(left =~= kept);
            assert(self.slots_wf()) by {
                assert forall|i: int, j: int| 0 <= i < j < self.heap@.len() implies (
                #[trigger] self.heap@[i]).slot != (#[trigger] self.heap@[j]).slot by {
                    let from = if i == 0 {
                        count - 1
                    } else {
                        i
                    };
                    assert(before.heap@[from].slot == self.heap@[i].slot);
                    assert(before.heap@[j].slot == self.heap@[j].slot);
                }
                assert forall|i: int, k: int|
                    0 <= i < self.heap@.len() && 0 <= k < self.free@.len() implies (
                #[trigger] self.heap@[i]).slot != #[trigger] self.free@[k] by {
                    let from = if i == 0 {
                        count - 1
                    } else {
                        i
                    };
                    assert(before.heap@[from].slot == self.heap@[i].slot);
                    if k < before.free@.len() {
                        assert(self.free@[k] == before.free@[k]);
                    } else {
                        assert(before.heap@[0].slot == self.free@[k]);
                    }
                }
                assert forall|k: int, m: int| 0 <= k < m < self.free@.len() implies self.free@[k]
                    != self.free@[m] by {
                    assert(self.free@[k] == before.free@[k]);
                    if m == before.free@.len() {
                        assert(before.heap@[0].slot != before.free@[k]);
                    }
                }
                assert forall|i: int| 0 <= i < self.heap@.len() implies (
                #[trigger] self.heap@[i]).slot < self.slots@.len()
                    && self.slots@[self.heap@[i].slot as int] is Some by {
                    let from = if i == 0 {
                        count - 1
                    } else {
                        i
                    };
                    assert(before.heap@[from].slot == self.heap@[i].slot);
                }
            }
        }
        if self.heap.len() > 0 {
            proof {
                assert forall|i: int|
                    0 < i < self.heap@.len() && parent(i) != 0 implies #[trigger] in_place(
                    self.heap@,
                    i,
                ) by {
                    assert(in_place(before.heap@, i));
                    assert(before.heap@[i] == self.heap@[i]);
                    assert(before.heap@[parent(i)] == self.heap@[parent(i)]);
                }
            }
            self.sift_down();
        }
        match payload {
            Some(payload) => Some(((top.key / WORD) as u64, (top.key % WORD) as u64, payload)),
            None => None,
        }
    }
}

/// An entry in its place completes the order.
proof fn lemma_ordered(heap: Seq<HeapEntry>, pos: int)
    requires
        ordered_but(heap, pos),
        0 < pos < heap.len() ==> heap[parent(pos)].key <= heap[pos].key,
    ensures
        ordered_but(heap, -1),
{
    assert forall|i: int| 0 < i < heap.len() implies #[trigger] in_place(heap, i) by {}
}

/// One exchange on the way up.
proof fn lemma_sift_up_step(before: Seq<HeapEntry>, after: Seq<HeapEntry>, child: int)
    requires
        0 < child < before.len(),
        ordered_but(before, child),
        bridged(before, child),
        before[parent(child)].key > before[child].key,
        after == before.update(parent(child), before[child]).update(child, before[parent(child)]),
    ensures
        ordered_but(after, parent(child)),
        bridged(after, parent(child)),
{
    let up = parent(child);
    assert forall|i: int| 0 < i < after.len() && i != up implies #[trigger] in_place(after, i) by {
        if i != child {
            assert(in_place(before, i));
            if parent(i) == child {
                assert(spans(before, i));
            }
        }
    }
    if 0 < up {
        assert(in_place(before, up));
        assert forall|c: int| 0 < c < after.len() && parent(c) == up implies #[trigger] spans(
            after,
            c,
        ) by {
            if c != child {
                assert(in_place(before, c));
            }
        }
    }
}

/// One exchange with the smaller child on the way down.
proof fn lemma_sift_down_step(
    before: Seq<HeapEntry>,
    after: Seq<HeapEntry>,
    hole: int,
    child: int,
)
    requires
        0 <= hole < before.len(),
        child < before.len(),
        child == 2 * hole + 1 || child == 2 * hole + 2,
        forall|c: int|
            0 < c < before.len() && #[trigger] parent(c) == hole ==> before[child].key
                <= before[c].key,
        ordered_around(before, hole),
        bridged(before, hole),
        after == before.update(hole, before[child]).update(child, before[hole]),
    ensures
        ordered_around(after, child),
        bridged(after, child),
{
    assert(parent(child) == hole);
    assert forall|i: int|
        0 < i < after.len() && i != child && parent(i) != child implies #[trigger] in_place(
        after,
        i,
    ) by {
        if i == hole {
            assert(spans(before, child));
        } else if parent(i) == hole {
            assert(before[child].key <= before[i].key);
        } else {
            assert(in_place(before, i));
        }
    }
    assert forall|c: int| 0 < c < after.len() && parent(c) == child implies #[trigger] spans(
        after,
        c,
    ) by {
        assert(in_place(before, c));
    }
}

/// The root is no larger than any entry.
proof fn lemma_root_least(heap: Seq<HeapEntry>, i: int)
    requires
        ordered_but(heap, -1),
        0 <= i < heap.len(),
    ensures
        heap[0].key <= heap[i].key,
    decreases i,
{
    if i > 0 {
        lemma_root_least(heap, parent(i));
        assert(in_place(heap, i));
    }
}

/// Keys order events by time, then by sequence number.
proof fn lemma_key_order(a: u128, b: u128)
    requires
        a <= b,
    ensures
        a / WORD < b / WORD || (a / WORD == b / WORD && a % WORD <= b % WORD),
        a / WORD < WORD,
        b / WORD < WORD,
{
}

/// Exchanging two elements keeps the multiset.
proof fn lemma_swap_multiset(s: Seq<Event>, i: int, j: int)
    requires
        0 <= i < s.len(),
        0 <= j < s.len(),
        i != j,
    ensures
        s.update(i, s[j]).update(j, s[i]).to_multiset() == s.to_multiset(),
{
    let t = s.update(i, s[j]);
    lemma_update_multiset(s, i, s[j]);
    lemma_update_multiset(t, j, s[i]);
    assert(s.contains(s[i]));
    vstd::seq_lib::to_multiset_contains(s, s[i]);
    assert(t.update(j, s[i]).to_multiset() =~= s.to_multiset());
}

/// Replacing one element.
proof fn lemma_update_multiset(s: Seq<Event>, i: int, x: Event)
    requires
        0 <= i < s.len(),
    ensures
        s.update(i, x).to_multiset() == s.to_multiset().remove(s[i]).insert(x),
{
    vstd::seq_lib::to_multiset_remove(s, i);
    vstd::seq_lib::to_multiset_insert(s.remove(i), i, x);
    assert(s.remove(i).insert(i, x) =~= s.update(i, x));
}

/// Taking the first element out and putting the last in its place.
proof fn lemma_pop_multiset(s: Seq<Event>)
    requires
        s.len() > 0,
    ensures
        s.len() > 1 ==> s.drop_last().update(0, s.last()).to_multiset() == s.to_multiset().remove(
            s[0],
        ),
        s.len() == 1 ==> s.to_multiset().remove(s[0]) == Seq::<Event>::empty().to_multiset(),
{
    let init = s.drop_last();
    vstd::seq_lib::to_multiset_build(init, s.last());
    assert(init.push(s.last()) =~= s);
    if s.len() > 1 {
        lemma_update_multiset(init, 0, s.last());
        vstd::seq_lib::to_multiset_contains(init, init[0]);
        assert(init.contains(init[0]));
        assert(init.to_multiset().remove(s[0]).insert(s.last())
            =~= s.to_multiset().remove(s[0]));
    } else {
        vstd::seq_lib::to_multiset_remove(s, 0);
        assert(s.remove(0) =~= Seq::<Event>::empty());
    }
}

} // verus!
