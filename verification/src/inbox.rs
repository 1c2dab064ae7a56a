//! Inboxes: messages on their way to one agent, taken out in the order in
//! which they are due.

use crate::kernel_model::{due_before, due_by, InboxEntry};
use crate::types::Nanos;
use vstd::prelude::*;

verus! {

/// One entry is due no later than another.
pub open spec fn no_later(a: InboxEntry, b: InboxEntry) -> bool {
    a.delivery_time < b.delivery_time || (a.delivery_time == b.delivery_time && a.seq <= b.seq)
}

/// Entries in the order in which they are due.
pub open spec fn in_due_order(entries: Seq<InboxEntry>) -> bool {
    forall|i: int, j: int| 0 <= i <= j < entries.len() ==> no_later(entries[i], entries[j])
}

/// Put an inbox in the order in which its entries are due. Entries mostly
/// arrive in that order, so few have to move.
fn sort_inbox(inbox: &mut Vec<InboxEntry>)
    ensures
        in_due_order(final(inbox)@),
        final(inbox)@.to_multiset() == old(inbox)@.to_multiset(),
        final(inbox)@.len() == old(inbox)@.len(),
{
    let count: usize = inbox.len();
    let mut sorted: usize = 0;
    while sorted < count
        invariant
            sorted <= count,
            count == inbox@.len(),
            in_due_order(inbox@.take(sorted as int)),
            inbox@.to_multiset() == old(inbox)@.to_multiset(),
            inbox@.len() == old(inbox)@.len(),
        decreases count - sorted,
    {
        let mut pos: usize = sorted;
        proof {
            let done = inbox@.take(sorted as int);
            assert forall|i: int, j: int| 0 <= i <= j < sorted implies no_later(
                inbox@[i],
                inbox@[j],
            ) by {
                assert(no_later(done[i], done[j]));
            }
        }
        while pos > 0
            invariant
                pos <= sorted < count,
                count == inbox@.len(),
                inbox@.to_multiset() == old(inbox)@.to_multiset(),
                inbox@.len() == old(inbox)@.len(),
                forall|i: int, j: int|
                    0 <= i <= j <= sorted && i != pos && j != pos ==> no_later(
                        inbox@[i],
                        inbox@[j],
                    ),
                forall|j: int| pos < j <= sorted ==> no_later(inbox@[pos as int], inbox@[j]),
            ensures
                forall|i: int, j: int|
                    0 <= i <= j <= sorted ==> no_later(inbox@[i], inbox@[j]),
            decreases pos,
        {
            let a: InboxEntry = inbox[pos - 1];
            let b: InboxEntry = inbox[pos];
            if a.delivery_time < b.delivery_time || (a.delivery_time == b.delivery_time && a.seq
                <= b.seq) {
                assert forall|i: int, j: int| 0 <= i <= j <= sorted implies no_later(
                    inbox@[i],
                    inbox@[j],
                ) by {
                    if j == pos && i < pos {
                        assert(no_later(inbox@[i], inbox@[pos - 1]));
                    }
                }
                break;
            }
            let ghost before = inbox@;
            inbox[pos - 1] = b;
            inbox[pos] = a;
            proof {
                lemma_swap(before, pos - 1, pos as int);
                assert(inbox@ =~= before.update(pos - 1, b).update(pos as int, a));
            }
            pos = pos - 1;
        }
        assert(forall|i: int, j: int|
            0 <= i <= j <= sorted ==> no_later(inbox@[i], inbox@[j]));
        sorted = sorted + 1;
    }
    assert(inbox@.take(count as int) =~= inbox@);
}

/// Exchanging two entries keeps the multiset.
proof fn lemma_swap(s: Seq<InboxEntry>, i: int, j: int)
    requires
        0 <= i < j < s.len(),
    ensures
        s.update(i, s[j]).update(j, s[i]).to_multiset() == s.to_multiset(),
{
    let t = s.update(i, s[j]);
    lemma_replace(s, i, s[j]);
    lemma_replace(t, j, s[i]);
    vstd::seq_lib::to_multiset_contains(s, s[i]);
    assert(s.contains(s[i]));
    assert(t.update(j, s[i]).to_multiset() =~= s.to_multiset());
}

proof fn lemma_replace(s: Seq<InboxEntry>, i: int, x: InboxEntry)
    requires
        0 <= i < s.len(),
    ensures
        s.update(i, x).to_multiset() == s.to_multiset().remove(s[i]).insert(x),
{
    vstd::seq_lib::to_multiset_remove(s, i);
    vstd::seq_lib::to_multiset_insert(s.remove(i), i, x);
    assert(s.remove(i).insert(i, x) =~= s.update(i, x));
}

/// A predicate that holds on exactly the first entries splits the multiset
/// where it splits the sequence.
proof fn lemma_split(s: Seq<InboxEntry>, count: int, pred: spec_fn(InboxEntry) -> bool)
    requires
        0 <= count <= s.len(),
        forall|i: int| 0 <= i < count ==> pred(#[trigger] s[i]),
        forall|i: int| count <= i < s.len() ==> !pred(#[trigger] s[i]),
    ensures
        s.subrange(0, count).to_multiset() == s.to_multiset().filter(pred),
        s.subrange(count, s.len() as int).to_multiset() == s.to_multiset().filter(
            |entry: InboxEntry| !pred(entry),
        ),
{
    broadcast use vstd::multiset::group_multiset_axioms;

    let a = s.subrange(0, count);
    let b = s.subrange(count, s.len() as int);
    assert(a + b =~= s);
    vstd::seq_lib::lemma_multiset_commutative(a, b);
    let other = |entry: InboxEntry| !pred(entry);
    let ma = a.to_multiset();
    let mb = b.to_multiset();
    let ms = s.to_multiset();
    assert forall|x: InboxEntry| #[trigger] ma.count(x) == ms.filter(pred).count(x) && mb.count(x)
        == ms.filter(other).count(x) by {
        vstd::seq_lib::to_multiset_contains(a, x);
        vstd::seq_lib::to_multiset_contains(b, x);
        if a.contains(x) {
            let i = choose|i: int| 0 <= i < a.len() && a[i] == x;
            assert(pred(s[i]));
        }
        if b.contains(x) {
            let i = choose|i: int| 0 <= i < b.len() && b[i] == x;
            assert(!pred(s[i + count]));
        }
    }
    assert(ma =~= ms.filter(pred));
    assert forall|x: InboxEntry| #[trigger] mb.count(x) == ms.filter(other).count(x) by {
        assert(ma.count(x) == ms.filter(pred).count(x));
    }
    assert(mb =~= ms.filter(other));
}

/// Take out the entries that are due strictly before the moment
/// (`time`, `seq`), in the order in which they are due.
pub fn take_due(inbox: &mut Vec<InboxEntry>, time: Nanos, seq: u64) -> (due: Vec<InboxEntry>)
    ensures
        in_due_order(due@),
        due@.to_multiset() == old(inbox)@.to_multiset().filter(
            |entry: InboxEntry| due_before(entry, time, seq),
        ),
        final(inbox)@.to_multiset() == old(inbox)@.to_multiset().filter(
            |entry: InboxEntry| !due_before(entry, time, seq),
        ),
{
    sort_inbox(inbox);
    let mut count: usize = 0;
    let end: usize = inbox.len();
    while count < end && (inbox[count].delivery_time < time || (inbox[count].delivery_time == time
        && inbox[count].seq < seq))
        invariant
            count <= end,
            end == inbox@.len(),
            forall|i: int| 0 <= i < count ==> due_before(#[trigger] inbox@[i], time, seq),
        decreases end - count,
    {
        count = count + 1;
    }
    let ghost all = inbox@;
    proof {
        assert forall|i: int| count <= i < all.len() implies !due_before(
            #[trigger] all[i],
            time,
            seq,
        ) by {
            assert(no_later(all[count as int], all[i]));
        }
        let pred = |entry: InboxEntry| due_before(entry, time, seq);
        lemma_split(all, count as int, pred);
        assert(all.to_multiset().filter(|entry: InboxEntry| !pred(entry))
            =~= all.to_multiset().filter(|entry: InboxEntry| !due_before(entry, time, seq)));
    }
    let mut due = inbox.split_off(count);
    std::mem::swap(inbox, &mut due);
    due
}

/// Take out the entries that are due by `time`, in the order in which they
/// are due. What stays is in that order as well.
pub fn take_due_by(inbox: &mut Vec<InboxEntry>, time: Nanos) -> (due: Vec<InboxEntry>)
    ensures
        in_due_order(due@),
        in_due_order(final(inbox)@),
        due@.to_multiset() == old(inbox)@.to_multiset().filter(
            |entry: InboxEntry| due_by(entry, time),
        ),
        final(inbox)@.to_multiset() == old(inbox)@.to_multiset().filter(
            |entry: InboxEntry| !due_by(entry, time),
        ),
{
    sort_inbox(inbox);
    let mut count: usize = 0;
    let end: usize = inbox.len();
    while count < end && inbox[count].delivery_time <= time
        invariant
            count <= end,
            end == inbox@.len(),
            forall|i: int| 0 <= i < count ==> due_by(#[trigger] inbox@[i], time),
        decreases end - count,
    {
        count = count + 1;
    }
    let ghost all = inbox@;
    proof {
        assert forall|i: int| count <= i < all.len() implies !due_by(#[trigger] all[i], time) by {
            assert(no_later(all[count as int], all[i]));
        }
        let pred = |entry: InboxEntry| due_by(entry, time);
        lemma_split(all, count as int, pred);
        assert(all.to_multiset().filter(|entry: InboxEntry| !pred(entry))
            =~= all.to_multiset().filter(|entry: InboxEntry| !due_by(entry, time)));
    }
    let mut due = inbox.split_off(count);
    std::mem::swap(inbox, &mut due);
    due
}

} // verus!
