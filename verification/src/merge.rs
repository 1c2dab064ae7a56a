//! Merging time-ordered logs into one.

use crate::records::{L1Bucket, L1Snapshot, TradeRecord};
use crate::types::Nanos;
use vstd::prelude::*;

verus! {

/// A record that belongs to a moment.
pub trait Timed: Copy {
    spec fn spec_time(&self) -> Nanos;

    fn time(&self) -> (time: Nanos)
        ensures
            time == self.spec_time(),
    ;
}

impl Timed for TradeRecord {
    open spec fn spec_time(&self) -> Nanos {
        self.timestamp
    }

    fn time(&self) -> (time: Nanos) {
        self.timestamp
    }
}

impl Timed for L1Snapshot {
    open spec fn spec_time(&self) -> Nanos {
        self.timestamp
    }

    fn time(&self) -> (time: Nanos) {
        self.timestamp
    }
}

impl Timed for L1Bucket {
    open spec fn spec_time(&self) -> Nanos {
        self.bucket_start
    }

    fn time(&self) -> (time: Nanos) {
        self.bucket_start
    }
}

/// Records in the order of their times.
pub open spec fn time_ordered<T: Timed>(log: Seq<T>) -> bool {
    forall|i: int, j: int| 0 <= i <= j < log.len() ==> log[i].spec_time() <= log[j].spec_time()
}

/// A place in the logs: which log, and where in it.
pub struct Place {
    pub log: int,
    pub at: int,
}

/// Log `i` has not been read to its end.
pub open spec fn waiting<T>(logs: Seq<Seq<T>>, cursors: Seq<int>, i: int) -> bool {
    0 <= i < logs.len() && cursors[i] < logs[i].len()
}

/// The time of the next record of log `i`.
pub open spec fn head_time<T: Timed>(logs: Seq<Seq<T>>, cursors: Seq<int>, i: int) -> Nanos {
    logs[i][cursors[i]].spec_time()
}

/// Log `i` has the earliest next record, and is the first log with one as
/// early.
pub open spec fn is_next<T: Timed>(logs: Seq<Seq<T>>, cursors: Seq<int>, i: int) -> bool {
    &&& waiting(logs, cursors, i)
    &&& forall|j: int| #[trigger]
        waiting(logs, cursors, j) ==> {
            &&& head_time(logs, cursors, i) <= head_time(logs, cursors, j)
            &&& j < i ==> head_time(logs, cursors, i) < head_time(logs, cursors, j)
        }
}

/// Number of records not yet read.
pub open spec fn unread<T>(logs: Seq<Seq<T>>, cursors: Seq<int>) -> nat
    decreases logs.len(),
{
    if logs.len() == 0 {
        0
    } else {
        let here = logs.last().len() - cursors.last();
        unread(logs.drop_last(), cursors.drop_last()) + if here > 0 {
            here as nat
        } else {
            0
        }
    }
}

/// The places of all records from `cursors` on, always the earliest next
/// record first.
pub open spec fn merge_order<T: Timed>(
    logs: Seq<Seq<T>>,
    cursors: Seq<int>,
    count: nat,
) -> Seq<Place>
    decreases count,
{
    if count == 0 || !(exists|i: int| is_next(logs, cursors, i)) {
        Seq::empty()
    } else {
        let i = choose|i: int| is_next(logs, cursors, i);
        seq![Place { log: i, at: cursors[i] }] + merge_order(
            logs,
            cursors.update(i, cursors[i] + 1),
            (count - 1) as nat,
        )
    }
}

/// All records of the logs in the order of their times; records of the same
/// time in the order of their logs.
pub open spec fn merged<T: Timed>(logs: Seq<Seq<T>>) -> Seq<T> {
    let start = Seq::new(logs.len(), |i: int| 0int);
    merge_order(logs, start, unread(logs, start)).map_values(|p: Place| logs[p.log][p.at])
}

/// At most one log is next.
proof fn lemma_next_unique<T: Timed>(logs: Seq<Seq<T>>, cursors: Seq<int>, i: int)
    requires
        is_next(logs, cursors, i),
    ensures
        (choose|k: int| is_next(logs, cursors, k)) == i,
{
    let k = choose|k: int| is_next(logs, cursors, k);
    assert(is_next(logs, cursors, k));
    assert(waiting(logs, cursors, k) && waiting(logs, cursors, i));
}

/// Reading one record leaves one less to read.
proof fn lemma_unread_step<T>(logs: Seq<Seq<T>>, cursors: Seq<int>, i: int)
    requires
        logs.len() == cursors.len(),
        waiting(logs, cursors, i),
    ensures
        unread(logs, cursors) > 0,
        unread(logs, cursors.update(i, cursors[i] + 1)) == unread(logs, cursors) - 1,
    decreases logs.len(),
{
    let next = cursors.update(i, cursors[i] + 1);
    if i == logs.len() - 1 {
        assert(next.drop_last() =~= cursors.drop_last());
    } else {
        assert(next.drop_last() =~= cursors.drop_last().update(i, cursors[i] + 1));
        assert(waiting(logs.drop_last(), cursors.drop_last(), i));
        lemma_unread_step(logs.drop_last(), cursors.drop_last(), i);
    }
}

/// Nothing is left to read when no log waits.
proof fn lemma_unread_none<T>(logs: Seq<Seq<T>>, cursors: Seq<int>)
    requires
        logs.len() == cursors.len(),
        forall|i: int| !waiting(logs, cursors, i),
    ensures
        unread(logs, cursors) == 0,
    decreases logs.len(),
{
    if logs.len() > 0 {
        assert(!waiting(logs, cursors, logs.len() - 1));
        assert forall|i: int| !waiting(logs.drop_last(), cursors.drop_last(), i) by {
            assert(!waiting(logs, cursors, i));
        }
        lemma_unread_none(logs.drop_last(), cursors.drop_last());
    }
}

/// Merge logs into one timestamp-ordered log.
///
/// Each log is read from its front, always the earliest next record first,
/// and of records as early as each other the one of the first log. On logs
/// that are sorted by time this gives what sorting their concatenation with a
/// stable sort would, in linear time.
pub fn merge_by_time<T: Timed>(logs: &Vec<Vec<T>>) -> (all: Vec<T>)
    ensures
        all@ == merged(logs@.map_values(|log: Vec<T>| log@)),
{
    let ghost shown = logs@.map_values(|log: Vec<T>| log@);
    let ghost read = |p: Place| shown[p.log][p.at];
    let mut cursors: Vec<usize> = Vec::new();
    for i in 0..logs.len()
        invariant
            cursors@.len() == i,
            forall|k: int| 0 <= k < i ==> cursors@[k] == 0,
    {
        cursors.push(0);
    }
    let mut all: Vec<T> = Vec::new();
    let ghost mut at: Seq<int> = Seq::new(shown.len(), |i: int| 0int);
    let ghost whole = merge_order(shown, at, unread(shown, at)).map_values(read);
    assert(all@ + whole =~= whole);
    loop
        invariant
            shown == logs@.map_values(|log: Vec<T>| log@),
            read == (|p: Place| shown[p.log][p.at]),
            cursors@.len() == logs@.len(),
            at.len() == logs@.len(),
            forall|k: int| 0 <= k < logs@.len() ==> #[trigger] at[k] == cursors@[k],
            forall|k: int| 0 <= k < logs@.len() ==> #[trigger] cursors@[k] <= logs@[k]@.len(),
            all@ + merge_order(shown, at, unread(shown, at)).map_values(read) == whole,
        ensures
            all@ == whole,
        decreases unread(shown, at),
    {
        let ghost done = all@;
        let ghost rest = merge_order(shown, at, unread(shown, at));
        match next_log(logs, &cursors) {
            None => {
                proof {
                    assert forall|i: int| !waiting(shown, at, i) by {}
                    lemma_unread_none(shown, at);
                    assert(rest =~= Seq::empty());
                    assert(done + rest.map_values(read) =~= done);
                }
                break;
            },
            Some(i) => {
                let ghost before = at;
                proof {
                    assert(is_next(shown, at, i as int)) by {
                        assert forall|j: int| #[trigger] waiting(shown, at, j) implies {
                            &&& head_time(shown, at, i as int) <= head_time(shown, at, j)
                            &&& j < i ==> head_time(shown, at, i as int) < head_time(shown, at, j)
                        } by {}
                    }
                    lemma_next_unique(shown, at, i as int);
                    lemma_unread_step(shown, at, i as int);
                    at = at.update(i as int, at[i as int] + 1);
                }
                let cursor: usize = cursors[i];
                let end: usize = logs[i].len();
                assert(cursor < end);
                all.push(logs[i][cursor]);
                cursors[i] = cursor + 1;
                proof {
                    let left = merge_order(shown, at, unread(shown, at));
                    let first = Place { log: i as int, at: before[i as int] };
                    assert(rest == seq![first] + left);
                    assert(all@ + left.map_values(read) =~= done + rest.map_values(read));
                }
            },
        }
    }
    all
}

/// The log with the earliest next record, the first of several.
fn next_log<T: Timed>(logs: &Vec<Vec<T>>, cursors: &Vec<usize>) -> (next: Option<usize>)
    requires
        cursors@.len() == logs@.len(),
        forall|k: int| 0 <= k < logs@.len() ==> #[trigger] cursors@[k] <= logs@[k]@.len(),
    ensures
        match next {
            Some(i) => {
                &&& i < logs@.len()
                &&& cursors@[i as int] < logs@[i as int]@.len()
                &&& forall|j: int|
                    0 <= j < logs@.len() && #[trigger] cursors@[j] < logs@[j]@.len() ==> {
                        let here = logs@[i as int]@[cursors@[i as int] as int].spec_time();
                        let there = logs@[j]@[cursors@[j] as int].spec_time();
                        &&& here <= there
                        &&& j < i ==> here < there
                    }
            },
            None => forall|j: int|
                0 <= j < logs@.len() ==> #[trigger] cursors@[j] >= logs@[j]@.len(),
        },
{
    let mut best: Option<(usize, Nanos)> = None;
    for i in 0..logs.len()
        invariant
            cursors@.len() == logs@.len(),
            forall|k: int| 0 <= k < logs@.len() ==> #[trigger] cursors@[k] <= logs@[k]@.len(),
            match best {
                Some((b, time)) => {
                    &&& b < i
                    &&& cursors@[b as int] < logs@[b as int]@.len()
                    &&& time == logs@[b as int]@[cursors@[b as int] as int].spec_time()
                    &&& forall|j: int|
                        0 <= j < i && #[trigger] cursors@[j] < logs@[j]@.len() ==> {
                            let there = logs@[j]@[cursors@[j] as int].spec_time();
                            &&& time <= there
                            &&& j < b ==> time < there
                        }
                },
                None => forall|j: int|
                    0 <= j < i ==> #[trigger] cursors@[j] >= logs@[j]@.len(),
            },
    {
        if cursors[i] < logs[i].len() {
            let time: Nanos = logs[i][cursors[i]].time();
            let better = match best {
                Some((_, earliest)) => time < earliest,
                None => true,
            };
            if better {
                best = Some((i, time));
            }
        }
    }
    match best {
        Some((i, _)) => Some(i),
        None => None,
    }
}

/// One place comes before another: earlier, or at the same time in an earlier
/// log, or further ahead in the same log.
pub open spec fn precedes<T: Timed>(logs: Seq<Seq<T>>, a: Place, b: Place) -> bool {
    let ta = logs[a.log][a.at].spec_time();
    let tb = logs[b.log][b.at].spec_time();
    ta < tb || (ta == tb && (a.log < b.log || (a.log == b.log && a.at < b.at)))
}

/// The place is one of a record not yet read.
pub open spec fn ahead_of<T>(logs: Seq<Seq<T>>, cursors: Seq<int>, p: Place) -> bool {
    0 <= p.log < logs.len() && cursors[p.log] <= p.at < logs[p.log].len()
}

/// On logs sorted by time, the merge reads every record once, in the order of
/// times, and records of the same time in the order of a stable sort.
pub proof fn law_merge_is_a_stable_sort<T: Timed>(logs: Seq<Seq<T>>)
    requires
        forall|i: int| 0 <= i < logs.len() ==> time_ordered(#[trigger] logs[i]),
    ensures
        ({
            let start = Seq::new(logs.len(), |i: int| 0int);
            let order = merge_order(logs, start, unread(logs, start));
            &&& merged(logs) == order.map_values(|p: Place| logs[p.log][p.at])
            &&& forall|k: int| 0 <= k < order.len() ==> ahead_of(logs, start, #[trigger] order[k])
            &&& forall|p: Place| ahead_of(logs, start, p) ==> order.contains(p)
            &&& forall|a: int, b: int|
                0 <= a < b < order.len() ==> precedes(
                    logs,
                    #[trigger] order[a],
                    #[trigger] order[b],
                )
            &&& time_ordered(merged(logs))
        }),
{
    let start = Seq::new(logs.len(), |i: int| 0int);
    lemma_merge_order(logs, start);
}

/// The same from any point on.
proof fn lemma_merge_order<T: Timed>(logs: Seq<Seq<T>>, cursors: Seq<int>)
    requires
        forall|i: int| 0 <= i < logs.len() ==> time_ordered(#[trigger] logs[i]),
        cursors.len() == logs.len(),
        forall|i: int| 0 <= i < logs.len() ==> 0 <= #[trigger] cursors[i] <= logs[i].len(),
    ensures
        ({
            let order = merge_order(logs, cursors, unread(logs, cursors));
            &&& forall|k: int|
                0 <= k < order.len() ==> ahead_of(logs, cursors, #[trigger] order[k])
            &&& forall|p: Place| ahead_of(logs, cursors, p) ==> order.contains(p)
            &&& forall|a: int, b: int|
                0 <= a < b < order.len() ==> precedes(
                    logs,
                    #[trigger] order[a],
                    #[trigger] order[b],
                )
        }),
    decreases unread(logs, cursors),
{
    let order = merge_order(logs, cursors, unread(logs, cursors));
    if exists|i: int| waiting(logs, cursors, i) {
        let w = choose|i: int| waiting(logs, cursors, i);
        lemma_next_exists(logs, cursors, w);
        let i = choose|i: int| is_next(logs, cursors, i);
        lemma_unread_step(logs, cursors, i);
        let next = cursors.update(i, cursors[i] + 1);
        lemma_merge_order(logs, next);
        let rest = merge_order(logs, next, unread(logs, next));
        let first = Place { log: i, at: cursors[i] };
        assert(order == seq![first] + rest);
        assert forall|k: int| 0 <= k < order.len() implies ahead_of(
            logs,
            cursors,
            #[trigger] order[k],
        ) by {
            if k > 0 {
                assert(order[k] == rest[k - 1]);
            }
        }
        assert forall|p: Place| ahead_of(logs, cursors, p) implies order.contains(p) by {
            if p == first {
                assert(order[0] == p);
            } else {
                assert(ahead_of(logs, next, p));
                assert(rest.contains(p));
                let k = choose|k: int| 0 <= k < rest.len() && rest[k] == p;
                assert(order[k + 1] == p);
            }
        }
        assert forall|a: int, b: int| 0 <= a < b < order.len() implies precedes(
            logs,
            #[trigger] order[a],
            #[trigger] order[b],
        ) by {
            let p = rest[b - 1];
            assert(order[b] == p);
            if a == 0 {
                assert(ahead_of(logs, next, p));
                assert(waiting(logs, cursors, p.log));
                assert(time_ordered(logs[p.log]));
                assert(head_time(logs, cursors, p.log) <= logs[p.log][p.at].spec_time());
            } else {
                assert(order[a] == rest[a - 1]);
            }
        }
    } else {
        lemma_unread_none(logs, cursors);
        assert forall|p: Place| !ahead_of(logs, cursors, p) by {
            assert(!waiting(logs, cursors, p.log));
        }
    }
}

/// Among logs that wait, one is next.
proof fn lemma_next_exists<T: Timed>(logs: Seq<Seq<T>>, cursors: Seq<int>, w: int)
    requires
        waiting(logs, cursors, w),
    ensures
        exists|i: int| is_next(logs, cursors, i),
    decreases head_time(logs, cursors, w), w,
{
    if !is_next(logs, cursors, w) {
        let j = choose|j: int|
            #![trigger waiting(logs, cursors, j)]
            waiting(logs, cursors, j) && (head_time(logs, cursors, j) < head_time(logs, cursors, w)
                || (j < w && head_time(logs, cursors, j) <= head_time(logs, cursors, w)));
        lemma_next_exists(logs, cursors, j);
    }
}

} // verus!
