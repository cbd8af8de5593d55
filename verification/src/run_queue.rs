//! The ready queue as a sequence: waiting, aging and the stable priority order.
//!
//! The order is specified by buckets: the sorted queue is the processes of
//! priority 0 in the order they had in the queue, then those of priority 1, and so on.
//! That one definition gives ascending priorities and stability at once; the
//! laws below spell both out and show that no other arrangement has them.

use crate::process::Process;
use std::collections::VecDeque;
use vstd::multiset::Multiset;
use vstd::prelude::*;
use vstd::seq_lib::*;

verus! {

/// A process after one more tick in the ready queue: it has waited one tick
/// longer, and the aging rule has then been applied.
pub open spec fn waited(p: Process) -> Process {
    Process { waiting_time: (p.waiting_time + 1) as u32, ..p }.aged()
}

/// Every process of the queue after one more tick of waiting, order unchanged.
pub open spec fn age_queue(q: Seq<Process>) -> Seq<Process> {
    Seq::new(q.len(), |i: int| waited(q[i]))
}

/// The predicate "has priority `k`".
pub open spec fn has_priority(k: int) -> spec_fn(Process) -> bool {
    |p: Process| p.priority as int == k
}

/// The processes of priority `k`, in the order in which they stand in `q`.
pub open spec fn with_priority(q: Seq<Process>, k: int) -> Seq<Process> {
    q.filter(has_priority(k))
}

/// The processes of priority at most `k`: bucket after bucket, each bucket in
/// queue order.
#[verifier::opaque]
pub open spec fn sorted_through(q: Seq<Process>, k: int) -> Seq<Process>
    decreases k + 1,
{
    if k < 0 {
        Seq::empty()
    } else {
        sorted_through(q, k - 1) + with_priority(q, k)
    }
}

/// The queue in ascending priority, equal priorities in the order they had in the queue.
pub open spec fn sort_by_priority(q: Seq<Process>) -> Seq<Process> {
    sorted_through(q, u8::MAX as int)
}

/// No process stands behind one of larger priority number.
pub open spec fn is_priority_ordered(q: Seq<Process>) -> bool {
    forall|i: int, j: int| 0 <= i <= j < q.len() ==> q[i].priority <= q[j].priority
}

/// The identities of the processes of a queue, each as often as it occurs.
pub open spec fn pids_of(q: Seq<Process>) -> Multiset<u32>
    decreases q.len(),
{
    if q.len() == 0 {
        Multiset::empty()
    } else {
        pids_of(q.drop_last()).insert(q.last().pid)
    }
}

/// Every process in the queue can wait one more tick without its counter
/// leaving `u32`.
pub open spec fn can_wait(q: Seq<Process>) -> bool {
    forall|i: int| 0 <= i < q.len() ==> (#[trigger] q[i]).waiting_time < u32::MAX
}

proof fn lemma_with_priority_members(q: Seq<Process>, k: int)
    ensures
        forall|i: int|
            0 <= i < with_priority(q, k).len() ==> (#[trigger] with_priority(q, k)[i]).priority
                == k,
{
    assert forall|i: int| 0 <= i < with_priority(q, k).len() implies (#[trigger] with_priority(
        q,
        k,
    )[i]).priority == k by {
        q.lemma_filter_pred(has_priority(k), i);
    }
}

proof fn lemma_sorted_through_members(q: Seq<Process>, k: int)
    ensures
        forall|i: int|
            0 <= i < sorted_through(q, k).len() ==> (#[trigger] sorted_through(q, k)[i]).priority
                <= k,
        is_priority_ordered(sorted_through(q, k)),
    decreases k + 1,
{
    reveal(sorted_through);
    if k >= 0 {
        lemma_sorted_through_members(q, k - 1);
        lemma_with_priority_members(q, k);
        let head = sorted_through(q, k - 1);
        let bucket = with_priority(q, k);
        let all = sorted_through(q, k);
        assert forall|i: int| 0 <= i < all.len() implies (#[trigger] all[i]).priority <= k by {
            if i < head.len() {
                assert(all[i] == head[i]);
            } else {
                assert(all[i] == bucket[i - head.len()]);
            }
        }
        assert forall|i: int, j: int| 0 <= i <= j < all.len() implies all[i].priority
            <= all[j].priority by {
            if j < head.len() {
                assert(all[i] == head[i] && all[j] == head[j]);
            } else if i < head.len() {
                assert(all[i] == head[i] && all[j] == bucket[j - head.len()]);
            } else {
                assert(all[i] == bucket[i - head.len()] && all[j] == bucket[j - head.len()]);
            }
        }
    }
}

/// The buckets up to `low` are a prefix of the buckets up to `high`, and what
/// follows that prefix has priority above `low`.
proof fn lemma_sorted_through_prefix(q: Seq<Process>, low: int, high: int)
    requires
        low <= high,
    ensures
        sorted_through(q, low).len() <= sorted_through(q, high).len(),
        forall|i: int|
            0 <= i < sorted_through(q, low).len() ==> sorted_through(q, high)[i] == sorted_through(
                q,
                low,
            )[i],
        forall|i: int|
            sorted_through(q, low).len() <= i < sorted_through(q, high).len() ==> (
            #[trigger] sorted_through(q, high)[i]).priority > low,
    decreases high - low,
{
    reveal(sorted_through);
    if low < high {
        lemma_sorted_through_prefix(q, low, high - 1);
        lemma_with_priority_members(q, high);
        let head = sorted_through(q, high - 1);
        let bucket = with_priority(q, high);
        let all = sorted_through(q, high);
        assert forall|i: int| sorted_through(q, low).len() <= i < all.len() implies (
        #[trigger] all[i]).priority > low by {
            if i < head.len() {
                assert(all[i] == head[i]);
            } else {
                assert(all[i] == bucket[i - head.len()]);
            }
        }
    }
}

/// Appending `x` to the queue puts it, in the sorted queue, right behind the
/// processes of priority up to its own.
proof fn lemma_sorted_through_push(q: Seq<Process>, x: Process, k: int)
    ensures
        k < x.priority ==> sorted_through(q.push(x), k) == sorted_through(q, k),
        k >= x.priority ==> sorted_through(q.push(x), k) == sorted_through(q, k).insert(
            sorted_through(q, x.priority as int).len() as int,
            x,
        ),
    decreases k + 1,
{
    reveal(sorted_through);
    if k >= 0 {
        lemma_sorted_through_push(q, x, k - 1);
        q.lemma_filter_push(x, has_priority(k));
        let at = sorted_through(q, x.priority as int).len() as int;
        if k == x.priority {
            assert(sorted_through(q.push(x), k) =~= sorted_through(q, k).insert(at, x));
        } else if k > x.priority {
            lemma_sorted_through_prefix(q, x.priority as int, k - 1);
            assert(sorted_through(q.push(x), k) =~= sorted_through(q, k).insert(at, x));
        }
    }
}

/// Where a new process enters the sorted queue: behind every process of
/// priority up to its own and before every process of larger priority
/// number. Only one position qualifies.
proof fn lemma_insert_sorted(q: Seq<Process>, x: Process, at: int)
    requires
        0 <= at <= sort_by_priority(q).len(),
        forall|i: int| 0 <= i < at ==> sort_by_priority(q)[i].priority <= x.priority,
        forall|i: int|
            at <= i < sort_by_priority(q).len() ==> sort_by_priority(q)[i].priority > x.priority,
    ensures
        sort_by_priority(q.push(x)) == sort_by_priority(q).insert(at, x),
{
    let k = x.priority as int;
    let sorted = sort_by_priority(q);
    let split = sorted_through(q, k).len() as int;
    lemma_sorted_through_prefix(q, k, u8::MAX as int);
    lemma_sorted_through_members(q, k);
    lemma_sorted_through_push(q, x, u8::MAX as int);
    if at < split {
        assert(sorted[at] == sorted_through(q, k)[at]);
    } else if at > split {
        assert(sorted[split].priority > k);
    }
}

/// Sorting puts the queue in ascending priority.
pub proof fn lemma_sort_orders(q: Seq<Process>)
    ensures
        is_priority_ordered(sort_by_priority(q)),
{
    lemma_sorted_through_members(q, u8::MAX as int);
}

proof fn lemma_bucket_of_bucket(q: Seq<Process>, j: int, k: int)
    ensures
        with_priority(with_priority(q, j), k) == if j == k {
            with_priority(q, k)
        } else {
            Seq::<Process>::empty()
        },
    decreases q.len(),
{
    reveal(Seq::filter);
    if q.len() > 0 {
        let front = q.drop_last();
        lemma_bucket_of_bucket(front, j, k);
        assert(q == front.push(q.last()));
        front.lemma_filter_push(q.last(), has_priority(j));
        if has_priority(j)(q.last()) {
            with_priority(front, j).lemma_filter_push(q.last(), has_priority(k));
        }
    }
}

proof fn lemma_bucket_of_sorted_through(q: Seq<Process>, top: int, k: int)
    ensures
        with_priority(sorted_through(q, top), k) == if 0 <= k <= top {
            with_priority(q, k)
        } else {
            Seq::<Process>::empty()
        },
    decreases top + 1,
{
    reveal(sorted_through);
    if top >= 0 {
        lemma_bucket_of_sorted_through(q, top - 1, k);
        lemma_bucket_of_bucket(q, top, k);
        Seq::filter_distributes_over_add(
            sorted_through(q, top - 1),
            with_priority(q, top),
            has_priority(k),
        );
        assert(with_priority(sorted_through(q, top), k) =~= if 0 <= k <= top {
            with_priority(q, k)
        } else {
            Seq::<Process>::empty()
        });
    } else {
        reveal(Seq::filter);
    }
}

/// Sorting is stable: the processes of any one priority stand in the sorted
/// queue exactly as they stood before, none lost, none added, none
/// overtaken.
pub proof fn lemma_sort_is_stable(q: Seq<Process>, k: int)
    ensures
        with_priority(sort_by_priority(q), k) == with_priority(q, k),
{
    lemma_bucket_of_sorted_through(q, u8::MAX as int, k);
    if !(0 <= k <= u8::MAX) {
        assert(with_priority(q, k).len() == 0) by {
            if with_priority(q, k).len() > 0 {
                q.lemma_filter_pred(has_priority(k), 0);
            }
        }
        assert(with_priority(q, k) =~= Seq::<Process>::empty());
    }
}

/// Sorting rearranges: the sorted queue holds the same processes, each as
/// often as the queue held it.
pub proof fn lemma_sort_permutes(q: Seq<Process>)
    ensures
        sort_by_priority(q).to_multiset() == q.to_multiset(),
        sort_by_priority(q).len() == q.len(),
    decreases q.len(),
{
    broadcast use group_to_multiset_ensures;

    if q.len() == 0 {
        lemma_sorted_through_empty(q, u8::MAX as int);
    } else {
        let front = q.drop_last();
        let x = q.last();
        assert(q == front.push(x));
        lemma_sort_permutes(front);
        lemma_sorted_through_push(front, x, u8::MAX as int);
        lemma_sorted_through_prefix(front, x.priority as int, u8::MAX as int);
        let at = sorted_through(front, x.priority as int).len() as int;
        to_multiset_insert(sort_by_priority(front), at, x);
    }
}

proof fn lemma_sorted_through_empty(q: Seq<Process>, k: int)
    requires
        q.len() == 0,
    ensures
        sorted_through(q, k) == Seq::<Process>::empty(),
    decreases k + 1,
{
    reveal(sorted_through);
    reveal(Seq::filter);
    if k >= 0 {
        lemma_sorted_through_empty(q, k - 1);
        assert(sorted_through(q, k) =~= Seq::<Process>::empty());
    }
}

proof fn lemma_sorted_through_same_buckets(a: Seq<Process>, b: Seq<Process>, top: int)
    requires
        forall|k: int| 0 <= k <= top ==> with_priority(a, k) == with_priority(b, k),
    ensures
        sorted_through(a, top) == sorted_through(b, top),
    decreases top + 1,
{
    reveal(sorted_through);
    if top >= 0 {
        lemma_sorted_through_same_buckets(a, b, top - 1);
    }
}

proof fn lemma_ordered_front(q: Seq<Process>)
    requires
        is_priority_ordered(q),
        q.len() > 0,
    ensures
        is_priority_ordered(q.drop_last()),
        forall|i: int|
            0 <= i < q.len() - 1 ==> (#[trigger] q.drop_last()[i]).priority <= q.last().priority,
{
    let front = q.drop_last();
    assert forall|i: int, j: int| 0 <= i <= j < front.len() implies front[i].priority
        <= front[j].priority by {
        assert(q[i].priority <= q[j].priority);
    }
    assert forall|i: int| 0 <= i < q.len() - 1 implies (#[trigger] front[i]).priority
        <= q.last().priority by {
        assert(q[i].priority <= q[q.len() - 1].priority);
    }
}

proof fn lemma_sort_push_last(front: Seq<Process>, x: Process)
    requires
        sort_by_priority(front) == front,
        forall|i: int| 0 <= i < front.len() ==> (#[trigger] front[i]).priority <= x.priority,
    ensures
        sort_by_priority(front.push(x)) == front.push(x),
{
    lemma_insert_sorted(front, x, front.len() as int);
    assert(front.insert(front.len() as int, x) =~= front.push(x));
}

/// A queue already in ascending priority is left as it is.
pub proof fn lemma_sort_keeps_ordered(q: Seq<Process>)
    requires
        is_priority_ordered(q),
    ensures
        sort_by_priority(q) == q,
    decreases q.len(),
{
    if q.len() == 0 {
        lemma_sorted_through_empty(q, u8::MAX as int);
        assert(q =~= Seq::<Process>::empty());
    } else {
        lemma_ordered_front(q);
        lemma_sort_keeps_ordered(q.drop_last());
        lemma_sort_push_last(q.drop_last(), q.last());
        assert(q.drop_last().push(q.last()) =~= q);
    }
}

/// Sorting twice is sorting once.
pub proof fn lemma_sort_is_idempotent(q: Seq<Process>)
    ensures
        sort_by_priority(sort_by_priority(q)) == sort_by_priority(q),
{
    lemma_sort_orders(q);
    lemma_sort_keeps_ordered(sort_by_priority(q));
}

/// The sorted queue is the only arrangement that is in ascending priority
/// and keeps every priority level in the order it had in the queue.
pub proof fn lemma_sort_is_unique(q: Seq<Process>, r: Seq<Process>)
    requires
        is_priority_ordered(r),
        forall|k: int| 0 <= k <= u8::MAX ==> with_priority(r, k) == with_priority(q, k),
    ensures
        r == sort_by_priority(q),
{
    lemma_sort_keeps_ordered(r);
    lemma_sorted_through_same_buckets(r, q, u8::MAX as int);
}

/// Two processes of equal priority keep their relative order through a
/// sort: the earlier one is found at an earlier position afterwards.
pub proof fn lemma_sort_keeps_ties_in_order(q: Seq<Process>, i: int, j: int) -> (at: (int, int))
    requires
        0 <= i < j < q.len(),
        q[i].priority == q[j].priority,
    ensures
        0 <= at.0 < at.1 < sort_by_priority(q).len(),
        sort_by_priority(q)[at.0] == q[i],
        sort_by_priority(q)[at.1] == q[j],
{
    let k = q[i].priority as int;
    let (bi, bj) = lemma_bucket_positions(q, k, i, j);
    lemma_sort_is_stable(q, k);
    let (si, sj) = lemma_bucket_sources(sort_by_priority(q), k, bi, bj);
    (si, sj)
}

/// Members of `q` with priority `k` at positions `i < j` stand in the bucket
/// at positions in the same order.
proof fn lemma_bucket_positions(q: Seq<Process>, k: int, i: int, j: int) -> (at: (int, int))
    requires
        0 <= i < j < q.len(),
        q[i].priority == k,
        q[j].priority == k,
    ensures
        0 <= at.0 < at.1 < with_priority(q, k).len(),
        with_priority(q, k)[at.0] == q[i],
        with_priority(q, k)[at.1] == q[j],
    decreases q.len(),
{
    reveal(Seq::filter);
    let front = q.drop_last();
    let bucket = with_priority(front, k);
    if j == q.len() - 1 {
        let bi = lemma_bucket_position(front, k, i);
        (bi, bucket.len() as int)
    } else {
        let at = lemma_bucket_positions(front, k, i, j);
        at
    }
}

proof fn lemma_bucket_position(q: Seq<Process>, k: int, i: int) -> (at: int)
    requires
        0 <= i < q.len(),
        q[i].priority == k,
    ensures
        0 <= at < with_priority(q, k).len(),
        with_priority(q, k)[at] == q[i],
    decreases q.len(),
{
    reveal(Seq::filter);
    let front = q.drop_last();
    if i == q.len() - 1 {
        with_priority(front, k).len() as int
    } else {
        lemma_bucket_position(front, k, i)
    }
}

/// Bucket members at positions `i < j` come from positions of `q` in the
/// same order.
proof fn lemma_bucket_sources(q: Seq<Process>, k: int, i: int, j: int) -> (at: (int, int))
    requires
        0 <= i < j < with_priority(q, k).len(),
    ensures
        0 <= at.0 < at.1 < q.len(),
        q[at.0] == with_priority(q, k)[i],
        q[at.1] == with_priority(q, k)[j],
    decreases q.len(),
{
    reveal(Seq::filter);
    let front = q.drop_last();
    let bucket = with_priority(front, k);
    if has_priority(k)(q.last()) && j == bucket.len() {
        let si = lemma_bucket_source(front, k, i);
        (si, q.len() - 1)
    } else {
        let at = lemma_bucket_sources(front, k, i, j);
        at
    }
}

proof fn lemma_bucket_source(q: Seq<Process>, k: int, i: int) -> (at: int)
    requires
        0 <= i < with_priority(q, k).len(),
    ensures
        0 <= at < q.len(),
        q[at] == with_priority(q, k)[i],
    decreases q.len(),
{
    reveal(Seq::filter);
    let front = q.drop_last();
    let bucket = with_priority(front, k);
    if has_priority(k)(q.last()) && i == bucket.len() {
        q.len() - 1
    } else {
        lemma_bucket_source(front, k, i)
    }
}

/// A process appended to a queue adds its identity to the queue's.
pub proof fn lemma_pids_of_push(q: Seq<Process>, x: Process)
    ensures
        pids_of(q.push(x)) == pids_of(q).insert(x.pid),
{
    assert(q.push(x).drop_last() =~= q);
}

proof fn lemma_pids_of_insert(q: Seq<Process>, at: int, x: Process)
    requires
        0 <= at <= q.len(),
    ensures
        pids_of(q.insert(at, x)) == pids_of(q).insert(x.pid),
    decreases q.len(),
{
    if at == q.len() {
        assert(q.insert(at, x) =~= q.push(x));
        lemma_pids_of_push(q, x);
    } else {
        lemma_pids_of_insert(q.drop_last(), at, x);
        assert(q.insert(at, x).drop_last() =~= q.drop_last().insert(at, x));
        assert(pids_of(q.insert(at, x)) =~= pids_of(q).insert(x.pid));
    }
}

/// The head of a queue accounts for one identity, the rest of the queue for
/// the others.
pub proof fn lemma_pids_of_drop_first(q: Seq<Process>)
    requires
        q.len() > 0,
    ensures
        pids_of(q) == pids_of(q.drop_first()).insert(q[0].pid),
{
    assert(q.drop_first().insert(0, q[0]) =~= q);
    lemma_pids_of_insert(q.drop_first(), 0, q[0]);
}

/// Waiting and aging change no identity.
pub proof fn lemma_age_keeps_pids(q: Seq<Process>)
    ensures
        pids_of(age_queue(q)) == pids_of(q),
    decreases q.len(),
{
    if q.len() > 0 {
        lemma_age_keeps_pids(q.drop_last());
        assert(age_queue(q).drop_last() =~= age_queue(q.drop_last()));
    }
}

/// Sorting changes no identity.
pub proof fn lemma_sort_keeps_pids(q: Seq<Process>)
    ensures
        pids_of(sort_by_priority(q)) == pids_of(q),
    decreases q.len(),
{
    if q.len() == 0 {
        lemma_sorted_through_empty(q, u8::MAX as int);
    } else {
        let front = q.drop_last();
        let x = q.last();
        assert(q =~= front.push(x));
        lemma_sort_keeps_pids(front);
        lemma_sorted_through_push(front, x, u8::MAX as int);
        lemma_sorted_through_prefix(front, x.priority as int, u8::MAX as int);
        lemma_pids_of_insert(
            sort_by_priority(front),
            sorted_through(front, x.priority as int).len() as int,
            x,
        );
    }
}

/// A queued process whose wait, this tick included, exceeds the threshold
/// while it is not yet at the highest priority comes out exactly one level
/// more urgent and with its wait reset; any other comes out with its wait
/// one tick longer and nothing else changed.
pub proof fn lemma_waited(p: Process)
    requires
        p.waiting_time < u32::MAX,
    ensures
        p.waiting_time + 1 > crate::process::AGING_THRESHOLD && p.priority
            > crate::process::HIGHEST_PRIORITY ==> waited(p) == (Process {
            priority: (p.priority - 1) as u8,
            waiting_time: 0,
            ..p
        }),
        !(p.waiting_time + 1 > crate::process::AGING_THRESHOLD && p.priority
            > crate::process::HIGHEST_PRIORITY) ==> waited(p) == (Process {
            waiting_time: (p.waiting_time + 1) as u32,
            ..p
        }),
        p.wf() ==> waited(p).wf(),
        waited(p).priority <= p.priority,
{
}

/// Lets every process of the queue wait one tick and applies the aging rule
/// to it. The order of the queue does not change.
pub fn age_all(queue: &mut VecDeque<Process>)
    requires
        can_wait(old(queue)@),
    ensures
        final(queue)@ == age_queue(old(queue)@),
{
    let n = queue.len();
    let mut i: usize = 0;
    while i < n
        invariant
            i <= n,
            n == old(queue)@.len(),
            can_wait(old(queue)@),
            queue@ == old(queue)@.skip(i as int) + age_queue(old(queue)@.take(i as int)),
        decreases n - i,
    {
        let front = queue.pop_front();
        let mut p = front.unwrap();
        p.waiting_time += 1;
        p.apply_aging();
        queue.push_back(p);
        i += 1;
        assert(queue@ =~= old(queue)@.skip(i as int) + age_queue(old(queue)@.take(i as int)));
    }
    assert(queue@ =~= age_queue(old(queue)@));
}

/// Sorts the queue by ascending priority, stably: processes of equal
/// priority keep their relative order. Each process is taken from the front
/// and inserted behind the last process that is at least as urgent, so a
/// queue that is already close to sorted costs close to one pass.
pub fn sort_queue(queue: &mut VecDeque<Process>)
    ensures
        final(queue)@ == sort_by_priority(old(queue)@),
        is_priority_ordered(final(queue)@),
        final(queue)@.to_multiset() == old(queue)@.to_multiset(),
{
    let n = queue.len();
    let mut sorted: VecDeque<Process> = VecDeque::new();
    let mut i: usize = 0;
    proof {
        lemma_sorted_through_empty(old(queue)@.take(0), u8::MAX as int);
    }
    while i < n
        invariant
            i <= n,
            n == old(queue)@.len(),
            queue@ == old(queue)@.skip(i as int),
            sorted@ == sort_by_priority(old(queue)@.take(i as int)),
            sorted@.len() == i,
        decreases n - i,
    {
        let front = queue.pop_front();
        let p = front.unwrap();
        let mut at: usize = sorted.len();
        proof {
            lemma_sort_orders(old(queue)@.take(i as int));
        }
        while at > 0 && sorted[at - 1].priority > p.priority
            invariant
                at <= sorted@.len(),
                is_priority_ordered(sorted@),
                forall|j: int| at <= j < sorted@.len() ==> sorted@[j].priority > p.priority,
            decreases at,
        {
            at -= 1;
        }
        proof {
            let done = old(queue)@.take(i as int);
            assert forall|j: int| 0 <= j < at implies sort_by_priority(done)[j].priority
                <= p.priority by {
                assert(sorted@[j].priority <= sorted@[at - 1].priority);
            }
            lemma_insert_sorted(done, p, at as int);
            assert(done.push(p) =~= old(queue)@.take(i + 1));
            lemma_sort_permutes(old(queue)@.take(i + 1));
        }
        sorted.insert(at, p);
        i += 1;
        assert(queue@ =~= old(queue)@.skip(i as int));
    }
    *queue = sorted;
    proof {
        assert(old(queue)@.take(n as int) =~= old(queue)@);
        lemma_sort_orders(old(queue)@);
        lemma_sort_permutes(old(queue)@);
    }
}

} // verus!
