//! The scheduler: one CPU, a priority-ordered ready queue, a time quantum.
//!
//! [`SchedulerState`] is the mathematical state of a scheduler and
//! [`SchedulerState::step`] the transition that one tick performs on it.
//! [`Scheduler::tick`] is proved to perform exactly that transition; the laws
//! at the end of the file are proved about the transition itself.

use crate::process::{Process, ProcessState};
use crate::run_queue::{
    age_all, age_queue, can_wait, is_priority_ordered, lemma_age_keeps_pids,
    lemma_pids_of_drop_first, lemma_pids_of_push, lemma_sort_keeps_pids,
    lemma_sort_keeps_ties_in_order, lemma_sort_orders, lemma_sort_permutes, pids_of,
    sort_by_priority, sort_queue, waited,
};
use std::collections::VecDeque;
use vstd::multiset::Multiset;
use vstd::prelude::*;

verus! {

/// The scheduler's bookkeeping.
pub struct Scheduler {
    /// Processes waiting for the CPU, the next to run at the front.
    pub ready_queue: VecDeque<Process>,
    /// Finished processes, in the order in which they finished.
    pub terminated: Vec<Process>,
    /// The process that holds the CPU, if any.
    pub current: Option<Process>,
    /// The most consecutive ticks a process may run.
    pub time_quantum: u32,
    /// Ticks performed so far.
    pub tick: u32,
    /// Ticks the current process has run since it was dispatched.
    pub quantum_counter: u32,
}

/// The state of a scheduler as plain mathematical values.
pub struct SchedulerState {
    pub ready_queue: Seq<Process>,
    pub terminated: Seq<Process>,
    pub current: Option<Process>,
    pub time_quantum: nat,
    pub tick: nat,
    pub quantum_counter: nat,
}

impl View for Scheduler {
    type V = SchedulerState;

    open spec fn view(&self) -> SchedulerState {
        SchedulerState {
            ready_queue: self.ready_queue@,
            terminated: self.terminated@,
            current: self.current,
            time_quantum: self.time_quantum as nat,
            tick: self.tick as nat,
            quantum_counter: self.quantum_counter as nat,
        }
    }
}

/// A process after one tick on the CPU: it owes one tick less, and never
/// less than nothing.
pub open spec fn ran(p: Process) -> Process {
    Process {
        remaining_time: if p.remaining_time > 0 {
            (p.remaining_time - 1) as u32
        } else {
            0
        },
        ..p
    }
}

/// A process as it enters the list of finished processes.
pub open spec fn retired(p: Process) -> Process {
    Process { state: ProcessState::Terminated, ..p }
}

/// A process as it goes back to the ready queue.
pub open spec fn requeued(p: Process) -> Process {
    Process { state: ProcessState::Ready, ..p }
}

/// A process as it is given the CPU: running, and no longer waiting.
pub open spec fn dispatched(p: Process) -> Process {
    Process { state: ProcessState::Running, waiting_time: 0, ..p }
}

impl SchedulerState {
    /// The state of a scheduler that has not seen a process or a tick.
    pub open spec fn initial(quantum: nat) -> SchedulerState {
        SchedulerState {
            ready_queue: Seq::empty(),
            terminated: Seq::empty(),
            current: None,
            time_quantum: quantum,
            tick: 0,
            quantum_counter: 0,
        }
    }

    /// No counter that the next tick increments is at the end of `u32`.
    pub open spec fn can_tick(self) -> bool {
        &&& self.tick < u32::MAX
        &&& can_wait(self.ready_queue)
        &&& self.current is Some ==> self.quantum_counter < u32::MAX
    }

    /// The ready queue after this tick's aging and sorting, before the CPU
    /// is accounted for.
    pub open spec fn sorted_queue(self) -> Seq<Process> {
        sort_by_priority(age_queue(self.ready_queue))
    }

    /// The running process finishes on this tick.
    pub open spec fn finishes(self) -> bool {
        self.current is Some && ran(self.current->0).remaining_time == 0
    }

    /// The running process uses up its quantum on this tick without
    /// finishing.
    pub open spec fn preempts(self) -> bool {
        self.current is Some && !self.finishes() && self.quantum_counter + 1 >= self.time_quantum
    }

    /// The state after the tick has been counted, the queue aged and sorted,
    /// and the running process charged one tick: it finishes, is preempted
    /// to the tail of the queue, or runs on.
    pub open spec fn charged(self) -> SchedulerState {
        let counted = SchedulerState {
            tick: self.tick + 1,
            ready_queue: self.sorted_queue(),
            ..self
        };
        match self.current {
            None => counted,
            Some(p) => if self.finishes() {
                SchedulerState {
                    terminated: self.terminated.push(retired(ran(p))),
                    current: None,
                    quantum_counter: 0,
                    ..counted
                }
            } else if self.preempts() {
                SchedulerState {
                    ready_queue: self.sorted_queue().push(requeued(ran(p))),
                    current: None,
                    quantum_counter: 0,
                    ..counted
                }
            } else {
                SchedulerState {
                    current: Some(ran(p)),
                    quantum_counter: self.quantum_counter + 1,
                    ..counted
                }
            },
        }
    }

    /// An idle CPU takes the head of the ready queue, if there is one.
    pub open spec fn dispatch(self) -> SchedulerState {
        if self.current is None && self.ready_queue.len() > 0 {
            SchedulerState {
                current: Some(dispatched(self.ready_queue[0])),
                ready_queue: self.ready_queue.drop_first(),
                quantum_counter: 0,
                ..self
            }
        } else {
            self
        }
    }

    /// The state after one tick.
    pub open spec fn step(self) -> SchedulerState {
        self.charged().dispatch()
    }

    /// Every process that is queued or running still owes CPU time.
    pub open spec fn live_owe_time(self) -> bool {
        &&& forall|i: int|
            0 <= i < self.ready_queue.len() ==> (#[trigger] self.ready_queue[i]).remaining_time > 0
        &&& self.current is Some ==> self.current->0.remaining_time > 0
    }

    /// Every finished process owes nothing.
    pub open spec fn finished_owe_nothing(self) -> bool {
        forall|i: int|
            0 <= i < self.terminated.len() ==> (#[trigger] self.terminated[i]).remaining_time == 0
    }

    /// Each process carries the state of the place it is in.
    pub open spec fn states_match_places(self) -> bool {
        &&& forall|i: int|
            0 <= i < self.ready_queue.len() ==> (#[trigger] self.ready_queue[i]).state
                == ProcessState::Ready
        &&& forall|i: int|
            0 <= i < self.terminated.len() ==> (#[trigger] self.terminated[i]).state
                == ProcessState::Terminated
        &&& self.current is Some ==> self.current->0.state == ProcessState::Running
    }

    /// Every process is well formed, wherever it is.
    pub open spec fn processes_wf(self) -> bool {
        &&& forall|i: int| 0 <= i < self.ready_queue.len() ==> (#[trigger] self.ready_queue[i]).wf()
        &&& forall|i: int| 0 <= i < self.terminated.len() ==> (#[trigger] self.terminated[i]).wf()
        &&& self.current is Some ==> self.current->0.wf()
    }

    /// The identities of all processes the scheduler knows, queued, running
    /// or finished, each as often as it occurs.
    pub open spec fn pids(self) -> Multiset<u32> {
        pids_of(self.ready_queue).add(pids_of(self.terminated)).add(
            match self.current {
                Some(p) => Multiset::singleton(p.pid),
                None => Multiset::empty(),
            },
        )
    }

    /// The running process is within its quantum: it has run fewer ticks
    /// than the quantum allows, or has just been dispatched.
    pub open spec fn within_quantum(self) -> bool {
        self.current is Some ==> self.quantum_counter < self.time_quantum || self.quantum_counter
            == 0
    }

    /// What holds of a scheduler at all times, provided the processes handed
    /// to it are well formed, ready and owe CPU time: processes are well
    /// formed and carry the state of their place, live ones owe time,
    /// finished ones owe none, and the running one is within its quantum.
    pub open spec fn is_consistent(self) -> bool {
        &&& self.processes_wf()
        &&& self.states_match_places()
        &&& self.live_owe_time()
        &&& self.finished_owe_nothing()
        &&& self.within_quantum()
    }

    /// A preempted process joins the tail of the queue unsorted. The queue
    /// stays in priority order all the same when at most the dispatched head
    /// stood in it, or when nobody in it is less urgent than the newcomer.
    pub open spec fn preempted_fits_tail(self) -> bool {
        self.sorted_queue().len() <= 1 || self.sorted_queue().last().priority
            <= self.current->0.priority
    }
}

impl Scheduler {
    /// An idle scheduler with the given time quantum.
    pub fn new(quantum: u32) -> (s: Self)
        ensures
            s@ == SchedulerState::initial(quantum as nat),
    {
        Scheduler {
            ready_queue: VecDeque::new(),
            terminated: Vec::new(),
            current: None,
            time_quantum: quantum,
            tick: 0,
            quantum_counter: 0,
        }
    }

    /// Appends `p` to the tail of the ready queue. The process is taken as
    /// it is; nothing is checked and nothing else changes.
    pub fn add_process(&mut self, p: Process)
        ensures
            final(self)@ == (SchedulerState {
                ready_queue: old(self)@.ready_queue.push(p),
                ..old(self)@
            }),
    {
        self.ready_queue.push_back(p);
    }

    /// Whether the next tick fits the counters: `tick` may be called exactly
    /// when this returns `true`.
    pub fn can_tick(&self) -> (ok: bool)
        ensures
            ok == self@.can_tick(),
    {
        if self.tick == u32::MAX {
            return false;
        }
        if self.current.is_some() && self.quantum_counter == u32::MAX {
            return false;
        }
        let n = self.ready_queue.len();
        let mut i: usize = 0;
        while i < n
            invariant
                i <= n,
                n == self.ready_queue@.len(),
                forall|j: int|
                    0 <= j < i ==> (#[trigger] self.ready_queue@[j]).waiting_time < u32::MAX,
            decreases n - i,
        {
            if self.ready_queue[i].waiting_time == u32::MAX {
                return false;
            }
            i += 1;
        }
        true
    }

    /// Advances the simulation by one tick: counts the tick; lets every
    /// queued process wait and age; sorts the queue stably by priority;
    /// charges the running process one tick and retires or preempts it as
    /// due; and gives an idle CPU to the head of the queue.
    pub fn tick(&mut self)
        requires
            old(self)@.can_tick(),
        ensures
            final(self)@ == old(self)@.step(),
            final(self).current is Some ==> final(self).quantum_counter < final(self).time_quantum
                || final(self).quantum_counter == 0,
            !old(self)@.preempts() ==> is_priority_ordered(final(self).ready_queue@),
    {
        proof {
            lemma_tick_orders_queue(old(self)@);
        }
        self.tick += 1;
        age_all(&mut self.ready_queue);
        sort_queue(&mut self.ready_queue);
        match self.current.take() {
            Some(mut p) => {
                p.remaining_time = p.remaining_time.saturating_sub(1);
                self.quantum_counter += 1;
                if p.remaining_time == 0 {
                    p.state = ProcessState::Terminated;
                    self.terminated.push(p);
                    self.quantum_counter = 0;
                } else if self.quantum_counter >= self.time_quantum {
                    p.state = ProcessState::Ready;
                    self.ready_queue.push_back(p);
                    self.quantum_counter = 0;
                } else {
                    self.current = Some(p);
                }
            },
            None => {},
        }
        if self.current.is_none() {
            match self.ready_queue.pop_front() {
                Some(mut next) => {
                    next.state = ProcessState::Running;
                    next.waiting_time = 0;
                    self.current = Some(next);
                    self.quantum_counter = 0;
                },
                None => {},
            }
        }
    }
}

/// The ready queue is in ascending priority after every tick on which no
/// process is preempted. A preempted process is appended behind the sorted
/// queue, and the queue is then in ascending priority exactly when that
/// process fits the tail.
pub proof fn lemma_tick_orders_queue(s: SchedulerState)
    ensures
        is_priority_ordered(s.step().ready_queue) <==> (s.preempts() ==> s.preempted_fits_tail()),
{
    let sorted = s.sorted_queue();
    lemma_sort_orders(age_queue(s.ready_queue));
    let after = s.step().ready_queue;
    if s.preempts() {
        let p = requeued(ran(s.current->0));
        assert(after == sorted.push(p).drop_first());
        if s.preempted_fits_tail() {
            assert forall|i: int, j: int| 0 <= i <= j < after.len() implies after[i].priority
                <= after[j].priority by {
                if j < after.len() - 1 {
                    assert(sorted[i + 1].priority <= sorted[j + 1].priority);
                } else if i < after.len() - 1 {
                    assert(sorted[i + 1].priority <= sorted[sorted.len() - 1].priority);
                }
            }
        } else {
            assert(after[after.len() - 2] == sorted[sorted.len() - 1]);
            assert(after[after.len() - 1] == p);
        }
    } else {
        assert forall|i: int, j: int| 0 <= i <= j < after.len() implies after[i].priority
            <= after[j].priority by {
            if after.len() == sorted.len() {
                assert(after[i] == sorted[i] && after[j] == sorted[j]);
            } else {
                assert(sorted[i + 1].priority <= sorted[j + 1].priority);
            }
        }
    }
}

/// Two queued processes that have the same priority once this tick's aging
/// is done stand in the sorted queue in the order in which they stood
/// before.
pub proof fn lemma_tick_keeps_ties_in_order(s: SchedulerState, i: int, j: int) -> (at: (int, int))
    requires
        0 <= i < j < s.ready_queue.len(),
        waited(s.ready_queue[i]).priority == waited(s.ready_queue[j]).priority,
    ensures
        0 <= at.0 < at.1 < s.sorted_queue().len(),
        s.sorted_queue()[at.0] == waited(s.ready_queue[i]),
        s.sorted_queue()[at.1] == waited(s.ready_queue[j]),
{
    lemma_sort_keeps_ties_in_order(age_queue(s.ready_queue), i, j)
}

/// The sorted queue holds exactly the queued processes, each after one more
/// tick of waiting and the aging rule.
pub proof fn lemma_tick_ages_queue(s: SchedulerState)
    ensures
        s.sorted_queue().to_multiset() == age_queue(s.ready_queue).to_multiset(),
        s.sorted_queue().len() == s.ready_queue.len(),
        forall|i: int|
            0 <= i < s.ready_queue.len() ==> s.sorted_queue().contains(
                waited(#[trigger] s.ready_queue[i]),
            ),
{
    broadcast use vstd::seq_lib::group_to_multiset_ensures;

    let aged = age_queue(s.ready_queue);
    lemma_sort_permutes(aged);
    assert forall|i: int| 0 <= i < s.ready_queue.len() implies s.sorted_queue().contains(
        waited(#[trigger] s.ready_queue[i]),
    ) by {
        assert(aged[i] == waited(s.ready_queue[i]));
        assert(aged.contains(aged[i]));
        assert(aged.to_multiset().count(aged[i]) > 0);
    }
}

/// After a tick, a process that holds the CPU has run fewer ticks than the
/// quantum allows, or has just been dispatched. Its counter never exceeds
/// the quantum.
pub proof fn lemma_tick_bounds_quantum(s: SchedulerState)
    ensures
        s.step().current is Some ==> s.step().quantum_counter < s.time_quantum
            || s.step().quantum_counter == 0,
        s.step().current is Some ==> s.step().quantum_counter <= s.step().time_quantum,
        s.step().time_quantum == s.time_quantum,
{
}

/// As long as every live process owes CPU time, a tick retires the running
/// process exactly when this tick pays its last unit, and otherwise retires
/// nobody. Afterwards every live process still owes time and the retired
/// one owes none.
pub proof fn lemma_tick_retires_on_time(s: SchedulerState)
    requires
        s.live_owe_time(),
    ensures
        s.step().live_owe_time(),
        s.step().terminated == if s.current is Some && s.current->0.remaining_time == 1 {
            s.terminated.push(
                Process { remaining_time: 0, state: ProcessState::Terminated, ..s.current->0 },
            )
        } else {
            s.terminated
        },
        s.finished_owe_nothing() ==> s.step().finished_owe_nothing(),
{
    let after = s.step();
    assert forall|i: int| 0 <= i < after.ready_queue.len() implies (
    #[trigger] after.ready_queue[i]).remaining_time > 0 by {
        let k = lemma_tick_queue_member(s, i);
    }
    if after.current is Some {
        let k = lemma_tick_running_member(s);
    }
}

/// A tick moves processes between the queue, the CPU and the finished
/// list, and neither loses nor duplicates one. Each identity occurs in the
/// three places together as often after the tick as before, so a process
/// that was in exactly one place is in exactly one place.
pub proof fn lemma_tick_keeps_every_process(s: SchedulerState)
    ensures
        s.step().pids() == s.pids(),
{
    let sorted = s.sorted_queue();
    lemma_age_keeps_pids(s.ready_queue);
    lemma_sort_keeps_pids(age_queue(s.ready_queue));
    let charged = s.charged();
    if s.current is Some {
        let p = s.current->0;
        lemma_pids_of_push(s.terminated, retired(ran(p)));
        lemma_pids_of_push(sorted, requeued(ran(p)));
    }
    assert(charged.pids() =~= s.pids());
    if charged.current is None && charged.ready_queue.len() > 0 {
        lemma_pids_of_drop_first(charged.ready_queue);
    }
    assert(s.step().pids() =~= charged.pids());
}

/// A process added to the queue adds one identity and touches no other.
pub proof fn lemma_add_process_adds_one(s: SchedulerState, p: Process)
    ensures
        (SchedulerState { ready_queue: s.ready_queue.push(p), ..s }).pids() == s.pids().insert(
            p.pid,
        ),
{
    lemma_pids_of_push(s.ready_queue, p);
    assert((SchedulerState { ready_queue: s.ready_queue.push(p), ..s }).pids() =~= s.pids().insert(
        p.pid,
    ));
}

/// Each member of the sorted queue is a member of the queue.
proof fn lemma_sorted_members_come_from(q: Seq<Process>, i: int)
    requires
        0 <= i < sort_by_priority(q).len(),
    ensures
        exists|k: int| 0 <= k < q.len() && q[k] == sort_by_priority(q)[i],
{
    broadcast use vstd::seq_lib::group_to_multiset_ensures;

    lemma_sort_permutes(q);
    let x = sort_by_priority(q)[i];
    assert(sort_by_priority(q).contains(x));
    assert(sort_by_priority(q).to_multiset().count(x) > 0);
    assert(q.to_multiset().count(x) > 0);
    assert(q.contains(x));
}

/// Where a member of the ready queue after a tick comes from: it is a
/// process that was queued before, after its wait, or it is the process
/// that this tick preempted. The result is the member's old position in
/// the queue, or the length of the old queue for the preempted process.
pub proof fn lemma_tick_queue_member(s: SchedulerState, i: int) -> (from: int)
    requires
        0 <= i < s.step().ready_queue.len(),
    ensures
        0 <= from <= s.ready_queue.len(),
        from < s.ready_queue.len() ==> s.step().ready_queue[i] == waited(s.ready_queue[from]),
        from == s.ready_queue.len() ==> s.preempts() && s.step().ready_queue[i] == requeued(
            ran(s.current->0),
        ),
{
    let charged = s.charged().ready_queue;
    let at = if s.step().ready_queue.len() == charged.len() {
        i
    } else {
        i + 1
    };
    assert(s.step().ready_queue[i] == charged[at]);
    lemma_charged_queue_member(s, at)
}

/// Where the running process after a tick comes from: it ran on (the result
/// is -1), or it was dispatched, and then it is a process that was queued
/// before, after its wait (the result is its old position), or the process
/// that this tick preempted (the result is the length of the old queue).
pub proof fn lemma_tick_running_member(s: SchedulerState) -> (from: int)
    requires
        s.step().current is Some,
    ensures
        -1 <= from <= s.ready_queue.len(),
        from == -1 ==> s.current is Some && !s.finishes() && !s.preempts() && s.step().current
            == Some(ran(s.current->0)),
        0 <= from < s.ready_queue.len() ==> s.step().current == Some(
            dispatched(waited(s.ready_queue[from])),
        ),
        from == s.ready_queue.len() ==> s.preempts() && s.step().current == Some(
            dispatched(requeued(ran(s.current->0))),
        ),
{
    if s.charged().current is Some {
        -1
    } else {
        lemma_charged_queue_member(s, 0)
    }
}

proof fn lemma_charged_queue_member(s: SchedulerState, at: int) -> (from: int)
    requires
        0 <= at < s.charged().ready_queue.len(),
    ensures
        0 <= from <= s.ready_queue.len(),
        from < s.ready_queue.len() ==> s.charged().ready_queue[at] == waited(s.ready_queue[from]),
        from == s.ready_queue.len() ==> s.preempts() && s.charged().ready_queue[at] == requeued(
            ran(s.current->0),
        ),
{
    let aged = age_queue(s.ready_queue);
    let sorted = s.sorted_queue();
    if at < sorted.len() {
        assert(s.charged().ready_queue[at] == sorted[at]);
        lemma_sorted_members_come_from(aged, at);
        let k = choose|k: int| 0 <= k < aged.len() && aged[k] == sorted[at];
        assert(aged[k] == waited(s.ready_queue[k]));
        k
    } else {
        s.ready_queue.len() as int
    }
}

/// Where each process carries the state of its place before a tick, it
/// does so after the tick.
pub proof fn lemma_tick_keeps_states(s: SchedulerState)
    requires
        s.states_match_places(),
    ensures
        s.step().states_match_places(),
{
    let after = s.step();
    assert forall|i: int| 0 <= i < after.ready_queue.len() implies (
    #[trigger] after.ready_queue[i]).state == ProcessState::Ready by {
        let k = lemma_tick_queue_member(s, i);
    }
    assert forall|i: int| 0 <= i < after.terminated.len() implies (
    #[trigger] after.terminated[i]).state == ProcessState::Terminated by {
        if i < s.terminated.len() {
            assert(after.terminated[i] == s.terminated[i]);
        }
    }
    if after.current is Some {
        let k = lemma_tick_running_member(s);
    }
}

/// Well-formed processes stay well formed through a tick: priorities stay
/// in their band and nobody owes more than its burst.
pub proof fn lemma_tick_keeps_processes_wf(s: SchedulerState)
    requires
        s.processes_wf(),
    ensures
        s.step().processes_wf(),
{
    let after = s.step();
    assert forall|i: int| 0 <= i < after.ready_queue.len() implies (
    #[trigger] after.ready_queue[i]).wf() by {
        let k = lemma_tick_queue_member(s, i);
        if k < s.ready_queue.len() {
            assert(s.ready_queue[k].wf());
        }
    }
    assert forall|i: int| 0 <= i < after.terminated.len() implies (
    #[trigger] after.terminated[i]).wf() by {
        if i < s.terminated.len() {
            assert(after.terminated[i] == s.terminated[i]);
        }
    }
    if after.current is Some {
        let k = lemma_tick_running_member(s);
        if 0 <= k < s.ready_queue.len() {
            assert(s.ready_queue[k].wf());
        }
    }
}

/// A scheduler starts out consistent.
pub proof fn lemma_initial_is_consistent(quantum: nat)
    ensures
        SchedulerState::initial(quantum).is_consistent(),
        SchedulerState::initial(quantum).pids() == Multiset::<u32>::empty(),
{
    assert(SchedulerState::initial(quantum).pids() =~= Multiset::<u32>::empty());
}

/// Adding a well-formed, ready process that owes CPU time keeps the
/// scheduler consistent.
pub proof fn lemma_add_process_keeps_consistency(s: SchedulerState, p: Process)
    requires
        s.is_consistent(),
        p.wf(),
        p.state == ProcessState::Ready,
        p.remaining_time > 0,
    ensures
        (SchedulerState { ready_queue: s.ready_queue.push(p), ..s }).is_consistent(),
{
    let after = SchedulerState { ready_queue: s.ready_queue.push(p), ..s };
    assert forall|i: int| 0 <= i < after.ready_queue.len() implies {
        &&& (#[trigger] after.ready_queue[i]).wf()
        &&& after.ready_queue[i].state == ProcessState::Ready
        &&& after.ready_queue[i].remaining_time > 0
    } by {
        if i < s.ready_queue.len() {
            assert(after.ready_queue[i] == s.ready_queue[i]);
        }
    }
}

/// A tick keeps the scheduler consistent.
pub proof fn lemma_tick_keeps_consistency(s: SchedulerState)
    requires
        s.is_consistent(),
    ensures
        s.step().is_consistent(),
{
    lemma_tick_keeps_processes_wf(s);
    lemma_tick_keeps_states(s);
    lemma_tick_retires_on_time(s);
    lemma_tick_bounds_quantum(s);
}

} // verus!
