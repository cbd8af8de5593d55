use beast_scheduler::process::{Process, ProcessState};
use beast_scheduler::scheduler::Scheduler;

fn proc(pid: u32, priority: u8, burst: u32) -> Process {
    Process::new(pid, "task", priority, burst, 4)
}

fn queued_pids(s: &Scheduler) -> Vec<u32> {
    s.ready_queue.iter().map(|p| p.pid).collect()
}

fn queued_priorities(s: &Scheduler) -> Vec<u8> {
    s.ready_queue.iter().map(|p| p.priority).collect()
}

fn current_pid(s: &Scheduler) -> Option<u32> {
    s.current.as_ref().map(|p| p.pid)
}

fn is_ascending(v: &[u8]) -> bool {
    v.windows(2).all(|w| w[0] <= w[1])
}

#[test]
fn new_scheduler_is_idle() {
    let s = Scheduler::new(4);
    assert!(s.ready_queue.is_empty());
    assert!(s.terminated.is_empty());
    assert!(s.current.is_none());
    assert_eq!(s.time_quantum, 4);
    assert_eq!(s.tick, 0);
    assert_eq!(s.quantum_counter, 0);
}

#[test]
fn add_process_appends_to_the_tail() {
    let mut s = Scheduler::new(4);
    s.add_process(proc(1, 5, 10));
    s.add_process(proc(2, 1, 10));
    s.add_process(proc(3, 3, 10));
    assert_eq!(queued_pids(&s), vec![1, 2, 3]);
    assert!(s.current.is_none());
    assert_eq!(s.tick, 0);
}

#[test]
fn add_process_does_not_look_for_duplicates() {
    let mut s = Scheduler::new(4);
    s.add_process(proc(1, 5, 10));
    s.add_process(proc(1, 5, 10));
    assert_eq!(queued_pids(&s), vec![1, 1]);
}

#[test]
fn tick_on_an_empty_scheduler_only_counts() {
    let mut s = Scheduler::new(4);
    s.tick();
    s.tick();
    assert_eq!(s.tick, 2);
    assert!(s.current.is_none());
    assert!(s.ready_queue.is_empty());
    assert!(s.terminated.is_empty());
    assert_eq!(s.quantum_counter, 0);
}

#[test]
fn first_tick_dispatches_the_most_urgent_process() {
    let mut s = Scheduler::new(4);
    s.add_process(proc(1, 5, 10));
    s.add_process(proc(2, 1, 10));
    s.add_process(proc(3, 3, 10));
    s.tick();
    assert_eq!(s.tick, 1);
    assert_eq!(current_pid(&s), Some(2));
    let running = s.current.as_ref().unwrap();
    assert_eq!(running.state, ProcessState::Running);
    assert_eq!(running.remaining_time, 10);
    assert_eq!(running.waiting_time, 0);
    assert_eq!(s.quantum_counter, 0);
    assert_eq!(queued_pids(&s), vec![3, 1]);
    assert_eq!(queued_priorities(&s), vec![3, 5]);
    for p in &s.ready_queue {
        assert_eq!(p.waiting_time, 1);
        assert_eq!(p.state, ProcessState::Ready);
    }
}

#[test]
fn equal_priorities_keep_their_order() {
    let mut s = Scheduler::new(100);
    for pid in 1..=5 {
        s.add_process(proc(pid, 2, 50));
    }
    s.tick();
    assert_eq!(current_pid(&s), Some(1));
    assert_eq!(queued_pids(&s), vec![2, 3, 4, 5]);
    s.tick();
    s.tick();
    s.tick();
    assert_eq!(current_pid(&s), Some(1));
    assert_eq!(queued_pids(&s), vec![2, 3, 4, 5]);
}

#[test]
fn sorting_is_stable_within_each_priority() {
    let mut s = Scheduler::new(100);
    s.add_process(proc(1, 3, 50));
    s.add_process(proc(2, 2, 50));
    s.add_process(proc(3, 3, 50));
    s.add_process(proc(4, 1, 50));
    s.add_process(proc(5, 2, 50));
    s.add_process(proc(6, 3, 50));
    s.tick();
    assert_eq!(current_pid(&s), Some(4));
    assert_eq!(queued_pids(&s), vec![2, 5, 1, 3, 6]);
    s.tick();
    assert_eq!(queued_pids(&s), vec![2, 5, 1, 3, 6]);
}

#[test]
fn running_process_is_charged_one_tick() {
    let mut s = Scheduler::new(4);
    s.add_process(proc(1, 1, 10));
    s.tick();
    s.tick();
    assert_eq!(current_pid(&s), Some(1));
    assert_eq!(s.current.as_ref().unwrap().remaining_time, 9);
    assert_eq!(s.quantum_counter, 1);
    s.tick();
    assert_eq!(s.current.as_ref().unwrap().remaining_time, 8);
    assert_eq!(s.quantum_counter, 2);
}

#[test]
fn quantum_expiry_sends_the_process_to_the_tail() {
    let mut s = Scheduler::new(2);
    s.add_process(proc(1, 1, 10));
    s.add_process(proc(2, 1, 10));
    s.tick();
    assert_eq!(current_pid(&s), Some(1));
    s.tick();
    assert_eq!(current_pid(&s), Some(1));
    assert_eq!(s.quantum_counter, 1);
    s.tick();
    assert_eq!(current_pid(&s), Some(2));
    assert_eq!(s.quantum_counter, 0);
    assert_eq!(queued_pids(&s), vec![1]);
    let back = &s.ready_queue[0];
    assert_eq!(back.state, ProcessState::Ready);
    assert_eq!(back.remaining_time, 8);
    assert_eq!(s.current.as_ref().unwrap().state, ProcessState::Running);
    assert_eq!(s.current.as_ref().unwrap().waiting_time, 0);
}

#[test]
fn preempted_process_alone_is_dispatched_again() {
    let mut s = Scheduler::new(1);
    s.add_process(proc(1, 1, 3));
    s.tick();
    s.tick();
    assert_eq!(current_pid(&s), Some(1));
    assert_eq!(s.current.as_ref().unwrap().remaining_time, 2);
    assert_eq!(s.quantum_counter, 0);
    assert!(s.ready_queue.is_empty());
}

#[test]
fn preempted_process_waits_unsorted_until_the_next_tick() {
    let mut s = Scheduler::new(1);
    s.add_process(proc(1, 1, 10));
    s.add_process(proc(2, 5, 10));
    s.add_process(proc(3, 5, 10));
    s.tick();
    assert_eq!(current_pid(&s), Some(1));
    assert_eq!(queued_pids(&s), vec![2, 3]);
    s.tick();
    assert_eq!(current_pid(&s), Some(2));
    assert_eq!(queued_pids(&s), vec![3, 1]);
    assert_eq!(queued_priorities(&s), vec![5, 1]);
    s.tick();
    assert_eq!(current_pid(&s), Some(1));
    assert_eq!(queued_pids(&s), vec![3, 2]);
}

#[test]
fn process_terminates_on_the_tick_its_time_runs_out() {
    let mut s = Scheduler::new(4);
    s.add_process(proc(1, 1, 2));
    s.tick();
    assert_eq!(s.current.as_ref().unwrap().remaining_time, 2);
    s.tick();
    assert_eq!(s.current.as_ref().unwrap().remaining_time, 1);
    assert!(s.terminated.is_empty());
    s.tick();
    assert!(s.current.is_none());
    assert_eq!(s.terminated.len(), 1);
    assert_eq!(s.terminated[0].pid, 1);
    assert_eq!(s.terminated[0].remaining_time, 0);
    assert_eq!(s.terminated[0].state, ProcessState::Terminated);
    assert_eq!(s.quantum_counter, 0);
    assert_eq!(s.tick, 3);
}

#[test]
fn termination_wins_over_preemption() {
    let mut s = Scheduler::new(1);
    s.add_process(proc(1, 1, 1));
    s.add_process(proc(2, 1, 5));
    s.tick();
    s.tick();
    assert_eq!(s.terminated.len(), 1);
    assert_eq!(s.terminated[0].pid, 1);
    assert_eq!(current_pid(&s), Some(2));
    assert!(s.ready_queue.is_empty());
}

#[test]
fn terminated_processes_are_kept_in_order_of_termination() {
    let mut s = Scheduler::new(10);
    s.add_process(proc(1, 2, 2));
    s.add_process(proc(2, 1, 1));
    s.add_process(proc(3, 3, 1));
    for _ in 0..8 {
        s.tick();
    }
    let done: Vec<u32> = s.terminated.iter().map(|p| p.pid).collect();
    assert_eq!(done, vec![2, 1, 3]);
    assert!(s.current.is_none());
    assert!(s.ready_queue.is_empty());
}

#[test]
fn waiting_process_ages_after_more_than_five_ticks() {
    let mut s = Scheduler::new(100);
    s.add_process(proc(1, 1, 100));
    s.add_process(proc(2, 5, 10));
    for _ in 0..5 {
        s.tick();
    }
    assert_eq!(s.ready_queue[0].pid, 2);
    assert_eq!(s.ready_queue[0].priority, 5);
    assert_eq!(s.ready_queue[0].waiting_time, 5);
    s.tick();
    assert_eq!(s.ready_queue[0].priority, 4);
    assert_eq!(s.ready_queue[0].waiting_time, 0);
    for _ in 0..6 {
        s.tick();
    }
    assert_eq!(s.ready_queue[0].priority, 3);
    assert_eq!(s.ready_queue[0].waiting_time, 0);
}

#[test]
fn aging_takes_effect_in_the_same_tick() {
    let mut s = Scheduler::new(100);
    s.add_process(proc(1, 1, 100));
    s.add_process(proc(2, 3, 10));
    let mut late = proc(3, 4, 10);
    late.waiting_time = 5;
    s.add_process(late);
    s.tick();
    assert_eq!(current_pid(&s), Some(1));
    assert_eq!(queued_pids(&s), vec![2, 3]);
    assert_eq!(queued_priorities(&s), vec![3, 3]);
    assert_eq!(s.ready_queue[1].waiting_time, 0);
}

#[test]
fn aging_never_goes_past_the_highest_priority() {
    let mut s = Scheduler::new(1000);
    s.add_process(proc(1, 1, 1000));
    s.add_process(proc(2, 2, 10));
    for _ in 0..40 {
        s.tick();
    }
    assert_eq!(s.ready_queue[0].pid, 2);
    assert_eq!(s.ready_queue[0].priority, 1);
    assert!(s.ready_queue[0].waiting_time > 5);
}

#[test]
fn dispatch_resets_the_waiting_time() {
    let mut s = Scheduler::new(3);
    s.add_process(proc(1, 1, 10));
    s.add_process(proc(2, 1, 10));
    for _ in 0..4 {
        s.tick();
    }
    assert_eq!(current_pid(&s), Some(2));
    assert_eq!(s.current.as_ref().unwrap().waiting_time, 0);
    assert_eq!(s.ready_queue[0].pid, 1);
}

#[test]
fn zero_quantum_preempts_on_every_tick() {
    let mut s = Scheduler::new(0);
    s.add_process(proc(1, 1, 10));
    s.add_process(proc(2, 1, 10));
    s.tick();
    assert_eq!(current_pid(&s), Some(1));
    s.tick();
    assert_eq!(current_pid(&s), Some(2));
    assert_eq!(queued_pids(&s), vec![1]);
    s.tick();
    assert_eq!(current_pid(&s), Some(1));
    assert_eq!(s.quantum_counter, 0);
}

#[test]
fn process_without_burst_is_retired_on_its_first_tick_on_the_cpu() {
    let mut s = Scheduler::new(4);
    s.add_process(proc(1, 1, 0));
    s.tick();
    assert_eq!(current_pid(&s), Some(1));
    assert_eq!(s.current.as_ref().unwrap().remaining_time, 0);
    s.tick();
    assert!(s.current.is_none());
    assert_eq!(s.terminated.len(), 1);
    assert_eq!(s.terminated[0].remaining_time, 0);
}

#[test]
fn quantum_counter_stays_within_the_quantum() {
    let mut s = Scheduler::new(4);
    let demand: [(u32, u8, u32); 6] =
        [(1, 1, 20), (2, 3, 15), (3, 5, 10), (4, 2, 25), (5, 8, 30), (6, 6, 12)];
    for (pid, priority, burst) in demand {
        s.add_process(proc(pid, priority, burst));
    }
    for _ in 0..200 {
        s.tick();
        assert!(s.quantum_counter <= s.time_quantum);
        if s.current.is_some() {
            assert!(s.quantum_counter < s.time_quantum);
        }
    }
    assert_eq!(s.terminated.len(), 6);
}

#[test]
fn every_process_is_in_exactly_one_place() {
    let mut s = Scheduler::new(3);
    for pid in 1..=7u32 {
        s.add_process(proc(pid, (pid % 4 + 1) as u8, pid * 2));
    }
    for _ in 0..100 {
        s.tick();
        let mut all = queued_pids(&s);
        all.extend(current_pid(&s));
        all.extend(s.terminated.iter().map(|p| p.pid));
        all.sort();
        assert_eq!(all, vec![1, 2, 3, 4, 5, 6, 7]);
        for p in &s.ready_queue {
            assert_eq!(p.state, ProcessState::Ready);
            assert!(p.remaining_time > 0);
        }
        for p in &s.terminated {
            assert_eq!(p.state, ProcessState::Terminated);
            assert_eq!(p.remaining_time, 0);
        }
        if let Some(p) = &s.current {
            assert_eq!(p.state, ProcessState::Running);
            assert!(p.remaining_time > 0);
        }
    }
    assert_eq!(s.terminated.len(), 7);
    assert_eq!(s.tick, 100);
}

#[test]
fn queue_is_in_priority_order_after_a_tick_without_preemption() {
    let mut s = Scheduler::new(1000);
    let priorities: [u8; 8] = [7, 2, 9, 2, 5, 10, 1, 5];
    for (i, priority) in priorities.iter().enumerate() {
        s.add_process(proc(i as u32 + 1, *priority, 500));
    }
    for _ in 0..60 {
        s.tick();
        assert!(is_ascending(&queued_priorities(&s)));
    }
}

#[test]
fn remaining_time_never_grows() {
    let mut s = Scheduler::new(2);
    s.add_process(proc(1, 1, 5));
    s.add_process(proc(2, 1, 5));
    let mut left = [5u32, 5u32];
    for _ in 0..30 {
        s.tick();
        let live = s.ready_queue.iter().chain(s.current.iter()).chain(s.terminated.iter());
        for p in live {
            let slot = (p.pid - 1) as usize;
            assert!(p.remaining_time <= left[slot]);
            assert!(left[slot] - p.remaining_time <= 1);
            left[slot] = p.remaining_time;
        }
    }
    assert_eq!(left, [0, 0]);
}

#[test]
fn can_tick_while_counters_have_room() {
    let mut s = Scheduler::new(4);
    assert!(s.can_tick());
    s.add_process(proc(1, 1, 10));
    s.add_process(proc(2, 2, 10));
    for _ in 0..10 {
        assert!(s.can_tick());
        s.tick();
    }
}

#[test]
fn cannot_tick_at_the_end_of_the_tick_counter() {
    let mut s = Scheduler::new(4);
    s.tick = u32::MAX - 1;
    assert!(s.can_tick());
    s.tick();
    assert_eq!(s.tick, u32::MAX);
    assert!(!s.can_tick());
}

#[test]
fn cannot_tick_when_a_waiting_time_is_at_its_end() {
    let mut s = Scheduler::new(4);
    s.add_process(proc(1, 1, 10));
    let mut old = proc(2, 1, 10);
    old.waiting_time = u32::MAX;
    s.add_process(old);
    assert!(!s.can_tick());
    s.ready_queue[1].waiting_time = u32::MAX - 1;
    assert!(s.can_tick());
    s.tick();
    assert_eq!(s.ready_queue[0].waiting_time, u32::MAX);
    assert!(!s.can_tick());
}

#[test]
fn cannot_tick_when_the_quantum_counter_is_at_its_end() {
    let mut s = Scheduler::new(4);
    s.quantum_counter = u32::MAX;
    assert!(s.can_tick());
    s.add_process(proc(1, 1, 10));
    s.tick();
    assert_eq!(s.quantum_counter, 0);
    s.quantum_counter = u32::MAX;
    assert!(!s.can_tick());
}
