use beast_scheduler::process::Process;
use beast_scheduler::run_queue::{age_all, sort_queue};
use std::collections::VecDeque;

fn queue_of(entries: &[(u32, u8, u32)]) -> VecDeque<Process> {
    let mut q = VecDeque::new();
    for (pid, priority, waited) in entries {
        let mut p = Process::new(*pid, "task", *priority, 10, 4);
        p.waiting_time = *waited;
        q.push_back(p);
    }
    q
}

fn pids(q: &VecDeque<Process>) -> Vec<u32> {
    q.iter().map(|p| p.pid).collect()
}

fn priorities(q: &VecDeque<Process>) -> Vec<u8> {
    q.iter().map(|p| p.priority).collect()
}

fn waits(q: &VecDeque<Process>) -> Vec<u32> {
    q.iter().map(|p| p.waiting_time).collect()
}

#[test]
fn sort_orders_by_ascending_priority() {
    let mut q = queue_of(&[(1, 9, 0), (2, 3, 0), (3, 7, 0), (4, 1, 0), (5, 10, 0)]);
    sort_queue(&mut q);
    assert_eq!(pids(&q), vec![4, 2, 3, 1, 5]);
    assert_eq!(priorities(&q), vec![1, 3, 7, 9, 10]);
}

#[test]
fn sort_keeps_ties_in_queue_order() {
    let mut q = queue_of(&[(1, 2, 0), (2, 1, 0), (3, 2, 0), (4, 1, 0), (5, 2, 0), (6, 1, 0)]);
    sort_queue(&mut q);
    assert_eq!(pids(&q), vec![2, 4, 6, 1, 3, 5]);
}

#[test]
fn sort_of_a_reversed_queue() {
    let mut q = queue_of(&[(1, 5, 0), (2, 4, 0), (3, 3, 0), (4, 2, 0), (5, 1, 0)]);
    sort_queue(&mut q);
    assert_eq!(pids(&q), vec![5, 4, 3, 2, 1]);
}

#[test]
fn sort_leaves_a_sorted_queue_alone() {
    let mut q = queue_of(&[(1, 1, 0), (2, 1, 0), (3, 4, 0), (4, 4, 0), (5, 8, 0)]);
    sort_queue(&mut q);
    assert_eq!(pids(&q), vec![1, 2, 3, 4, 5]);
    sort_queue(&mut q);
    assert_eq!(pids(&q), vec![1, 2, 3, 4, 5]);
}

#[test]
fn sort_covers_the_whole_priority_range() {
    let mut q = queue_of(&[(1, 255, 0), (2, 0, 0), (3, 128, 0), (4, 0, 0), (5, 255, 0)]);
    sort_queue(&mut q);
    assert_eq!(pids(&q), vec![2, 4, 3, 1, 5]);
}

#[test]
fn sort_of_empty_and_single_queues() {
    let mut empty = queue_of(&[]);
    sort_queue(&mut empty);
    assert!(empty.is_empty());
    let mut one = queue_of(&[(7, 3, 2)]);
    sort_queue(&mut one);
    assert_eq!(pids(&one), vec![7]);
    assert_eq!(waits(&one), vec![2]);
}

#[test]
fn sort_agrees_with_a_stable_sort_on_many_queues() {
    let mut seed: u32 = 12345;
    for round in 0..50 {
        let mut entries = Vec::new();
        for pid in 0..(round % 17 + 1) {
            seed = seed.wrapping_mul(1664525).wrapping_add(1013904223);
            entries.push((pid as u32, (seed >> 24) as u8 % 6, 0u32));
        }
        let mut q = queue_of(&entries);
        sort_queue(&mut q);
        let mut expected = entries.clone();
        expected.sort_by_key(|e| e.1);
        let expected_pids: Vec<u32> = expected.iter().map(|e| e.0).collect();
        assert_eq!(pids(&q), expected_pids);
    }
}

#[test]
fn age_all_lets_everyone_wait_one_tick() {
    let mut q = queue_of(&[(1, 3, 0), (2, 5, 4), (3, 1, 9)]);
    age_all(&mut q);
    assert_eq!(pids(&q), vec![1, 2, 3]);
    assert_eq!(waits(&q), vec![1, 5, 10]);
    assert_eq!(priorities(&q), vec![3, 5, 1]);
}

#[test]
fn age_all_boosts_those_who_waited_too_long() {
    let mut q = queue_of(&[(1, 3, 5), (2, 2, 7), (3, 1, 5), (4, 10, 5)]);
    age_all(&mut q);
    assert_eq!(pids(&q), vec![1, 2, 3, 4]);
    assert_eq!(priorities(&q), vec![2, 1, 1, 9]);
    assert_eq!(waits(&q), vec![0, 0, 6, 0]);
}

#[test]
fn age_all_on_an_empty_queue() {
    let mut q = queue_of(&[]);
    age_all(&mut q);
    assert!(q.is_empty());
}
