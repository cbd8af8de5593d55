use beast_scheduler::deadlock::ResourceAllocGraph;
use std::collections::HashMap;

fn waits(pairs: &[(u32, u32)]) -> HashMap<u32, u32> {
    let mut m = HashMap::new();
    for (pid, resource) in pairs {
        m.insert(*pid, *resource);
    }
    m
}

fn edges(pairs: &[(u32, u32)]) -> HashMap<u32, u32> {
    waits(pairs)
}

/// The path follows edges and ends with the first process it meets twice.
fn check_cycle_path(graph: &HashMap<u32, u32>, path: &[u32]) {
    assert!(path.len() >= 2);
    for w in path.windows(2) {
        assert_eq!(graph.get(&w[0]), Some(&w[1]));
    }
    let front = &path[..path.len() - 1];
    for i in 0..front.len() {
        for j in i + 1..front.len() {
            assert_ne!(front[i], front[j]);
        }
    }
    assert!(front.contains(&path[path.len() - 1]));
}

#[test]
fn new_graph_has_every_resource_free() {
    let g = ResourceAllocGraph::new(vec![1, 2, 3, 4]);
    assert_eq!(g.resources.len(), 4);
    for id in 1..=4 {
        assert_eq!(g.resources.get(&id), Some(&None));
    }
    assert_eq!(g.resources.get(&5), None);
}

#[test]
fn new_graph_counts_a_repeated_resource_once() {
    let g = ResourceAllocGraph::new(vec![7, 7, 8]);
    assert_eq!(g.resources.len(), 2);
    let empty = ResourceAllocGraph::new(vec![]);
    assert!(empty.resources.is_empty());
}

#[test]
fn acquire_takes_a_free_resource() {
    let mut g = ResourceAllocGraph::new(vec![1, 2]);
    assert!(g.acquire(10, 1));
    assert_eq!(g.resources.get(&1), Some(&Some(10)));
    assert_eq!(g.resources.get(&2), Some(&None));
}

#[test]
fn acquire_fails_on_a_held_resource() {
    let mut g = ResourceAllocGraph::new(vec![1]);
    assert!(g.acquire(10, 1));
    assert!(!g.acquire(11, 1));
    assert!(!g.acquire(10, 1));
    assert_eq!(g.resources.get(&1), Some(&Some(10)));
}

#[test]
fn acquire_fails_on_an_unknown_resource() {
    let mut g = ResourceAllocGraph::new(vec![1]);
    assert!(!g.acquire(10, 2));
    assert_eq!(g.resources.len(), 1);
    assert_eq!(g.resources.get(&2), None);
}

#[test]
fn one_process_may_hold_several_resources() {
    let mut g = ResourceAllocGraph::new(vec![1, 2]);
    assert!(g.acquire(10, 1));
    assert!(g.acquire(10, 2));
    assert_eq!(g.resources.get(&1), Some(&Some(10)));
    assert_eq!(g.resources.get(&2), Some(&Some(10)));
}

#[test]
fn release_frees_a_resource_for_the_next_taker() {
    let mut g = ResourceAllocGraph::new(vec![1]);
    assert!(g.acquire(10, 1));
    g.release(1);
    assert_eq!(g.resources.get(&1), Some(&None));
    assert!(g.acquire(11, 1));
    assert_eq!(g.resources.get(&1), Some(&Some(11)));
}

#[test]
fn release_of_a_free_or_unknown_resource_changes_nothing() {
    let mut g = ResourceAllocGraph::new(vec![1]);
    g.release(1);
    g.release(9);
    assert_eq!(g.resources.len(), 1);
    assert_eq!(g.resources.get(&1), Some(&None));
}

#[test]
fn two_processes_waiting_for_each_other_are_deadlocked() {
    let mut g = ResourceAllocGraph::new(vec![1, 2]);
    assert!(g.acquire(1, 1));
    assert!(g.acquire(2, 2));
    let waiting_for = waits(&[(1, 2), (2, 1)]);
    let cycle = g.detect_deadlock(&waiting_for).expect("a cycle");
    assert!(cycle.contains(&1));
    assert!(cycle.contains(&2));
    assert_eq!(cycle, vec![1, 2, 1]);
    check_cycle_path(&g.wait_graph(&waiting_for), &cycle);
}

#[test]
fn a_chain_of_waits_that_ends_is_no_deadlock() {
    let mut g = ResourceAllocGraph::new(vec![1, 2, 3]);
    assert!(g.acquire(1, 1));
    assert!(g.acquire(2, 2));
    let waiting_for = waits(&[(1, 2)]);
    assert_eq!(g.detect_deadlock(&waiting_for), None);
}

#[test]
fn nobody_waiting_is_no_deadlock() {
    let mut g = ResourceAllocGraph::new(vec![1, 2]);
    assert!(g.acquire(1, 1));
    assert_eq!(g.detect_deadlock(&HashMap::new()), None);
}

#[test]
fn waiting_for_ones_own_resource_is_no_edge() {
    let mut g = ResourceAllocGraph::new(vec![1]);
    assert!(g.acquire(1, 1));
    let waiting_for = waits(&[(1, 1)]);
    assert!(g.wait_graph(&waiting_for).is_empty());
    assert_eq!(g.detect_deadlock(&waiting_for), None);
}

#[test]
fn waiting_for_a_free_or_unknown_resource_is_no_edge() {
    let mut g = ResourceAllocGraph::new(vec![1, 2]);
    assert!(g.acquire(1, 1));
    let waiting_for = waits(&[(1, 2), (2, 9)]);
    assert!(g.wait_graph(&waiting_for).is_empty());
    assert_eq!(g.detect_deadlock(&waiting_for), None);
}

#[test]
fn wait_graph_points_each_waiter_at_the_holder() {
    let mut g = ResourceAllocGraph::new(vec![1, 2, 3]);
    assert!(g.acquire(1, 1));
    assert!(g.acquire(2, 2));
    assert!(g.acquire(3, 3));
    let graph = g.wait_graph(&waits(&[(1, 2), (2, 3), (4, 1)]));
    assert_eq!(graph, edges(&[(1, 2), (2, 3), (4, 1)]));
}

#[test]
fn releasing_a_resource_breaks_the_deadlock() {
    let mut g = ResourceAllocGraph::new(vec![1, 2]);
    assert!(g.acquire(1, 1));
    assert!(g.acquire(2, 2));
    let waiting_for = waits(&[(1, 2), (2, 1)]);
    assert!(g.detect_deadlock(&waiting_for).is_some());
    g.release(2);
    assert_eq!(g.detect_deadlock(&waiting_for), None);
}

#[test]
fn three_processes_in_a_ring_are_deadlocked() {
    let mut g = ResourceAllocGraph::new(vec![1, 2, 3]);
    assert!(g.acquire(1, 1));
    assert!(g.acquire(2, 2));
    assert!(g.acquire(3, 3));
    let waiting_for = waits(&[(1, 2), (2, 3), (3, 1)]);
    let cycle = g.detect_deadlock(&waiting_for).expect("a cycle");
    assert_eq!(cycle, vec![1, 2, 3, 1]);
    check_cycle_path(&g.wait_graph(&waiting_for), &cycle);
}

#[test]
fn a_process_waiting_into_a_cycle_is_reported_with_its_lead() {
    let mut g = ResourceAllocGraph::new(vec![1, 2]);
    assert!(g.acquire(5, 1));
    assert!(g.acquire(7, 2));
    let waiting_for = waits(&[(5, 2), (7, 1), (3, 1)]);
    for _ in 0..20 {
        let cycle = g.detect_deadlock(&waiting_for).expect("a cycle");
        assert_eq!(cycle, vec![3, 5, 7, 5]);
        check_cycle_path(&g.wait_graph(&waiting_for), &cycle);
    }
}

#[test]
fn the_search_starts_at_the_smallest_stuck_process() {
    let mut g = ResourceAllocGraph::new(vec![1, 2, 3, 4, 5]);
    assert!(g.acquire(40, 1));
    assert!(g.acquire(30, 2));
    assert!(g.acquire(20, 3));
    assert!(g.acquire(10, 4));
    // 10 waits for 20, which waits for nothing: that wait ends.
    // 30 and 40 wait for each other.
    let waiting_for = waits(&[(10, 3), (30, 1), (40, 2), (50, 5)]);
    for _ in 0..20 {
        assert_eq!(g.detect_deadlock(&waiting_for), Some(vec![30, 40, 30]));
    }
}

#[test]
fn many_maps_with_the_same_content_give_the_same_path() {
    let mut g = ResourceAllocGraph::new((0..64).collect());
    for r in 0..64u32 {
        assert!(g.acquire(1000 - r, r));
    }
    let mut pairs = Vec::new();
    for r in 0..64u32 {
        pairs.push((1000 - r, (r + 1) % 64));
    }
    let first = g.detect_deadlock(&waits(&pairs)).expect("a cycle");
    assert_eq!(first[0], 937);
    assert_eq!(first.len(), 65);
    for _ in 0..10 {
        pairs.rotate_left(7);
        assert_eq!(g.detect_deadlock(&waits(&pairs)), Some(first.clone()));
    }
}

#[test]
fn find_cycle_goes_by_the_order_of_the_starts() {
    let graph = edges(&[(1, 2), (2, 1), (3, 1)]);
    assert_eq!(ResourceAllocGraph::find_cycle(&graph, &vec![3, 1, 2]), Some(vec![3, 1, 2, 1]));
    assert_eq!(ResourceAllocGraph::find_cycle(&graph, &vec![1, 2, 3]), Some(vec![1, 2, 1]));
    assert_eq!(ResourceAllocGraph::find_cycle(&graph, &vec![2, 3, 1]), Some(vec![2, 1, 2]));
}

#[test]
fn find_cycle_passes_over_starts_that_end() {
    let graph = edges(&[(1, 2), (2, 3), (5, 6), (6, 5), (7, 1)]);
    assert_eq!(
        ResourceAllocGraph::find_cycle(&graph, &vec![7, 1, 2, 5, 6]),
        Some(vec![5, 6, 5])
    );
    assert_eq!(ResourceAllocGraph::find_cycle(&graph, &vec![7, 2, 1]), None);
    assert_eq!(ResourceAllocGraph::find_cycle(&graph, &vec![]), None);
    assert_eq!(ResourceAllocGraph::find_cycle(&graph, &vec![9]), None);
}

#[test]
fn find_cycle_without_edges_finds_nothing() {
    let graph: HashMap<u32, u32> = HashMap::new();
    assert_eq!(ResourceAllocGraph::find_cycle(&graph, &vec![1, 2, 3]), None);
}

#[test]
fn find_cycle_reports_a_self_loop() {
    let graph = edges(&[(4, 4)]);
    assert_eq!(ResourceAllocGraph::find_cycle(&graph, &vec![4]), Some(vec![4, 4]));
}

#[test]
fn a_long_ring_is_found() {
    let mut pairs = Vec::new();
    for pid in 0..500u32 {
        pairs.push((pid, (pid + 1) % 500));
    }
    let graph = edges(&pairs);
    let path = ResourceAllocGraph::find_cycle(&graph, &vec![17]).expect("a cycle");
    assert_eq!(path.len(), 501);
    assert_eq!(path[0], 17);
    assert_eq!(path[500], 17);
    check_cycle_path(&graph, &path);
}
