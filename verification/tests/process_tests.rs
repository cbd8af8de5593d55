use beast_scheduler::process::{Process, ProcessState};

#[test]
fn new_process_is_ready_and_owes_its_burst() {
    let p = Process::new(7, "NetworkDaemon", 3, 15, 16);
    assert_eq!(p.pid, 7);
    assert_eq!(p.name, "NetworkDaemon");
    assert_eq!(p.priority, 3);
    assert_eq!(p.burst_time, 15);
    assert_eq!(p.remaining_time, 15);
    assert_eq!(p.waiting_time, 0);
    assert_eq!(p.state, ProcessState::Ready);
    assert_eq!(p.memory_needed, 16);
    assert!(p.resources.is_empty());
    assert_eq!(p.waiting_for, None);
}

#[test]
fn new_process_keeps_name_text_exactly() {
    let p = Process::new(1, "", 1, 0, 0);
    assert_eq!(p.name, "");
    let q = Process::new(2, "a b\tc", 10, u32::MAX, usize::MAX);
    assert_eq!(q.name, "a b\tc");
    assert_eq!(q.remaining_time, u32::MAX);
    assert_eq!(q.memory_needed, usize::MAX);
}

#[test]
fn aging_fires_past_the_threshold() {
    let mut p = Process::new(1, "p", 5, 10, 4);
    p.waiting_time = 6;
    p.apply_aging();
    assert_eq!(p.priority, 4);
    assert_eq!(p.waiting_time, 0);
    assert_eq!(p.remaining_time, 10);
    assert_eq!(p.state, ProcessState::Ready);
}

#[test]
fn aging_needs_more_than_the_threshold() {
    let mut p = Process::new(1, "p", 5, 10, 4);
    p.waiting_time = 5;
    p.apply_aging();
    assert_eq!(p.priority, 5);
    assert_eq!(p.waiting_time, 5);
}

#[test]
fn aging_stops_at_the_highest_priority() {
    let mut p = Process::new(1, "p", 1, 10, 4);
    p.waiting_time = 100;
    p.apply_aging();
    assert_eq!(p.priority, 1);
    assert_eq!(p.waiting_time, 100);
}

#[test]
fn aging_moves_one_level_at_a_time() {
    let mut p = Process::new(1, "p", 2, 10, 4);
    p.waiting_time = u32::MAX;
    p.apply_aging();
    assert_eq!(p.priority, 1);
    assert_eq!(p.waiting_time, 0);
    p.apply_aging();
    assert_eq!(p.priority, 1);
    assert_eq!(p.waiting_time, 0);
}

#[test]
fn aging_leaves_the_rest_of_the_process_alone() {
    let mut p = Process::new(9, "Logger", 6, 12, 8);
    p.waiting_time = 9;
    p.remaining_time = 3;
    p.state = ProcessState::Waiting;
    p.resources.push(4);
    p.waiting_for = Some(2);
    p.apply_aging();
    assert_eq!(p.pid, 9);
    assert_eq!(p.name, "Logger");
    assert_eq!(p.priority, 5);
    assert_eq!(p.burst_time, 12);
    assert_eq!(p.remaining_time, 3);
    assert_eq!(p.state, ProcessState::Waiting);
    assert_eq!(p.memory_needed, 8);
    assert_eq!(p.resources, vec![4]);
    assert_eq!(p.waiting_for, Some(2));
}

#[test]
fn state_labels_are_ten_columns_wide() {
    assert_eq!(ProcessState::Ready.label(), "READY     ");
    assert_eq!(ProcessState::Running.label(), "RUNNING   ");
    assert_eq!(ProcessState::Waiting.label(), "WAITING   ");
    assert_eq!(ProcessState::Terminated.label(), "TERMINATED");
    for state in [
        ProcessState::Ready,
        ProcessState::Running,
        ProcessState::Waiting,
        ProcessState::Terminated,
    ] {
        assert_eq!(state.label().len(), 10);
    }
}

#[test]
fn process_can_be_cloned() {
    let p = Process::new(3, "UserShell", 5, 10, 8);
    let q = p.clone();
    assert_eq!(q.pid, 3);
    assert_eq!(q.name, "UserShell");
    assert_eq!(q.priority, 5);
    assert_eq!(q.state, ProcessState::Ready);
}
