//! The process record and its aging rule.

use vstd::prelude::*;

verus! {

/// A waiting time above this many ticks earns a priority boost.
pub const AGING_THRESHOLD: u32 = 5;

/// The most urgent priority; aging never goes past it.
pub const HIGHEST_PRIORITY: u8 = 1;

/// The least urgent priority a well-formed process may carry.
pub const LOWEST_PRIORITY: u8 = 10;

/// Where a process stands in its life cycle.
#[derive(Clone, Copy, Debug, PartialEq, Eq, Structural)]
pub enum ProcessState {
    Ready,
    Running,
    Waiting,
    Terminated,
}

impl ProcessState {
    /// The fixed-width label of a state, as a sequence of characters.
    pub open spec fn label_text(self) -> Seq<char> {
        match self {
            ProcessState::Ready => "READY     "@,
            ProcessState::Running => "RUNNING   "@,
            ProcessState::Waiting => "WAITING   "@,
            ProcessState::Terminated => "TERMINATED"@,
        }
    }

    /// The label under which a state is shown, padded to ten columns.
    pub fn label(&self) -> (text: &'static str)
        ensures
            text@ == self.label_text(),
    {
        match self {
            ProcessState::Ready => "READY     ",
            ProcessState::Running => "RUNNING   ",
            ProcessState::Waiting => "WAITING   ",
            ProcessState::Terminated => "TERMINATED",
        }
    }
}

/// One schedulable process.
#[derive(Clone, Debug)]
pub struct Process {
    /// Identity, assigned by the caller.
    pub pid: u32,
    pub name: String,
    /// Urgency: 1 is the most urgent, 10 the least.
    pub priority: u8,
    /// Total CPU demand in ticks.
    pub burst_time: u32,
    /// CPU demand still outstanding.
    pub remaining_time: u32,
    /// Ticks spent in the ready queue since the last reset.
    pub waiting_time: u32,
    pub state: ProcessState,
    /// Capacity units requested from the allocator.
    pub memory_needed: usize,
    /// Resources currently held.
    pub resources: Vec<u32>,
    /// The resource the process is blocked on, if any.
    pub waiting_for: Option<u32>,
}

impl Process {
    /// A process is well formed when its identity is positive, its priority
    /// lies in the documented band and it does not owe more CPU time than it
    /// asked for.
    pub open spec fn wf(self) -> bool {
        &&& self.pid > 0
        &&& HIGHEST_PRIORITY <= self.priority <= LOWEST_PRIORITY
        &&& self.remaining_time <= self.burst_time
    }

    /// Whether the aging rule fires on this process.
    pub open spec fn is_starved(self) -> bool {
        self.waiting_time > AGING_THRESHOLD && self.priority > HIGHEST_PRIORITY
    }

    /// The process after the aging rule has been applied once.
    pub open spec fn aged(self) -> Process {
        if self.is_starved() {
            Process { priority: (self.priority - 1) as u8, waiting_time: 0, ..self }
        } else {
            self
        }
    }

    /// A fresh process: ready, owing its whole burst, holding nothing.
    pub fn new(pid: u32, name: &str, priority: u8, burst_time: u32, memory_needed: usize) -> (p:
        Self)
        ensures
            p.pid == pid,
            p.name@ == name@,
            p.priority == priority,
            p.burst_time == burst_time,
            p.remaining_time == burst_time,
            p.waiting_time == 0,
            p.state == ProcessState::Ready,
            p.memory_needed == memory_needed,
            p.resources@ == Seq::<u32>::empty(),
            p.waiting_for == None::<u32>,
            p.wf() <==> pid > 0 && HIGHEST_PRIORITY <= priority <= LOWEST_PRIORITY,
    {
        Process {
            pid,
            name: name.to_string(),
            priority,
            burst_time,
            remaining_time: burst_time,
            waiting_time: 0,
            state: ProcessState::Ready,
            memory_needed,
            resources: Vec::new(),
            waiting_for: None,
        }
    }

    /// Starvation avoidance: a process that has waited more than
    /// [`AGING_THRESHOLD`] ticks and is not yet at [`HIGHEST_PRIORITY`] moves
    /// up one priority level and starts waiting afresh. Otherwise nothing
    /// changes.
    pub fn apply_aging(&mut self)
        ensures
            *final(self) == old(self).aged(),
            old(self).is_starved() ==> final(self).priority == old(self).priority - 1,
            old(self).is_starved() ==> final(self).waiting_time == 0,
            !old(self).is_starved() ==> *final(self) == *old(self),
            old(self).wf() ==> final(self).wf(),
    {
        if self.waiting_time > AGING_THRESHOLD && self.priority > HIGHEST_PRIORITY {
            self.priority -= 1;
            self.waiting_time = 0;
        }
    }
}

} // verus!
