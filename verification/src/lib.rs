//! Bookkeeping core of a single-CPU process scheduler simulation.
//!
//! Three engines are driven by one logical tick but own their state
//! separately:
//!
//! - [`scheduler`]: the ready queue, the running process and the finished
//!   list, advanced one tick at a time, with [`run_queue`] for the waiting,
//!   aging and stable priority order of the queue and [`process`] for the
//!   process record;
//! - [`memory`]: a fixed capacity cut into blocks, allocated first-fit and
//!   merged again on release;
//! - [`deadlock`]: who holds which resource, and the search for a circular
//!   wait among blocked processes.
//!
//! Every executable function carries a contract over a mathematical model of
//! its data. What holds across operations (the queue order, stability, the
//! quantum bound, one place per process, the capacity of the allocator) is
//! stated and proved in public proof functions beside the code.

pub mod process;
pub mod run_queue;
pub mod scheduler;
pub mod memory;
pub mod deadlock;
