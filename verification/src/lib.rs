//! Greedy list scheduling for job-shop problems, on integer time.
//!
//! Times and durations are counted in ticks, `TICKS_PER_UNIT` of which make
//! one unit of time. A job is a fixed chain of operations, each bound to one
//! machine. The solver walks the jobs in the order given, places every
//! operation as early as its machine and its job allow, and never revisits a
//! placement.

pub mod model;
pub mod plan;
pub mod solver;
pub mod generator;
pub mod validation;

pub use model::{Job, Operation, ScheduledOperation, Slot};
pub use solver::JsspSolver;
pub use generator::{generate_random_instance, TICKS_PER_UNIT};
pub use validation::InstanceError;
