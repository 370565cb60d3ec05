//! A verified model of a fixed set of concurrent actors competing for a ring
//! of mutually exclusive resources, where each actor needs two adjacent
//! resources at once to make progress.
//!
//! The heart of the crate is a deterministic small-step semantics of the
//! acquire -> hold -> release lifecycle (`state`), an executable coordinator
//! that follows exactly that semantics (`coordinator`), a mutually exclusive
//! resource pool (`pool`), and a FIFO event channel with a termination
//! sentinel (`channel`). The scheduler is a parameter: a run is driven by an
//! explicit schedule of actor indices, so every interleaving a preemptive
//! scheduler could choose can be replayed and reasoned about, including the
//! cyclic-wait interleaving that deadlocks the naive acquisition order.

pub mod actor;
pub mod channel;
pub mod coordinator;
pub mod state;
pub mod pool;

pub use actor::Phase;
pub use actor::Philosopher;
pub use channel::Event;
pub use channel::EventChannel;
pub use channel::Message;
pub use coordinator::Coordinator;
pub use coordinator::RunOutcome;
pub use coordinator::fair_schedule;
pub use coordinator::report_lines;
pub use coordinator::run;
pub use coordinator::run_fair;
pub use pool::ResourcePool;
