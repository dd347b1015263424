//! A fixed-size worker pool, verified at the level of its control logic.
//!
//! The pool accepts arbitrarily many deferred units of work and executes each
//! exactly once on one of a bounded set of long-lived workers, with a
//! deterministic, deadlock-free two-phase shutdown: first one terminate
//! message per worker is broadcast, only then is any worker joined.
//!
//! The modules model the pool as an explicit state machine. [`message`] holds
//! the control messages that travel through the job queue, [`worker`] the
//! per-worker state machine, and [`pool`] the dispatcher that owns the queue
//! and the workers. Every transition is an executable function with a
//! contract, and the global guarantees (exactly-once execution, no dequeue
//! after a terminate, progress of the two-phase shutdown) are proved as laws
//! over those transitions. The surrounding process supplies real threads and
//! channels; it drives one worker state machine per thread and performs the
//! actions the transitions return.
//!
//! One deliberate limit: the model speaks of jobs that run to completion. A
//! job that fails at run time takes its worker's thread down with it and that
//! capacity is silently lost — workers are not respawned, and no isolation of
//! a worker from its job's failure is attempted or claimed here.

pub mod message;
pub mod pool;
pub mod worker;
