//! A deterministic, weight-bounded deferred task scheduler.
//!
//! Callers enqueue tasks (anonymous or named) for a future execution step;
//! once per step the host invokes [`engine::Scheduler::on_step`], which runs
//! the step's agenda in priority order under a fixed resource budget, defers
//! what does not fit to the next step, re-arms periodic tasks, and purges
//! cancelled or unresolvable entries.

pub mod engine;
pub mod laws;
pub mod model;
pub mod names;
pub mod preimages;
pub mod task;
pub mod weight;
