//! Engine for a weekday-recurring task tracker.
//!
//! Tasks recur on a set of ISO weekdays (Monday = 1 .. Sunday = 7). Each day a
//! task is due, the user may toggle it done; a per-(task, date) completion
//! ledger records the outcome together with a display priority for that day.
//! Tasks may carry subtasks, in which case the task's effective completion is
//! derived from the subtasks rather than stored. The engine also aggregates
//! the ledger into a 30-day completion heatmap and a running summary.
//!
//! The engine is pure state transformation: it owns an in-memory [`model::Store`]
//! and never performs I/O. Callers (an HTTP layer, a database adapter, tests)
//! load plain values in and carry plain values out.

pub mod auth;
pub mod laws;
pub mod model;
pub mod reads;
pub mod stats;
pub mod store;
pub mod writes;
