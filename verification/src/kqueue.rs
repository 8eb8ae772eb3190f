//! Watching with kqueue.

pub mod event_laws;
pub mod event_loop;
pub mod laws;
pub mod step_laws;
pub mod task;
