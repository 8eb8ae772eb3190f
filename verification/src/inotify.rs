//! Watching with inotify.

pub mod event_laws;
pub mod event_loop;
pub mod laws;
pub mod mask;
pub mod reading;
pub mod step_laws;
pub mod table;
pub mod task;
