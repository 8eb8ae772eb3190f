//! Watching with FSEvents.

pub mod budget;
pub mod flag_laws;
pub mod path_laws;
pub mod paths;
pub mod root_laws;
pub mod roots;
pub mod stream;
pub mod translate;
pub mod watcher;
