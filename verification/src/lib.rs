//! The logic of a file system watcher, for inotify, kqueue and FSEvents.

pub mod bimap;
pub mod config;
pub mod consolidating_path_trie;
pub mod consolidation_laws;
pub mod error;
pub mod event;
pub mod filter;
pub mod fsevent;
pub mod inotify;
pub mod kqueue;
pub mod order;
pub mod outcome;
pub mod path;
pub mod path_laws;
pub mod path_list;
pub mod path_map;
pub mod path_trie;
pub mod queue;
pub mod report;
pub mod root;
