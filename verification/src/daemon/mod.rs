//! The privileged daemon: what it answers to its clients, and when.

pub mod config_edit;
pub mod errors;
pub mod marshal;
pub mod mount;
pub mod service;
pub mod snapshot_mount;
pub mod state;
pub mod watcher;
