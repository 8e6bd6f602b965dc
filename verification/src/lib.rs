//! Snapshot, restore and retention logic for copy-on-write system snapshots.

pub mod assoc;
pub mod backend;
pub mod bootloader;
pub mod check;
pub mod cleanup;
pub mod cli;
pub mod clock;
pub mod config;
pub mod daemon;
pub mod document;
pub mod efi;
pub mod error;
pub mod init;
pub mod laws;
pub mod layout;
pub mod lines;
pub mod metadata;
pub mod path;
pub mod pkgmgr;
pub mod preflight;
pub mod restore;
pub mod retention;
pub mod snapshot;
pub mod systemd;
pub mod text;
