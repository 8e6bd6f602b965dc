//! What the library promises of its parts together.

pub mod bus;
pub mod commands;
pub mod detection;
pub mod disk;
pub mod health;
pub mod listing;
pub mod markers;
pub mod mirror;
pub mod names;
pub mod output;
pub mod requests;
pub mod settings;
pub mod setup;
pub mod tiers;
