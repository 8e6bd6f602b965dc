//! The command line program: arguments, commands and their output.

pub mod args;
pub mod commands;
pub mod output;
pub mod setup;
