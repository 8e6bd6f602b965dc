//! The EFI system partition.

pub mod sync;
pub mod tree;
