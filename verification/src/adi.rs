//! Constants of the ARM debug interface.

pub mod v5;
