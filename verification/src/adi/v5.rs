//! Instructions and register addresses of the debug port, version 5.

use vstd::prelude::*;

verus! {

// Instructions of the debug port.
pub const BYPASS: u8 = 0b1111;

pub const IDCODE: u8 = 0b1110;

pub const DPACC: u8 = 0b1010;

pub const APACC: u8 = 0b1011;

pub const ABORT: u8 = 0b1000;

// Registers of the debug port.
pub const DP_CTRL_STAT: u8 = 0b0100;

pub const DP_SELECT: u8 = 0b1000;

pub const DP_RDBUFF: u8 = 0b1100;

} // verus!
