//! A driver for chains of JTAG test access ports.
//!
//! `pins` shifts single bits over four lines, `io` says what any such port
//! owes the engine, and `adapter` is the engine: it resets the chain, finds
//! out which devices it holds, and reads and writes the instruction and
//! data registers of one device while the others are kept in bypass.
//! `plan` spells out, pulse by pulse, what each of its operations puts on
//! the wire; the contracts of the engine are stated over that.

pub mod adapter;
pub mod adi;
pub mod capture;
pub mod chain;
pub mod codec;
pub mod error;
pub mod io;
pub mod lines;
pub mod pins;
pub mod plan;
pub mod scan;

pub use crate::adapter::{JtagAdapter, TapState};
pub use crate::io::RawJtagIo;
pub use crate::pins::JtagIo;
