//! The lines of the pin driver and the record of what was asked of them.

use crate::error::Error;
use embedded_hal::delay::DelayNs;
use embedded_hal::digital::{InputPin, OutputPin, PinState};
use vstd::prelude::*;

verus! {

/// The three lines that the driver drives.
pub enum Line {
    /// The clock.
    Clock,
    /// Mode select.
    Mode,
    /// Data in.
    Data,
}

/// One call that a pin or the timer has answered.
pub enum LineOp {
    /// The line was driven low.
    Low(Line),
    /// The line was driven high.
    High(Line),
    /// The line was set to this level.
    Level(Line, bool),
    /// This many nanoseconds were waited.
    Wait(u32),
    /// The data-out line was read and had this level.
    Sample(bool),
}

/// The record of the calls that the pins and the timer have answered,
/// oldest first. Only the calls themselves add to it: nothing outside this
/// file can write it.
pub struct Ledger {
    ops: Ghost<Seq<LineOp>>,
}

impl Ledger {
    /// The calls on record.
    pub closed spec fn ops(&self) -> Seq<LineOp> {
        self.ops@
    }

    /// A record without a call.
    pub(crate) fn new() -> (ledger: Ledger)
        ensures
            ledger.ops() == Seq::<LineOp>::empty(),
    {
        Ledger { ops: Ghost(Seq::empty()) }
    }
}

/// A place at the port: the line that a pin put there is wired to.
pub trait Place {
    /// The line of this place.
    spec fn line() -> Line;
}

/// The place of the clock pin.
pub struct AtClock;

/// The place of the mode-select pin.
pub struct AtMode;

/// The place of the data-in pin.
pub struct AtData;

impl Place for AtClock {
    open spec fn line() -> Line {
        Line::Clock
    }
}

impl Place for AtMode {
    open spec fn line() -> Line {
        Line::Mode
    }
}

impl Place for AtData {
    open spec fn line() -> Line {
        Line::Data
    }
}

/// An output pin at its place.
pub struct Wired<P, L> {
    pin: P,
    place: L,
}

impl<P, L: Place> Wired<P, L> {
    /// The pin as the one at `place`.
    pub(crate) fn new(pin: P, place: L) -> (wired: Self) {
        Wired { pin, place }
    }
}

/// Calls `OutputPin::set_low`. Where the pin accepts, the call goes on
/// record; a refusal comes back as `Error::Pin` and leaves the record as it
/// was. Whether the line then is low is up to the pin.
#[verifier::external_body]
pub(crate) fn drive_low<P: OutputPin, L: Place>(
    line: &mut Wired<P, L>,
    ledger: &mut Ledger,
) -> (r: Result<(), Error>)
    ensures
        match r {
            Ok(()) => final(ledger).ops() == old(ledger).ops().push(LineOp::Low(L::line())),
            Err(e) => e == Error::Pin && final(ledger).ops() == old(ledger).ops(),
        },
{
    line.pin.set_low().map_err(|_| Error::Pin)
}

/// Calls `OutputPin::set_high`. Where the pin accepts, the call goes on
/// record; a refusal comes back as `Error::Pin` and leaves the record as it
/// was. Whether the line then is high is up to the pin.
#[verifier::external_body]
pub(crate) fn drive_high<P: OutputPin, L: Place>(
    line: &mut Wired<P, L>,
    ledger: &mut Ledger,
) -> (r: Result<(), Error>)
    ensures
        match r {
            Ok(()) => final(ledger).ops() == old(ledger).ops().push(LineOp::High(L::line())),
            Err(e) => e == Error::Pin && final(ledger).ops() == old(ledger).ops(),
        },
{
    line.pin.set_high().map_err(|_| Error::Pin)
}

/// Calls `OutputPin::set_state` with `PinState::High` for `true` and
/// `PinState::Low` for `false`. Where the pin accepts, the call goes on
/// record with the level asked for; a refusal comes back as `Error::Pin`
/// and leaves the record as it was.
#[verifier::external_body]
pub(crate) fn drive<P: OutputPin, L: Place>(
    line: &mut Wired<P, L>,
    high: bool,
    ledger: &mut Ledger,
) -> (r: Result<(), Error>)
    ensures
        match r {
            Ok(()) => final(ledger).ops() == old(ledger).ops().push(LineOp::Level(L::line(), high)),
            Err(e) => e == Error::Pin && final(ledger).ops() == old(ledger).ops(),
        },
{
    line.pin.set_state(PinState::from(high)).map_err(|_| Error::Pin)
}

/// Calls `InputPin::is_high`. The level is whatever the line carries, and
/// the call goes on record with it; a refusal comes back as `Error::Pin`
/// and leaves the record as it was.
#[verifier::external_body]
pub(crate) fn sample<P: InputPin>(pin: &mut P, ledger: &mut Ledger) -> (r: Result<bool, Error>)
    ensures
        match r {
            Ok(level) => final(ledger).ops() == old(ledger).ops().push(LineOp::Sample(level)),
            Err(e) => e == Error::Pin && final(ledger).ops() == old(ledger).ops(),
        },
{
    pin.is_high().map_err(|_| Error::Pin)
}

/// Calls `DelayNs::delay_ns`, which returns after at least `ns`
/// nanoseconds, and puts the call on record.
#[verifier::external_body]
pub(crate) fn pause<D: DelayNs>(delay: &mut D, ns: u32, ledger: &mut Ledger)
    ensures
        final(ledger).ops() == old(ledger).ops().push(LineOp::Wait(ns)),
{
    delay.delay_ns(ns)
}

} // verus!
