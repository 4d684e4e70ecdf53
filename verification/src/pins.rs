//! The port made of pins: one clock pulse, edge by edge.

use crate::error::Error;
use crate::io::{Pulse, Wire};
use crate::lines::{
    drive, drive_high, drive_low, pause, sample, AtClock, AtData, AtMode, Ledger, Line, LineOp,
    Wired,
};
use embedded_hal::delay::DelayNs;
use embedded_hal::digital::{InputPin, OutputPin};
use vstd::prelude::*;

verus! {

/// The half period that a port has unless another is asked for, in
/// nanoseconds.
pub const DEFAULT_HALF_PERIOD: u32 = 33;

/// The time left to the data-out line to settle after a rising clock edge,
/// in nanoseconds.
pub const SETTLE: u32 = 1;

/// What one pulse asks of the pins and the timer, in order: clock low, mode
/// select and data in set, half a period, clock high, the settling time,
/// the sample where one is asked for, and the other half period.
pub open spec fn pulse_ops(tdi: bool, tms: bool, half_period: u32, tdo: Option<bool>) -> Seq<
    LineOp,
> {
    seq![
        LineOp::Low(Line::Clock),
        LineOp::Level(Line::Mode, tms),
        LineOp::Level(Line::Data, tdi),
        LineOp::Wait(half_period),
        LineOp::High(Line::Clock),
        LineOp::Wait(SETTLE),
    ] + match tdo {
        Some(level) => seq![LineOp::Sample(level)],
        None => seq![],
    } + seq![LineOp::Wait(half_period)]
}

/// A port made of three output pins, one input pin and a timer. It owns
/// them for as long as it lives.
pub struct JtagIo<I, O0, O1, O2, D> {
    tck: Wired<O0, AtClock>,
    tms: Wired<O1, AtMode>,
    tdi: Wired<O2, AtData>,
    tdo: I,
    delay: D,
    speed: u32,
    ledger: Ledger,
    wire: Ghost<Wire>,
}

impl<I: InputPin, O0: OutputPin, O1: OutputPin, O2: OutputPin, D: DelayNs> JtagIo<
    I,
    O0,
    O1,
    O2,
    D,
> {
    /// Every call that the pins and the timer of this port have answered,
    /// oldest first. The calls themselves keep this record.
    pub closed spec fn ops(&self) -> Seq<LineOp> {
        self.ledger.ops()
    }

    /// The pulses this port has completed and the number it had to abort.
    /// This is the port's own account: a pulse counts as completed once
    /// every call of it is on record, and as aborted where one was refused.
    pub closed spec fn wire(&self) -> Wire {
        self.wire@
    }

    /// The time between two clock edges, in nanoseconds.
    pub closed spec fn half_period(&self) -> u32 {
        self.speed
    }

    /// A port over the pins and the timer, given in the order clock, mode
    /// select, data in, data out, timer, with the default half period.
    pub fn new(fileds: (O0, O1, O2, I, D)) -> (io: Self)
        ensures
            io.half_period() == DEFAULT_HALF_PERIOD,
            io.ops() == Seq::<LineOp>::empty(),
            io.wire() == (Wire { pulses: Seq::empty(), faults: 0 }),
    {
        Self::with_half_period(fileds, DEFAULT_HALF_PERIOD)
    }

    /// A port like that of `new`, with `half_period` nanoseconds between two
    /// clock edges.
    pub fn with_half_period(fileds: (O0, O1, O2, I, D), half_period: u32) -> (io: Self)
        ensures
            io.half_period() == half_period,
            io.ops() == Seq::<LineOp>::empty(),
            io.wire() == (Wire { pulses: Seq::empty(), faults: 0 }),
    {
        Self {
            tck: Wired::new(fileds.0, AtClock),
            tms: Wired::new(fileds.1, AtMode),
            tdi: Wired::new(fileds.2, AtData),
            tdo: fileds.3,
            delay: fileds.4,
            speed: half_period,
            ledger: Ledger::new(),
            wire: Ghost(Wire { pulses: Seq::empty(), faults: 0 }),
        }
    }

    /// Shifts one bit: one clock pulse with the given levels on data in and
    /// mode select, and a sample of data out after the rising edge where
    /// `capture` asks for one. The first line that refuses ends the pulse:
    /// what was done up to there stays done, and nothing more is.
    pub fn shift_bit(&mut self, tdi: bool, tms: bool, capture: Option<&mut bool>) -> (r: Result<
        (),
        Error,
    >)
        ensures
            final(self).half_period() == old(self).half_period(),
            r is Ok ==> {
                let tdo = match capture {
                    Some(c) => Some(*final(c)),
                    None => None,
                };
                &&& final(self).ops() == old(self).ops() + pulse_ops(
                    tdi,
                    tms,
                    old(self).half_period(),
                    tdo,
                )
                &&& final(self).wire() == (Wire {
                    pulses: old(self).wire().pulses.push(Pulse { tdi, tms, tdo }),
                    faults: old(self).wire().faults,
                })
            },
            r is Err ==> {
                let k = final(self).ops().len() - old(self).ops().len();
                &&& r == Err::<(), Error>(Error::Pin)
                &&& 0 <= k <= 6
                &&& final(self).ops() == old(self).ops() + pulse_ops(
                    tdi,
                    tms,
                    old(self).half_period(),
                    None,
                ).take(k)
                &&& final(self).wire() == (Wire {
                    pulses: old(self).wire().pulses,
                    faults: old(self).wire().faults + 1,
                })
                &&& capture matches Some(c) ==> *final(c) == *c
            },
    {
        let ghost before = self.ledger.ops();
        let ghost plan = pulse_ops(tdi, tms, self.speed, None);
        let ghost failed = Wire { pulses: self.wire@.pulses, faults: self.wire@.faults + 1 };
        match drive_low(&mut self.tck, &mut self.ledger) {
            Ok(()) => {},
            Err(e) => {
                proof {
                    assert(before =~= before + plan.take(0));
                }
                self.wire = Ghost(failed);
                return Err(e);
            },
        }
        match drive(&mut self.tms, tms, &mut self.ledger) {
            Ok(()) => {},
            Err(e) => {
                proof {
                    assert(self.ledger.ops() =~= before + plan.take(1));
                }
                self.wire = Ghost(failed);
                return Err(e);
            },
        }
        match drive(&mut self.tdi, tdi, &mut self.ledger) {
            Ok(()) => {},
            Err(e) => {
                proof {
                    assert(self.ledger.ops() =~= before + plan.take(2));
                }
                self.wire = Ghost(failed);
                return Err(e);
            },
        }
        pause(&mut self.delay, self.speed, &mut self.ledger);
        match drive_high(&mut self.tck, &mut self.ledger) {
            Ok(()) => {},
            Err(e) => {
                proof {
                    assert(self.ledger.ops() =~= before + plan.take(4));
                }
                self.wire = Ghost(failed);
                return Err(e);
            },
        }
        pause(&mut self.delay, SETTLE, &mut self.ledger);
        let ghost mut tdo: Option<bool> = None;
        if let Some(cap) = capture {
            match sample(&mut self.tdo, &mut self.ledger) {
                Ok(level) => {
                    *cap = level;
                    proof {
                        tdo = Some(level);
                    }
                },
                Err(e) => {
                    proof {
                        assert(self.ledger.ops() =~= before + plan.take(6));
                    }
                    self.wire = Ghost(failed);
                    return Err(e);
                },
            }
        }
        pause(&mut self.delay, self.speed, &mut self.ledger);
        proof {
            assert(self.ledger.ops() =~= before + pulse_ops(tdi, tms, self.speed, tdo));
        }
        self.wire = Ghost(
            Wire { pulses: self.wire@.pulses.push(Pulse { tdi, tms, tdo }), faults: self.wire@.faults },
        );
        Ok(())
    }
}

} // verus!
