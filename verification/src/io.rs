//! What a port owes the engine.

use crate::error::Error;
use vstd::prelude::*;

verus! {

/// One completed clock pulse: the levels that were driven on the data-in and
/// mode-select lines, and the level sampled from data-out if a sample was
/// asked for.
pub struct Pulse {
    pub tdi: bool,
    pub tms: bool,
    pub tdo: Option<bool>,
}

/// The history of a port: the pulses it completed, oldest first, and the
/// number of pulses that were aborted by a failing line.
#[verifier::ext_equal]
pub struct Wire {
    pub pulses: Seq<Pulse>,
    pub faults: nat,
}

/// The pulses of one batch: pulse `i` drives `tdi[i]` and `tms[i]`, and
/// carries the sample `tdo[i]` where samples were asked for.
pub open spec fn batch(tdi: Seq<bool>, tms: Seq<bool>, tdo: Option<Seq<bool>>) -> Seq<Pulse> {
    Seq::new(
        tdi.len(),
        |i: int|
            Pulse {
                tdi: tdi[i],
                tms: tms[i],
                tdo: match tdo {
                    Some(s) => Some(s[i]),
                    None => None,
                },
            },
    )
}

/// A port to a chain: whatever can shift one bit at a time. The pin driver
/// is one; a simulated chain is another, and the engine cannot tell them
/// apart.
pub trait RawJtagIo {
    /// The history of the port. Every verified port gives this a body of
    /// its own: with the one below, the history that is always empty, no
    /// outcome of `shift_bit` meets its contract. The body is there for
    /// code that the verifier does not read, which cannot write a spec
    /// function and for which none is ever evaluated.
    open spec fn wire(&self) -> Wire {
        Wire { pulses: Seq::empty(), faults: 0 }
    }

    /// Shifts one bit: one clock pulse with `tdi` on data in and `tms` on
    /// mode select. Where `capture` is given, data out is sampled after the
    /// rising edge and the level is stored there. A line that fails aborts
    /// the pulse with `Error::Pin`; what it has done to the lines by then
    /// is not undone, and the pulse does not count as completed.
    fn shift_bit(&mut self, tdi: bool, tms: bool, capture: Option<&mut bool>) -> (r: Result<
        (),
        Error,
    >)
        ensures
            r is Ok ==> final(self).wire() == (Wire {
                pulses: old(self).wire().pulses.push(
                    Pulse {
                        tdi,
                        tms,
                        tdo: match capture {
                            Some(c) => Some(*final(c)),
                            None => None,
                        },
                    },
                ),
                faults: old(self).wire().faults,
            }),
            r is Err ==> r == Err::<(), Error>(Error::Pin) && final(self).wire() == (Wire {
                pulses: old(self).wire().pulses,
                faults: old(self).wire().faults + 1,
            }),
    ;

    /// Shifts `tdi.len()` pulses, one call of `shift_bit` for each index, and
    /// stops at the first that fails. Where samples are asked for, sample `i`
    /// is stored at index `i`, and the slots from the failing index on keep
    /// what they held. The three slices must be of one length.
    #[verifier::loop_isolation(false)]
    fn shift_bits(&mut self, tdi: &[bool], tms: &[bool], captures: Option<&mut [bool]>) -> (r:
        Result<(), Error>)
        requires
            tdi.len() == tms.len(),
            captures matches Some(c) ==> c.len() == tdi.len(),
        ensures
            captures matches Some(c) ==> final(c).len() == tdi.len(),
            r is Ok ==> final(self).wire() == (Wire {
                pulses: old(self).wire().pulses + batch(
                    tdi@,
                    tms@,
                    match captures {
                        Some(c) => Some(final(c)@),
                        None => None,
                    },
                ),
                faults: old(self).wire().faults,
            }),
            r is Err ==> r == Err::<(), Error>(Error::Pin) && final(self).wire().faults == old(
                self,
            ).wire().faults + 1 && ({
                let whole = batch(
                    tdi@,
                    tms@,
                    match captures {
                        Some(c) => Some(final(c)@),
                        None => None,
                    },
                );
                let k = final(self).wire().pulses.len() - old(self).wire().pulses.len();
                &&& 0 <= k < tdi.len()
                &&& final(self).wire().pulses == old(self).wire().pulses + whole.take(k)
                &&& captures matches Some(c) ==> forall|j: int|
                    k <= j < tdi.len() ==> #[trigger] final(c)@[j] == c@[j]
            }),
    {
        let n = tdi.len();
        let ghost start = self.wire();
        let mut i: usize = 0;
        match captures {
            Some(values) => {
                let ghost held = values@;
                while i < n
                    invariant
                        i <= n,
                        n == tdi.len(),
                        n == tms.len(),
                        n == values.len(),
                        forall|j: int| i <= j < n ==> values@[j] == held[j],
                        self.wire() == (Wire {
                            pulses: start.pulses + batch(tdi@, tms@, Some(values@)).take(i as int),
                            faults: start.faults,
                        }),
                    decreases n - i,
                {
                    let mut v = false;
                    let ghost before = values@;
                    match self.shift_bit(tdi[i], tms[i], Some(&mut v)) {
                        Ok(()) => {},
                        Err(e) => {
                            proof {
                                let whole = batch(tdi@, tms@, Some(values@));
                                assert(self.wire().pulses == start.pulses + whole.take(i as int));
                            }
                            return Err(e);
                        },
                    }
                    values[i] = v;
                    proof {
                        assert(batch(tdi@, tms@, Some(values@)).take(i + 1) =~= batch(
                            tdi@,
                            tms@,
                            Some(before),
                        ).take(i as int).push(Pulse { tdi: tdi[i as int], tms: tms[i as int], tdo: Some(v) }));
                        assert(start.pulses + batch(tdi@, tms@, Some(values@)).take(i + 1)
                            =~= (start.pulses + batch(tdi@, tms@, Some(before)).take(
                            i as int,
                        )).push(Pulse { tdi: tdi[i as int], tms: tms[i as int], tdo: Some(v) }));
                    }
                    i += 1;
                }
                proof {
                    assert(batch(tdi@, tms@, Some(values@)).take(n as int) =~= batch(
                        tdi@,
                        tms@,
                        Some(values@),
                    ));
                }
            },
            None => {
                while i < n
                    invariant
                        i <= n,
                        n == tdi.len(),
                        n == tms.len(),
                        self.wire() == (Wire {
                            pulses: start.pulses + batch(tdi@, tms@, None).take(i as int),
                            faults: start.faults,
                        }),
                    decreases n - i,
                {
                    match self.shift_bit(tdi[i], tms[i], None) {
                        Ok(()) => {},
                        Err(e) => {
                            proof {
                                let whole = batch(tdi@, tms@, None);
                                assert(self.wire().pulses == start.pulses + whole.take(i as int));
                            }
                            return Err(e);
                        },
                    }
                    proof {
                        assert(start.pulses + batch(tdi@, tms@, None).take(i + 1) =~= (start.pulses
                            + batch(tdi@, tms@, None).take(i as int)).push(
                            Pulse { tdi: tdi[i as int], tms: tms[i as int], tdo: None },
                        ));
                    }
                    i += 1;
                }
                proof {
                    assert(batch(tdi@, tms@, None).take(n as int) =~= batch(tdi@, tms@, None));
                }
            },
        }
        Ok(())
    }
}

} // verus!
