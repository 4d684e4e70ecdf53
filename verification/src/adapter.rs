//! The engine that manages one chain.

use crate::capture::CaptureBuffer;
use crate::chain::{TapChain, Topology};
use crate::codec::{bits_of_value, lemma_decode_encode, lemma_le_value_bound, value_bits};
use crate::error::Error;
use crate::io::{batch, Pulse, RawJtagIo, Wire};
use crate::plan::{
    access_plan, bring_up_cut_short, bring_up_plan, brought_up, cut_short, enter_plan, exit_plan,
    fill_plan, highs, leave_plan, lemma_bring_up_stage, lemma_carried_out_join,
    lemma_cut_short_extends, lemma_cut_short_from_take, lemma_cut_short_onto, lemma_flatten_push,
    lemma_joined, lemma_scan_carried_out, lemma_segment_drive, lemma_stage_cut_short,
    lemma_bring_up_recovers, lemma_words_carried_out, lemma_words_drive_next, lemma_words_plan_at,
    lemma_words_plan_len, no_blank, reset_plan, same_drive, scan_plan,
    scanned, segment, too_many_idcodes, topology_overrun, word_plan, words_drive, words_plan,
    NO_IDCODE,
};
use crate::scan::{overrun, overrun_by, recordable, stream, ScanStep, TapScan};
use vstd::arithmetic::power2::{lemma2_to64, lemma_pow2_strictly_increases, pow2};
use vstd::prelude::*;

verus! {

/// The most devices that bring-up records unless another limit is asked
/// for.
pub const DEFAULT_MAX_CHAIN: u16 = 32;

/// What the engine knows of the controllers' state. Only Idle and Shift are
/// told apart; IR and DR are not.
#[derive(Debug, Clone, Copy, PartialEq, Eq, Structural)]
pub enum TapState {
    /// Nothing is known: no reset has succeeded yet.
    Unknown,
    /// At rest, after a reset or a completed register access.
    Idle,
    /// In the middle of shifting a register.
    Shift,
}

/// The engine that manages one chain through one port. It owns the port,
/// the record of the chain and the bits sampled during the access in
/// progress.
pub struct JtagAdapter<J> {
    rawio: J,
    bits: CaptureBuffer,
    state: TapState,
    params: TapChain,
    max_chain: u16,
}

impl<J: RawJtagIo> JtagAdapter<J> {
    /// The history of the port.
    pub closed spec fn wire(&self) -> Wire {
        self.rawio.wire()
    }

    /// The state the controllers are taken to be in.
    pub closed spec fn tap_state(&self) -> TapState {
        self.state
    }

    /// The chain as recorded, with its selection.
    pub closed spec fn chain(&self) -> Topology {
        self.params@
    }

    /// The most devices that bring-up records.
    pub closed spec fn max_chain(&self) -> nat {
        self.max_chain as nat
    }

    /// The record of the chain is consistent and no sampled bit is left
    /// over from an earlier access.
    pub closed spec fn wf(&self) -> bool {
        &&& self.params.wf()
        &&& self.bits@.len() == 0
    }

    /// An engine over `jtag_io` that knows nothing of the chain yet and
    /// records up to `DEFAULT_MAX_CHAIN` devices.
    pub fn new(jtag_io: J) -> (adapter: Self)
        ensures
            adapter.wf(),
            adapter.wire() == jtag_io.wire(),
            adapter.tap_state() == TapState::Unknown,
            adapter.chain() == (Topology { lengths: Seq::empty(), selected: 0 }),
            adapter.max_chain() == DEFAULT_MAX_CHAIN,
    {
        Self::with_max_chain(jtag_io, DEFAULT_MAX_CHAIN)
    }

    /// An engine like that of `new`, which records up to `max_chain`
    /// devices.
    pub fn with_max_chain(jtag_io: J, max_chain: u16) -> (adapter: Self)
        ensures
            adapter.wf(),
            adapter.wire() == jtag_io.wire(),
            adapter.tap_state() == TapState::Unknown,
            adapter.chain() == (Topology { lengths: Seq::empty(), selected: 0 }),
            adapter.max_chain() == max_chain,
    {
        Self {
            rawio: jtag_io,
            state: TapState::Unknown,
            bits: CaptureBuffer::new(),
            params: TapChain::new(),
            max_chain,
        }
    }

    /// An engine over `jtag_io` for a chain that is known beforehand, as
    /// `chain` records it.
    pub fn with_chain(jtag_io: J, chain: TapChain) -> (adapter: Self)
        requires
            chain.wf(),
        ensures
            adapter.wf(),
            adapter.wire() == jtag_io.wire(),
            adapter.tap_state() == TapState::Unknown,
            adapter.chain() == chain@,
            adapter.max_chain() == DEFAULT_MAX_CHAIN,
    {
        Self {
            rawio: jtag_io,
            state: TapState::Unknown,
            bits: CaptureBuffer::new(),
            params: chain,
            max_chain: DEFAULT_MAX_CHAIN,
        }
    }

    /// What a completed reset leaves behind: the controllers at Idle, no
    /// fault more, and the pulses of the reset.
    pub open spec fn reset_done(self, from: Self) -> bool {
        &&& self.tap_state() == TapState::Idle
        &&& self.wire().faults == from.wire().faults
        &&& self.wire().pulses == from.wire().pulses + reset_plan()
    }

    /// Resets every controller of the chain and takes it to Idle, whatever
    /// state it was in.
    pub fn reset_idle(&mut self) -> (r: Result<(), Error>)
        ensures
            final(self).chain() == old(self).chain(),
            final(self).max_chain() == old(self).max_chain(),
            old(self).wf() ==> final(self).wf(),
            match r {
                Ok(()) => final(self).reset_done(*old(self)),
                Err(e) => {
                    &&& e == Error::Pin
                    &&& final(self).tap_state() == old(self).tap_state()
                    &&& final(self).wire().faults == old(self).wire().faults + 1
                    &&& cut_short(old(self).wire().pulses, final(self).wire().pulses, reset_plan())
                },
            },
    {
        let v = [true, true, true, true, true];
        let ghost before = self.rawio.wire().pulses;
        let ghost five = batch(v@, v@, None);
        // Five pulses with mode select high reset the controllers.
        match self.rawio.shift_bits(&v, &v, None) {
            Ok(()) => {},
            Err(e) => {
                proof {
                    let k = self.rawio.wire().pulses.len() - before.len();
                    lemma_cut_short_from_take(before, five, k);
                    assert(reset_plan() =~= five + seq![Pulse { tdi: true, tms: false, tdo: None }]);
                    lemma_cut_short_extends(
                        before,
                        self.rawio.wire().pulses,
                        five,
                        seq![Pulse { tdi: true, tms: false, tdo: None }],
                    );
                }
                return Err(e);
            },
        }
        // One more with mode select low takes them to Idle.
        match self.rawio.shift_bit(true, false, None) {
            Ok(()) => {},
            Err(e) => {
                proof {
                    assert(five =~= reset_plan().take(5));
                    lemma_cut_short_from_take(before, reset_plan(), 5);
                }
                return Err(e);
            },
        }
        proof {
            assert(self.rawio.wire().pulses =~= before + reset_plan());
        }
        self.state = TapState::Idle;
        Ok(())
    }

    /// From Idle into Shift, of the instruction register where `ir` holds
    /// and of the data register otherwise.
    fn idle_shift(&mut self, ir: bool) -> (r: Result<(), Error>)
        ensures
            final(self).params == old(self).params,
            final(self).max_chain == old(self).max_chain,
            final(self).bits == old(self).bits,
            match r {
                Ok(()) => {
                    &&& final(self).state == TapState::Shift
                    &&& final(self).rawio.wire().faults == old(self).rawio.wire().faults
                    &&& final(self).rawio.wire().pulses == old(self).rawio.wire().pulses
                        + enter_plan(ir)
                },
                Err(e) => {
                    &&& e == Error::Pin
                    &&& final(self).state == old(self).state
                    &&& final(self).rawio.wire().faults == old(self).rawio.wire().faults + 1
                    &&& cut_short(
                        old(self).rawio.wire().pulses,
                        final(self).rawio.wire().pulses,
                        enter_plan(ir),
                    )
                },
            },
    {
        let ghost before = self.rawio.wire().pulses;
        let ghost select = Pulse { tdi: true, tms: true, tdo: None };
        if ir {
            match self.rawio.shift_bit(true, true, None) {
                Ok(()) => {},
                Err(e) => {
                    proof {
                        assert(before =~= before + enter_plan(ir).take(0));
                        lemma_cut_short_from_take(before, enter_plan(ir), 0);
                    }
                    return Err(e);
                },
            }
        }
        let tdi = [true, true, true];
        let tms = [true, false, false];
        let ghost mid = self.rawio.wire().pulses;
        let ghost three = batch(tdi@, tms@, None);
        match self.rawio.shift_bits(&tdi, &tms, None) {
            Ok(()) => {},
            Err(e) => {
                proof {
                    let k = self.rawio.wire().pulses.len() - mid.len();
                    if ir {
                        assert(enter_plan(ir).take(k + 1) =~= seq![select] + three.take(k));
                        assert(self.rawio.wire().pulses =~= before + enter_plan(ir).take(k + 1));
                        lemma_cut_short_from_take(before, enter_plan(ir), k + 1);
                    } else {
                        assert(enter_plan(ir) =~= three);
                        lemma_cut_short_from_take(before, enter_plan(ir), k);
                    }
                }
                return Err(e);
            },
        }
        proof {
            assert(self.rawio.wire().pulses =~= before + enter_plan(ir));
        }
        self.state = TapState::Shift;
        Ok(())
    }

    /// From Exit1 back to Idle.
    fn exit1_idle(&mut self) -> (r: Result<(), Error>)
        ensures
            final(self).params == old(self).params,
            final(self).max_chain == old(self).max_chain,
            final(self).bits == old(self).bits,
            match r {
                Ok(()) => {
                    &&& final(self).state == TapState::Idle
                    &&& final(self).rawio.wire().faults == old(self).rawio.wire().faults
                    &&& final(self).rawio.wire().pulses == old(self).rawio.wire().pulses
                        + exit_plan()
                },
                Err(e) => {
                    &&& e == Error::Pin
                    &&& final(self).state == old(self).state
                    &&& final(self).rawio.wire().faults == old(self).rawio.wire().faults + 1
                    &&& cut_short(
                        old(self).rawio.wire().pulses,
                        final(self).rawio.wire().pulses,
                        exit_plan(),
                    )
                },
            },
    {
        let tdi = [true, true];
        let tms = [true, false];
        let ghost before = self.rawio.wire().pulses;
        match self.rawio.shift_bits(&tdi, &tms, None) {
            Ok(()) => {},
            Err(e) => {
                proof {
                    let k = self.rawio.wire().pulses.len() - before.len();
                    assert(exit_plan() =~= batch(tdi@, tms@, None));
                    lemma_cut_short_from_take(before, exit_plan(), k);
                }
                return Err(e);
            },
        }
        proof {
            assert(self.rawio.wire().pulses =~= before + exit_plan());
        }
        self.state = TapState::Idle;
        Ok(())
    }

    /// Shifts the bits of `tdi` while in Shift. Mode select is low on every
    /// bit but the last, and high on the last where `should_end` holds, so
    /// that the last bit leaves Shift. Where `captures` holds, data out is
    /// sampled on every bit and the samples are appended to the capture
    /// buffer in the order of shifting.
    fn sequence_bits(&mut self, tdi: &[bool], should_end: bool, captures: bool) -> (r: Result<
        (),
        Error,
    >)
        requires
            captures ==> old(self).bits@.len() + tdi.len() <= 64,
        ensures
            final(self).params == old(self).params,
            final(self).max_chain == old(self).max_chain,
            final(self).state == old(self).state,
            !captures ==> final(self).bits == old(self).bits,
            final(self).bits@.len() <= old(self).bits@.len() + tdi.len(),
            final(self).bits@.take(old(self).bits@.len() as int) == old(self).bits@,
            match r {
                Ok(()) => {
                    &&& final(self).rawio.wire().faults == old(self).rawio.wire().faults
                    &&& captures ==> final(self).bits@.len() == old(self).bits@.len() + tdi.len()
                    &&& final(self).rawio.wire().pulses == old(self).rawio.wire().pulses + segment(
                        tdi@,
                        should_end,
                        if captures {
                            Some(final(self).bits@.skip(old(self).bits@.len() as int))
                        } else {
                            None
                        },
                    )
                },
                Err(e) => {
                    &&& e == Error::Pin
                    &&& final(self).rawio.wire().faults == old(self).rawio.wire().faults + 1
                    &&& cut_short(
                        old(self).rawio.wire().pulses,
                        final(self).rawio.wire().pulses,
                        segment(
                            tdi@,
                            should_end,
                            if captures {
                                Some(tdi@)
                            } else {
                                None
                            },
                        ),
                    )
                },
            },
    {
        let n = tdi.len();
        let ghost before = self.rawio.wire().pulses;
        let ghost kept = self.bits@;
        let mut i: usize = 0;
        proof {
            assert(before =~= before + segment(tdi@, should_end, None).take(0));
            assert(before =~= before + segment(tdi@, should_end, Some(self.bits@.skip(kept.len() as int))).take(0));
            assert(self.bits@.take(kept.len() as int) =~= kept);
        }
        while i < n
            invariant
                i <= n,
                n == tdi.len(),
                captures ==> kept.len() + n <= 64,
                self.params == old(self).params,
                self.max_chain == old(self).max_chain,
                self.state == old(self).state,
                !captures ==> self.bits == old(self).bits,
                captures ==> self.bits@.len() == kept.len() + i,
                kept == old(self).bits@,
                before == old(self).rawio.wire().pulses,
                self.bits@.take(kept.len() as int) == kept,
                self.rawio.wire().faults == old(self).rawio.wire().faults,
                self.rawio.wire().pulses == before + segment(
                    tdi@,
                    should_end,
                    if captures {
                        Some(self.bits@.skip(kept.len() as int))
                    } else {
                        None
                    },
                ).take(i as int),
            decreases n - i,
        {
            let tms = should_end && i == n - 1;
            let ghost sampled = self.bits@.skip(kept.len() as int);
            if captures {
                let mut value = false;
                match self.rawio.shift_bit(tdi[i], tms, Some(&mut value)) {
                    Ok(()) => {},
                    Err(e) => {
                        proof {
                            let plan = segment(tdi@, should_end, Some(tdi@));
                            let done = segment(tdi@, should_end, Some(sampled)).take(i as int);
                            assert(self.rawio.wire().pulses.take(before.len() as int) =~= before);
                            assert forall|j: int| 0 <= j < i implies same_drive(
                                self.rawio.wire().pulses[before.len() + j],
                                #[trigger] plan[j],
                            ) by {
                                assert(self.rawio.wire().pulses[before.len() + j] == done[j]);
                            }
                        }
                        return Err(e);
                    },
                }
                self.bits.push(value);
                proof {
                    let grown = self.bits@.skip(kept.len() as int);
                    assert(grown =~= sampled.push(value));
                    assert(self.bits@.take(kept.len() as int) =~= kept);
                    assert(self.rawio.wire().pulses =~= before + segment(
                        tdi@,
                        should_end,
                        Some(grown),
                    ).take(i + 1));
                }
            } else {
                match self.rawio.shift_bit(tdi[i], tms, None) {
                    Ok(()) => {},
                    Err(e) => {
                        proof {
                            lemma_cut_short_from_take(
                                before,
                                segment(tdi@, should_end, None),
                                i as int,
                            );
                        }
                        return Err(e);
                    },
                }
                proof {
                    assert(self.rawio.wire().pulses =~= before + segment(
                        tdi@,
                        should_end,
                        None,
                    ).take(i + 1));
                }
            }
            i += 1;
        }
        proof {
            let caps = if captures {
                Some(self.bits@.skip(kept.len() as int))
            } else {
                None
            };
            assert(segment(tdi@, should_end, caps).take(n as int) =~= segment(
                tdi@,
                should_end,
                caps,
            ));
        }
        Ok(())
    }

    /// Takes every sampled bit out of the capture buffer and leaves it
    /// empty.
    fn read_capture_bits(&mut self) -> (r: Result<CaptureBuffer, Error>)
        ensures
            final(self).params == old(self).params,
            final(self).max_chain == old(self).max_chain,
            final(self).state == old(self).state,
            final(self).rawio == old(self).rawio,
            final(self).bits@ == Seq::<bool>::empty(),
            r matches Ok(taken) && taken@ == old(self).bits@,
    {
        Ok(self.bits.take())
    }

    /// Selects the device at `index`, counted from 0, for the accesses that
    /// follow. An index past the last device of the chain is refused and
    /// changes nothing.
    pub fn select_tap(&mut self, index: usize) -> (r: Result<(), Error>)
        requires
            old(self).wf(),
        ensures
            final(self).wf(),
            final(self).wire() == old(self).wire(),
            final(self).tap_state() == old(self).tap_state(),
            final(self).max_chain() == old(self).max_chain(),
            index < old(self).chain().lengths.len() ==> r is Ok && final(self).chain() == (Topology {
                lengths: old(self).chain().lengths,
                selected: index as nat,
            }),
            index >= old(self).chain().lengths.len() ==> r == Err::<(), Error>(Error::TapNoValid)
                && final(self).chain() == old(self).chain(),
    {
        self.params.select(index)
    }

    /// Shifts the filler bits that stand for the devices on one side of the
    /// selected one: before the payload where `is_pre` holds, after it
    /// otherwise. Filler after the payload leaves Shift on its last bit.
    /// Where no filler is needed, nothing is shifted.
    fn shift_fill(&mut self, is_pre: bool, is_ir: bool) -> (r: Result<(), Error>)
        requires
            old(self).params.wf(),
        ensures
            final(self).params == old(self).params,
            final(self).max_chain == old(self).max_chain,
            final(self).state == old(self).state,
            final(self).bits == old(self).bits,
            ({
                let n = if is_pre {
                    old(self).params@.before(is_ir)
                } else {
                    old(self).params@.after(is_ir)
                };
                match r {
                    Ok(()) => {
                        &&& final(self).rawio.wire().faults == old(self).rawio.wire().faults
                        &&& final(self).rawio.wire().pulses == old(self).rawio.wire().pulses
                            + fill_plan(n, !is_pre)
                    },
                    Err(e) => {
                        &&& e == Error::Pin
                        &&& final(self).rawio.wire().faults == old(self).rawio.wire().faults + 1
                        &&& cut_short(
                            old(self).rawio.wire().pulses,
                            final(self).rawio.wire().pulses,
                            fill_plan(n, !is_pre),
                        )
                    },
                }
            }),
    {
        let nums = self.params.fill(is_pre, is_ir);
        if nums != 0 {
            let filler = all_high(nums);
            self.sequence_bits(filler.as_slice(), !is_pre, false)
        } else {
            proof {
                assert(self.rawio.wire().pulses =~= self.rawio.wire().pulses + fill_plan(
                    0,
                    !is_pre,
                ));
            }
            Ok(())
        }
    }

    /// The steps of one register access, from Idle to Idle. The samples
    /// taken while the payload is shifted are left in the capture buffer.
    fn access_steps(&mut self, ir: bool, payload: &[bool]) -> (r: Result<(), Error>)
        requires
            old(self).params.wf(),
            old(self).bits@.len() == 0,
            1 <= payload.len() <= 64,
        ensures
            final(self).params == old(self).params,
            final(self).max_chain == old(self).max_chain,
            final(self).bits@.len() <= payload.len(),
            ({
                let before = old(self).params@.before(ir);
                let after = old(self).params@.after(ir);
                match r {
                    Ok(()) => {
                        &&& final(self).state == TapState::Idle
                        &&& final(self).bits@.len() == payload.len()
                        &&& final(self).rawio.wire().faults == old(self).rawio.wire().faults
                        &&& final(self).rawio.wire().pulses == old(self).rawio.wire().pulses
                            + access_plan(ir, before, after, payload@, final(self).bits@)
                    },
                    Err(e) => {
                        &&& e == Error::Pin
                        &&& final(self).state == if final(self).rawio.wire().pulses.len() - old(
                            self,
                        ).rawio.wire().pulses.len() >= enter_plan(ir).len() {
                            TapState::Shift
                        } else {
                            old(self).state
                        }
                        &&& final(self).rawio.wire().faults == old(self).rawio.wire().faults + 1
                        &&& cut_short(
                            old(self).rawio.wire().pulses,
                            final(self).rawio.wire().pulses,
                            access_plan(ir, before, after, payload@, payload@),
                        )
                    },
                }
            }),
    {
        let ghost start = self.rawio.wire().pulses;
        let ghost before = self.params@.before(ir);
        let ghost after = self.params@.after(ir);
        let ghost enter = enter_plan(ir);
        let ghost lead = fill_plan(before, false);
        let ghost body = segment(payload@, after == 0, Some(payload@));
        let ghost trail = fill_plan(after, true);
        let ghost whole = access_plan(ir, before, after, payload@, payload@);
        proof {
            assert(whole =~= enter + lead + body + trail + exit_plan());
        }
        // Into Shift.
        match self.idle_shift(ir) {
            Ok(()) => {},
            Err(e) => {
                proof {
                    assert(start =~= start + Seq::<Pulse>::empty());
                    lemma_stage_cut_short(
                        start,
                        Seq::empty(),
                        self.rawio.wire().pulses,
                        Seq::empty(),
                        enter,
                        lead + body + trail + exit_plan(),
                    );
                    assert(Seq::<Pulse>::empty() + enter + (lead + body + trail + exit_plan())
                        =~= whole);
                }
                return Err(e);
            },
        }
        // Filler for the devices before the selected one.
        match self.shift_fill(true, ir) {
            Ok(()) => {},
            Err(e) => {
                proof {
                    lemma_stage_cut_short(
                        start,
                        enter,
                        self.rawio.wire().pulses,
                        enter,
                        lead,
                        body + trail + exit_plan(),
                    );
                    assert(enter + lead + (body + trail + exit_plan()) =~= whole);
                }
                return Err(e);
            },
        }
        // The payload leaves Shift on its last bit only where no filler
        // follows it.
        let terminal = self.params.fill(false, ir) == 0;
        match self.sequence_bits(payload, terminal, true) {
            Ok(()) => {},
            Err(e) => {
                proof {
                    assert(start + enter + lead =~= start + (enter + lead));
                    lemma_stage_cut_short(
                        start,
                        enter + lead,
                        self.rawio.wire().pulses,
                        enter + lead,
                        body,
                        trail + exit_plan(),
                    );
                    assert(enter + lead + body + (trail + exit_plan()) =~= whole);
                }
                return Err(e);
            },
        }
        let ghost sampled = self.bits@;
        let ghost actual = segment(payload@, after == 0, Some(sampled));
        proof {
            assert(self.bits@.skip(0) =~= sampled);
            lemma_segment_drive(payload@, after == 0, sampled, payload@);
            lemma_carried_out_join(enter + lead, enter + lead, actual, body);
        }
        // Filler for the devices after the selected one.
        match self.shift_fill(false, ir) {
            Ok(()) => {},
            Err(e) => {
                proof {
                    assert(start + enter + lead + actual =~= start + (enter + lead + actual));
                    lemma_stage_cut_short(
                        start,
                        enter + lead + actual,
                        self.rawio.wire().pulses,
                        enter + lead + body,
                        trail,
                        exit_plan(),
                    );
                }
                return Err(e);
            },
        }
        // Back to Idle.
        match self.exit1_idle() {
            Ok(()) => {},
            Err(e) => {
                proof {
                    lemma_carried_out_join(enter + lead + actual, enter + lead + body, trail, trail);
                    assert(start + enter + lead + actual + trail =~= start + (enter + lead + actual
                        + trail));
                    lemma_stage_cut_short(
                        start,
                        enter + lead + actual + trail,
                        self.rawio.wire().pulses,
                        enter + lead + body + trail,
                        exit_plan(),
                        Seq::empty(),
                    );
                    assert(enter + lead + body + trail + exit_plan() + Seq::<Pulse>::empty()
                        =~= whole);
                }
                return Err(e);
            },
        }
        proof {
            assert(self.rawio.wire().pulses =~= start + access_plan(
                ir,
                before,
                after,
                payload@,
                sampled,
            ));
        }
        Ok(())
    }

    /// What a completed access leaves behind: the controllers at Idle, no
    /// fault more, and the pulses of the access, in which `value` went in
    /// and `read` came out, `len` bits each.
    pub open spec fn accessed(self, from: Self, ir: bool, value: nat, len: nat, read: nat) -> bool {
        &&& read < pow2(len)
        &&& self.tap_state() == TapState::Idle
        &&& self.wire().faults == from.wire().faults
        &&& self.wire().pulses == from.wire().pulses + access_plan(
            ir,
            from.chain().before(ir),
            from.chain().after(ir),
            value_bits(value, len),
            value_bits(read, len),
        )
    }

    /// What an access that a line failed leaves behind: one fault more, and
    /// the pulses of the access up to the one that failed. The controllers
    /// are taken to be in Shift once the pulses that lead there are through,
    /// and where they were before that.
    pub open spec fn access_failed(self, from: Self, ir: bool, value: nat, len: nat) -> bool {
        &&& self.tap_state() == if self.wire().pulses.len() - from.wire().pulses.len()
            >= enter_plan(ir).len() {
            TapState::Shift
        } else {
            from.tap_state()
        }
        &&& self.wire().faults == from.wire().faults + 1
        &&& cut_short(
            from.wire().pulses,
            self.wire().pulses,
            access_plan(
                ir,
                from.chain().before(ir),
                from.chain().after(ir),
                value_bits(value, len),
                value_bits(value, len),
            ),
        )
    }

    /// Shifts the lowest `len` bits of `value` into the selected device's
    /// register and hands out what the register held before.
    fn access(&mut self, ir: bool, value: u64, len: usize) -> (r: Result<u64, Error>)
        requires
            old(self).wf(),
            1 <= len <= 64,
        ensures
            final(self).wf(),
            final(self).chain() == old(self).chain(),
            final(self).max_chain() == old(self).max_chain(),
            match r {
                Ok(read) => final(self).accessed(
                    *old(self),
                    ir,
                    value as nat,
                    len as nat,
                    read as nat,
                ),
                Err(e) => e == Error::Pin && final(self).access_failed(
                    *old(self),
                    ir,
                    value as nat,
                    len as nat,
                ),
            },
    {
        let payload = bits_of_value(value, len);
        let outcome = self.access_steps(ir, payload.as_slice());
        // Whatever happened, the samples leave the buffer here.
        let raw = match self.read_capture_bits() {
            Ok(raw) => raw,
            Err(e) => {
                return Err(e);
            },
        };
        match outcome {
            Ok(()) => {
                let read = raw.load_le();
                proof {
                    lemma_le_value_bound(raw@);
                    lemma_decode_encode(raw@);
                }
                Ok(read)
            },
            Err(e) => Err(e),
        }
    }

    /// Shifts the lowest `len` bits of `value` into the instruction register
    /// of the selected device, least significant bit first, with the filler
    /// that the other devices of the chain need, and returns what the
    /// register held before.
    pub fn shift_ir(&mut self, value: u8, len: usize) -> (r: Result<u8, Error>)
        requires
            old(self).wf(),
            1 <= len <= 8,
        ensures
            final(self).wf(),
            final(self).chain() == old(self).chain(),
            final(self).max_chain() == old(self).max_chain(),
            match r {
                Ok(read) => final(self).accessed(
                    *old(self),
                    true,
                    value as nat,
                    len as nat,
                    read as nat,
                ),
                Err(e) => e == Error::Pin && final(self).access_failed(
                    *old(self),
                    true,
                    value as nat,
                    len as nat,
                ),
            },
    {
        match self.access(true, value as u64, len) {
            Ok(read) => {
                proof {
                    lemma2_to64();
                    if len < 8 {
                        lemma_pow2_strictly_increases(len as nat, 8);
                    }
                }
                Ok(read as u8)
            },
            Err(e) => Err(e),
        }
    }

    /// Shifts the lowest `len` bits of `value` into the data register of the
    /// selected device, least significant bit first, with one filler bit
    /// for each other device of the chain, and returns what the register
    /// held before.
    pub fn shift_dr(&mut self, value: u64, len: usize) -> (r: Result<u64, Error>)
        requires
            old(self).wf(),
            1 <= len <= 64,
        ensures
            final(self).wf(),
            final(self).chain() == old(self).chain(),
            final(self).max_chain() == old(self).max_chain(),
            match r {
                Ok(read) => final(self).accessed(
                    *old(self),
                    false,
                    value as nat,
                    len as nat,
                    read as nat,
                ),
                Err(e) => e == Error::Pin && final(self).access_failed(
                    *old(self),
                    false,
                    value as nat,
                    len as nat,
                ),
            },
    {
        self.access(false, value, len)
    }

    /// Reads the next 32 bits of the data registers as one word, least
    /// significant bit first. A word of 32 high bits means that no
    /// identification code stands at this position.
    fn scan_idcode(&mut self) -> (r: Result<u32, Error>)
        requires
            old(self).bits@.len() == 0,
        ensures
            final(self).params == old(self).params,
            final(self).max_chain == old(self).max_chain,
            final(self).state == old(self).state,
            final(self).bits@.len() == 0,
            match r {
                Ok(word) => {
                    &&& word != NO_IDCODE
                    &&& final(self).rawio.wire().faults == old(self).rawio.wire().faults
                    &&& final(self).rawio.wire().pulses == old(self).rawio.wire().pulses
                        + word_plan(word)
                },
                Err(e) => if e == Error::IdCodeNotFound {
                    &&& final(self).rawio.wire().faults == old(self).rawio.wire().faults
                    &&& final(self).rawio.wire().pulses == old(self).rawio.wire().pulses
                        + word_plan(NO_IDCODE)
                } else {
                    &&& e == Error::Pin
                    &&& final(self).rawio.wire().faults == old(self).rawio.wire().faults + 1
                    &&& cut_short(
                        old(self).rawio.wire().pulses,
                        final(self).rawio.wire().pulses,
                        word_plan(NO_IDCODE),
                    )
                },
            },
    {
        let ones = all_high(32);
        let outcome = self.sequence_bits(ones.as_slice(), false, true);
        let raw = match self.read_capture_bits() {
            Ok(raw) => raw,
            Err(e) => {
                return Err(e);
            },
        };
        match outcome {
            Ok(()) => {
                let value = raw.load_le();
                proof {
                    lemma_le_value_bound(raw@);
                    lemma_decode_encode(raw@);
                    lemma2_to64();
                    assert(raw@.skip(0) =~= raw@);
                }
                let word = value as u32;
                if word != NO_IDCODE {
                    Ok(word)
                } else {
                    Err(Error::IdCodeNotFound)
                }
            },
            Err(e) => {
                proof {
                    lemma_segment_drive(
                        highs(32),
                        false,
                        highs(32),
                        value_bits(NO_IDCODE as nat, 32),
                    );
                    lemma_cut_short_onto(
                        old(self).rawio.wire().pulses,
                        self.rawio.wire().pulses,
                        segment(highs(32), false, Some(highs(32))),
                        word_plan(NO_IDCODE),
                    );
                }
                Err(e)
            },
        }
    }

    /// Finds out how many devices the chain has and how long the
    /// instruction register of each is, by shifting high bits through the
    /// instruction registers and watching what comes out. The chain found
    /// replaces the record. The selection stays as it was where the chain
    /// found has a device at that index, and goes to the first device
    /// otherwise. This goes by
    /// the habit of devices to show a low bit behind the first bit of their
    /// instruction register after a reset, which the protocol does not
    /// promise of every device.
    fn scan_tap(&mut self) -> (r: Result<(), Error>)
        ensures
            final(self).max_chain == old(self).max_chain,
            final(self).state == old(self).state,
            final(self).bits == old(self).bits,
            match r {
                Ok(()) => {
                    &&& final(self).params.wf()
                    &&& final(self).params@.selected == if old(self).params@.selected
                        < final(self).params@.lengths.len() {
                        old(self).params@.selected
                    } else {
                        0
                    }
                    &&& final(self).params@.lengths.len() <= old(self).max_chain
                    &&& final(self).rawio.wire().faults == old(self).rawio.wire().faults
                    &&& scanned(
                        old(self).rawio.wire().pulses,
                        final(self).rawio.wire().pulses,
                        final(self).params@.lengths,
                    )
                },
                Err(e) => {
                    &&& final(self).params == old(self).params
                    &&& if e == Error::State {
                        &&& final(self).rawio.wire().faults == old(self).rawio.wire().faults
                        &&& exists|sampled: Seq<bool>|
                            overrun(sampled, old(self).max_chain as nat)
                                && final(self).rawio.wire().pulses == old(self).rawio.wire().pulses
                                + #[trigger] scan_plan(sampled)
                    } else {
                        &&& e == Error::Pin
                        &&& final(self).rawio.wire().faults == old(self).rawio.wire().faults + 1
                        &&& exists|bits: nat|
                            cut_short(
                                old(self).rawio.wire().pulses,
                                final(self).rawio.wire().pulses,
                                scan_plan(#[trigger] highs(bits)),
                            )
                    }
                },
            },
    {
        let ghost before = self.rawio.wire().pulses;
        let mut first = false;
        match self.rawio.shift_bit(true, false, Some(&mut first)) {
            Ok(()) => {},
            Err(e) => {
                proof {
                    assert(before =~= before + scan_plan(highs(1)).take(0));
                    lemma_cut_short_from_take(before, scan_plan(highs(1)), 0);
                }
                return Err(e);
            },
        }
        let mut scan = TapScan::begin(first, self.max_chain);
        let mut more = true;
        proof {
            assert(self.rawio.wire().pulses =~= before + scan_plan(seq![first]));
            scan.lemma_wf();
        }
        while more
            invariant
                scan.wf(),
                scan.first() == first,
                scan.limit() == self.max_chain,
                self.max_chain == old(self).max_chain,
                self.state == old(self).state,
                self.bits == old(self).bits,
                self.params == old(self).params,
                before == old(self).rawio.wire().pulses,
                self.rawio.wire().faults == old(self).rawio.wire().faults,
                more ==> self.rawio.wire().pulses == before + scan_plan(scan.seen()),
                !more ==> self.rawio.wire().pulses == before + scan_plan(
                    stream(first, scan.found()) + seq![true, true],
                ),
                scan.budget() >= 0,
            decreases
                    (if more {
                        scan.budget() + 1
                    } else {
                        0
                    }),
        {
            let mut bit = false;
            let ghost seen = scan.seen();
            match self.rawio.shift_bit(true, false, Some(&mut bit)) {
                Ok(()) => {},
                Err(e) => {
                    proof {
                        let more = seen.push(true);
                        assert(scan_plan(seen) =~= scan_plan(more).take(seen.len() as int));
                        lemma_cut_short_from_take(before, scan_plan(more), seen.len() as int);
                        lemma_scan_carried_out(more);
                        lemma_cut_short_onto(
                            before,
                            self.rawio.wire().pulses,
                            scan_plan(more),
                            scan_plan(highs(more.len())),
                        );
                    }
                    return Err(e);
                },
            }
            proof {
                assert(self.rawio.wire().pulses =~= before + scan_plan(seen.push(bit)));
                scan.lemma_wf();
            }
            let ghost found = scan.found();
            let ghost run = scan.run();
            match scan.observe(bit) {
                ScanStep::Continue => {
                    proof {
                        scan.lemma_wf();
                    }
                },
                ScanStep::Complete => {
                    more = false;
                },
                ScanStep::Exceeded => {
                    proof {
                        let sampled = seen.push(bit);
                        assert(sampled =~= seen + seq![bit]);
                        assert(overrun_by(sampled, self.max_chain as nat, first, found, run));
                    }
                    return Err(Error::State);
                },
            }
        }
        proof {
            scan.lemma_wf();
        }
        let taps = scan.finish();
        match TapChain::from_lengths(taps) {
            Some(mut chain) => {
                // The selection stays where the chain still has a device
                // for it; the filler counts are worked out anew.
                let kept = self.params.selected();
                if kept < chain.len() {
                    match chain.select(kept) {
                        Ok(()) => {},
                        Err(_) => {},
                    }
                }
                self.params = chain;
                Ok(())
            },
            None => {
                proof {
                    assert(false);
                }
                Err(Error::State)
            },
        }
    }

    /// From the middle of Shift back to Idle: one pulse that leaves Shift,
    /// then the way from Exit1 to Idle.
    fn leave_shift(&mut self) -> (r: Result<(), Error>)
        ensures
            final(self).params == old(self).params,
            final(self).max_chain == old(self).max_chain,
            final(self).bits == old(self).bits,
            match r {
                Ok(()) => {
                    &&& final(self).state == TapState::Idle
                    &&& final(self).rawio.wire().faults == old(self).rawio.wire().faults
                    &&& final(self).rawio.wire().pulses == old(self).rawio.wire().pulses
                        + leave_plan()
                },
                Err(e) => {
                    &&& e == Error::Pin
                    &&& final(self).rawio.wire().faults == old(self).rawio.wire().faults + 1
                    &&& cut_short(
                        old(self).rawio.wire().pulses,
                        final(self).rawio.wire().pulses,
                        leave_plan(),
                    )
                },
            },
    {
        let ghost before = self.rawio.wire().pulses;
        let ghost out = seq![Pulse { tdi: true, tms: true, tdo: None }];
        match self.rawio.shift_bit(true, true, None) {
            Ok(()) => {},
            Err(e) => {
                proof {
                    assert(before =~= before + leave_plan().take(0));
                    lemma_cut_short_from_take(before, leave_plan(), 0);
                }
                return Err(e);
            },
        }
        match self.exit1_idle() {
            Ok(()) => {},
            Err(e) => {
                proof {
                    assert(before.push(Pulse { tdi: true, tms: true, tdo: None }) =~= before + out);
                    lemma_stage_cut_short(
                        before,
                        out,
                        self.rawio.wire().pulses,
                        out,
                        exit_plan(),
                        Seq::empty(),
                    );
                    assert(out + exit_plan() + Seq::<Pulse>::empty() =~= leave_plan());
                }
                return Err(e);
            },
        }
        proof {
            assert(self.rawio.wire().pulses =~= before + leave_plan());
        }
        Ok(())
    }

    /// Reads identification codes out of the data registers, one word after
    /// the other, until a word shows that none stands at its position.
    fn scan_idcodes(&mut self) -> (r: Result<Vec<u32>, Error>)
        requires
            old(self).bits@.len() == 0,
        ensures
            final(self).params == old(self).params,
            final(self).max_chain == old(self).max_chain,
            final(self).state == old(self).state,
            final(self).bits@.len() == 0,
            match r {
                Ok(ids) => {
                    &&& ids.len() <= old(self).max_chain
                    &&& no_blank(ids@)
                    &&& final(self).rawio.wire().faults == old(self).rawio.wire().faults
                    &&& final(self).rawio.wire().pulses == old(self).rawio.wire().pulses
                        + words_plan(ids@) + word_plan(NO_IDCODE)
                },
                Err(e) => if e == Error::State {
                    &&& final(self).rawio.wire().faults == old(self).rawio.wire().faults
                    &&& exists|ids: Seq<u32>|
                        ids.len() == old(self).max_chain + 1 && no_blank(ids)
                            && final(self).rawio.wire().pulses == old(self).rawio.wire().pulses
                            + #[trigger] words_plan(ids)
                } else {
                    &&& e == Error::Pin
                    &&& final(self).rawio.wire().faults == old(self).rawio.wire().faults + 1
                    &&& exists|words: nat|
                        cut_short(
                            old(self).rawio.wire().pulses,
                            final(self).rawio.wire().pulses,
                            #[trigger] words_drive(words),
                        )
                },
            },
    {
        let ghost head = self.rawio.wire().pulses;
        let mut idcodes: Vec<u32> = Vec::new();
        let mut more = true;
        proof {
            assert(head =~= head + words_plan(idcodes@));
        }
        while more
            invariant
                self.params == old(self).params,
                self.max_chain == old(self).max_chain,
                self.state == old(self).state,
                self.bits@.len() == 0,
                self.rawio.wire().faults == old(self).rawio.wire().faults,
                head == old(self).rawio.wire().pulses,
                idcodes.len() <= self.max_chain,
                no_blank(idcodes@),
                more ==> self.rawio.wire().pulses == head + words_plan(idcodes@),
                !more ==> self.rawio.wire().pulses == head + words_plan(idcodes@) + word_plan(
                    NO_IDCODE,
                ),
            decreases
                    (if more {
                        self.max_chain - idcodes.len() + 1
                    } else {
                        0
                    }),
        {
            let ghost so_far = idcodes@;
            let ghost mid = self.rawio.wire().pulses;
            match self.scan_idcode() {
                Ok(idcode) => {
                    proof {
                        let ids = so_far.push(idcode);
                        assert(ids.drop_last() =~= so_far);
                        assert(no_blank(ids));
                        assert(self.rawio.wire().pulses =~= head + words_plan(ids));
                    }
                    if idcodes.len() >= self.max_chain as usize {
                        return Err(Error::State);
                    }
                    idcodes.push(idcode);
                },
                Err(Error::IdCodeNotFound) => {
                    more = false;
                },
                Err(e) => {
                    proof {
                        let blank = seq![NO_IDCODE];
                        lemma_words_carried_out(so_far);
                        lemma_words_carried_out(blank);
                        assert(words_plan(blank) =~= word_plan(NO_IDCODE)) by {
                            assert(words_plan(blank.drop_last()) =~= Seq::<Pulse>::empty());
                        }
                        lemma_cut_short_onto(
                            mid,
                            self.rawio.wire().pulses,
                            word_plan(NO_IDCODE),
                            words_drive(1),
                        );
                        lemma_stage_cut_short(
                            head,
                            words_plan(so_far),
                            self.rawio.wire().pulses,
                            words_drive(so_far.len()),
                            words_drive(1),
                            Seq::empty(),
                        );
                        lemma_words_drive_next(so_far.len());
                        assert(words_drive(so_far.len()) + words_drive(1) + Seq::<Pulse>::empty()
                            =~= words_drive(so_far.len() + 1));
                    }
                    return Err(e);
                },
            }
        }
        Ok(idcodes)
    }

    /// What a bring-up leaves behind, for each way it can end. Where it
    /// completes: the codes read, none of them blank, the controllers at
    /// Idle, the chain found on record with the selection kept where it
    /// can be, no fault more, and the pulses of the whole bring-up. Where
    /// it gives up: the controllers in Shift, the record as it was, no
    /// fault more, and the pulses up to the word or the bit that was one
    /// too many. Where a line fails: one fault more, and the pulses up to
    /// the one that failed.
    pub open spec fn brought_up_from(self, from: Self, r: Result<Vec<u32>, Error>) -> bool {
        match r {
            Ok(ids) => {
                &&& ids.len() <= from.max_chain()
                &&& no_blank(ids@)
                &&& self.tap_state() == TapState::Idle
                &&& self.chain().selected == if from.chain().selected
                    < self.chain().lengths.len() {
                    from.chain().selected
                } else {
                    0
                }
                &&& self.chain().lengths.len() <= from.max_chain()
                &&& self.wire().faults == from.wire().faults
                &&& brought_up(from.wire().pulses, self.wire().pulses, ids@, self.chain().lengths)
            },
            Err(e) => if e == Error::State {
                &&& self.tap_state() == TapState::Shift
                &&& self.chain() == from.chain()
                &&& self.wire().faults == from.wire().faults
                &&& {
                    ||| too_many_idcodes(from.wire().pulses, self.wire().pulses, from.max_chain())
                    ||| topology_overrun(from.wire().pulses, self.wire().pulses, from.max_chain())
                }
            } else {
                &&& e == Error::Pin
                &&& self.wire().faults == from.wire().faults + 1
                &&& bring_up_cut_short(from.wire().pulses, self.wire().pulses)
            },
        }
    }

    /// Brings the chain up: resets it, reads the identification codes of
    /// its devices one after the other until a position shows none, then
    /// scans the chain's topology, and comes back to Idle. The codes are
    /// handed out in chain order. The selection stays as it was where the
    /// chain found has a device at that index, and goes to the first device
    /// otherwise. Both scans go by what the registers hold
    /// right after a reset, so nothing may access a register in between.
    /// A chain that shows more codes or devices than the limit, or a
    /// register of more than 255 bits, is given up on where that shows.
    pub fn init(&mut self) -> (r: Result<Vec<u32>, Error>)
        requires
            old(self).wf(),
        ensures
            final(self).wf(),
            final(self).max_chain() == old(self).max_chain(),
            final(self).brought_up_from(*old(self), r),
    {
        let ghost start = self.rawio.wire().pulses;
        let ghost mut done: Seq<Seq<Pulse>> = Seq::empty();
        proof {
            assert(start =~= start + done.flatten());
        }
        match self.reset_idle() {
            Ok(()) => {},
            Err(e) => {
                proof {
                    lemma_bring_up_stage(start, done, self.rawio.wire().pulses, 0, 0);
                }
                return Err(e);
            },
        }
        proof {
            lemma_flatten_push(done, reset_plan());
            done = done.push(reset_plan());
            assert(self.rawio.wire().pulses =~= start + done.flatten());
        }
        match self.idle_shift(false) {
            Ok(()) => {},
            Err(e) => {
                proof {
                    lemma_bring_up_stage(start, done, self.rawio.wire().pulses, 0, 0);
                }
                return Err(e);
            },
        }
        proof {
            lemma_flatten_push(done, enter_plan(false));
            done = done.push(enter_plan(false));
            assert(self.rawio.wire().pulses =~= start + done.flatten());
        }
        let ghost head = self.rawio.wire().pulses;
        // The codes come out one after the other, right after the reset.
        let idcodes = match self.scan_idcodes() {
            Ok(idcodes) => idcodes,
            Err(e) => {
                proof {
                    if e == Error::State {
                        let ids = choose|ids: Seq<u32>|
                            ids.len() == self.max_chain + 1 && no_blank(ids)
                                && self.rawio.wire().pulses == head + #[trigger] words_plan(ids);
                        assert(self.rawio.wire().pulses == start + reset_plan() + enter_plan(false)
                            + words_plan(ids));
                    } else {
                        let words = choose|words: nat|
                            cut_short(head, self.rawio.wire().pulses, #[trigger] words_drive(words));
                        lemma_bring_up_stage(start, done, self.rawio.wire().pulses, words, 0);
                    }
                }
                return Err(e);
            },
        };
        let ghost ids = idcodes@;
        let ghost words = ids.len() + 1;
        proof {
            let read = words_plan(ids) + word_plan(NO_IDCODE);
            assert(ids.push(NO_IDCODE).drop_last() =~= ids);
            lemma_words_carried_out(ids.push(NO_IDCODE));
            lemma_flatten_push(done, read);
            done = done.push(read);
            assert(self.rawio.wire().pulses =~= start + done.flatten());
        }
        match self.leave_shift() {
            Ok(()) => {},
            Err(e) => {
                proof {
                    lemma_bring_up_stage(start, done, self.rawio.wire().pulses, words, 0);
                }
                return Err(e);
            },
        }
        proof {
            lemma_flatten_push(done, leave_plan());
            done = done.push(leave_plan());
            assert(self.rawio.wire().pulses =~= start + done.flatten());
        }
        // Into the instruction registers, which hold their reset pattern.
        match self.idle_shift(true) {
            Ok(()) => {},
            Err(e) => {
                proof {
                    lemma_bring_up_stage(start, done, self.rawio.wire().pulses, words, 0);
                }
                return Err(e);
            },
        }
        proof {
            lemma_flatten_push(done, enter_plan(true));
            done = done.push(enter_plan(true));
            assert(self.rawio.wire().pulses =~= start + done.flatten());
        }
        let ghost entered = self.rawio.wire().pulses;
        match self.scan_tap() {
            Ok(()) => {},
            Err(e) => {
                proof {
                    if e == Error::State {
                        let sampled = choose|sampled: Seq<bool>|
                            overrun(sampled, self.max_chain as nat) && self.rawio.wire().pulses
                                == entered + #[trigger] scan_plan(sampled);
                        assert(self.rawio.wire().pulses =~= start + reset_plan() + enter_plan(false)
                            + words_plan(ids) + word_plan(NO_IDCODE) + leave_plan() + enter_plan(
                            true,
                        ) + scan_plan(sampled));
                    } else {
                        let bits = choose|bits: nat|
                            cut_short(
                                entered,
                                self.rawio.wire().pulses,
                                scan_plan(#[trigger] highs(bits)),
                            );
                        lemma_bring_up_stage(start, done, self.rawio.wire().pulses, words, bits);
                    }
                }
                return Err(e);
            },
        }
        let ghost probed = self.rawio.wire().pulses;
        let ghost taps = self.params@.lengths;
        let ghost first = recordable(true, taps) && probed == entered + scan_plan(
            stream(true, taps) + seq![true, true],
        );
        let ghost sampled = stream(first, taps) + seq![true, true];
        proof {
            lemma_scan_carried_out(sampled);
            lemma_flatten_push(done, scan_plan(sampled));
            done = done.push(scan_plan(sampled));
            assert(self.rawio.wire().pulses =~= start + done.flatten());
        }
        match self.leave_shift() {
            Ok(()) => {},
            Err(e) => {
                proof {
                    lemma_bring_up_stage(
                        start,
                        done,
                        self.rawio.wire().pulses,
                        words,
                        sampled.len(),
                    );
                }
                return Err(e);
            },
        }
        proof {
            lemma_joined(
                start,
                seq![
                    reset_plan(),
                    enter_plan(false),
                    words_plan(ids),
                    word_plan(NO_IDCODE),
                    leave_plan(),
                    enter_plan(true),
                    scan_plan(sampled),
                    leave_plan(),
                ],
                self.rawio.wire().pulses,
            );
        }
        Ok(idcodes)
    }

    /// The state the controllers are taken to be in.
    pub fn state(&self) -> (state: TapState)
        ensures
            state == self.tap_state(),
    {
        self.state
    }

    /// The chain as recorded, with its selection.
    pub fn topology(&self) -> (chain: &TapChain)
        ensures
            chain@ == self.chain(),
            self.wf() ==> chain.wf(),
    {
        &self.params
    }
}

/// Of two resets in a row, the second shifts the pulses that the first
/// shifted and ends in the state in which the first ended, whatever state
/// the engine was in before the first.
pub proof fn lemma_reset_twice<J: RawJtagIo>(
    before: JtagAdapter<J>,
    once: JtagAdapter<J>,
    twice: JtagAdapter<J>,
)
    requires
        once.reset_done(before),
        twice.reset_done(once),
    ensures
        twice.tap_state() == once.tap_state(),
        twice.wire().pulses.skip(once.wire().pulses.len() as int) == once.wire().pulses.skip(
            before.wire().pulses.len() as int,
        ),
{
    assert(twice.wire().pulses.skip(once.wire().pulses.len() as int) =~= reset_plan());
    assert(once.wire().pulses.skip(before.wire().pulses.len() as int) =~= reset_plan());
}

/// A bring-up whose lines did not fail and whose pulses are those of a
/// whole bring-up of a chain within the limit, with the codes `codes` and
/// the register lengths `lengths`, has not given up: it has handed out
/// exactly `codes`, in chain order, and has `lengths` on record.
pub proof fn lemma_bring_up_completes<J: RawJtagIo>(
    before: JtagAdapter<J>,
    after: JtagAdapter<J>,
    r: Result<Vec<u32>, Error>,
    codes: Seq<u32>,
    first: bool,
    lengths: Seq<u8>,
)
    requires
        after.brought_up_from(before, r),
        after.wire().faults == before.wire().faults,
        after.wire().pulses == before.wire().pulses + bring_up_plan(codes, first, lengths),
        no_blank(codes),
        codes.len() <= before.max_chain(),
        recordable(first, lengths),
    ensures
        r matches Ok(ids) && ids@ == codes && after.chain().lengths == lengths,
{
    let start = before.wire().pulses;
    let end = after.wire().pulses;
    let max = before.max_chain();
    let whole = bring_up_plan(codes, first, lengths);
    assert(whole =~= end.skip(start.len() as int));
    lemma_words_plan_len(codes);
    match r {
        Ok(ids) => {
            lemma_bring_up_recovers(start, end, codes, first, lengths, ids@, after.chain().lengths);
        },
        Err(e) => {
            assert(e == Error::State);
            if too_many_idcodes(start, end, max) {
                let ids = choose|ids: Seq<u32>|
                    ids.len() == max + 1 && no_blank(ids) && end == start + reset_plan()
                        + enter_plan(false) + #[trigger] words_plan(ids);
                let given_up = reset_plan() + enter_plan(false) + words_plan(ids);
                assert(given_up =~= end.skip(start.len() as int));
                lemma_words_plan_len(ids);
                // The pulse behind the blank word samples nothing, and a
                // pulse that reads a word does.
                let at = (9 + 32 * (codes.len() + 1)) as int;
                if at < given_up.len() {
                    let k = codes.len() as int + 1;
                    lemma_words_plan_at(ids, k, 0);
                    assert(given_up[at] == words_plan(ids)[32 * k]);
                    assert(whole[at] == leave_plan()[0]);
                }
                assert(false);
            } else {
                let (ids, sampled) = choose|ids: Seq<u32>, sampled: Seq<bool>|
                    ids.len() <= max && no_blank(ids) && overrun(sampled, max) && end == start
                        + reset_plan() + enter_plan(false) + #[trigger] words_plan(ids) + word_plan(
                        NO_IDCODE,
                    ) + leave_plan() + enter_plan(true) + #[trigger] scan_plan(sampled);
                let given_up = reset_plan() + enter_plan(false) + words_plan(ids) + word_plan(
                    NO_IDCODE,
                ) + leave_plan() + enter_plan(true) + scan_plan(sampled);
                assert(given_up =~= end.skip(start.len() as int));
                // A scan that was given up ends on a sample, a whole
                // bring-up on a pulse that samples nothing.
                assert(sampled.len() >= 1);
                assert(given_up.last() == scan_plan(sampled).last());
                assert(whole.last() == leave_plan().last());
                assert(false);
            }
        },
    }
}

/// `n` high bits.
fn all_high(n: usize) -> (bits: Vec<bool>)
    ensures
        bits@ == highs(n as nat),
{
    let mut bits: Vec<bool> = Vec::new();
    let mut i: usize = 0;
    while i < n
        invariant
            i <= n,
            bits@ == highs(i as nat),
        decreases n - i,
    {
        bits.push(true);
        proof {
            assert(bits@ =~= highs((i + 1) as nat));
        }
        i += 1;
    }
    bits
}

} // verus!
