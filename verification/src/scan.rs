//! The scan that tells a chain's topology from what its instruction
//! registers show after a reset.

use vstd::prelude::*;

verus! {

/// `n` low bits.
pub open spec fn lows(n: nat) -> Seq<bool> {
    Seq::new(n, |i: int| false)
}

/// What a device of instruction-register length `n` shows while its
/// register is shifted out: a leading bit and `n - 1` low bits.
pub open spec fn piece(lead: bool, n: nat) -> Seq<bool> {
    seq![lead] + lows((n - 1) as nat)
}

/// The leading bit of the device at `index`: high, but for the first
/// device, whose leading bit is the first bit that was sampled.
pub open spec fn lead_of(first: bool, index: nat) -> bool {
    index != 0 || first
}

/// What a chain of devices with the given instruction-register lengths
/// shows, device after device.
pub open spec fn stream(first: bool, taps: Seq<u8>) -> Seq<bool>
    decreases taps.len(),
{
    if taps.len() == 0 {
        Seq::empty()
    } else {
        stream(first, taps.drop_last()) + piece(
            lead_of(first, (taps.len() - 1) as nat),
            taps.last() as nat,
        )
    }
}

/// Lengths that a scan can record: none is 0, and only a first device whose
/// leading bit is low can have length 1.
pub open spec fn recordable(first: bool, taps: Seq<u8>) -> bool {
    forall|i: int|
        0 <= i < taps.len() ==> (#[trigger] taps[i]) >= 1 && (lead_of(first, i as nat)
            ==> taps[i] >= 2)
}

/// The sampled bits `stream(first, found)`, the `run` bits of the device
/// that is open, and one bit more than a scan with this limit can take up:
/// a low bit behind 255 bits of one register, or a high bit that would
/// close a device when `limit` are closed already.
pub open spec fn overrun_by(
    sampled: Seq<bool>,
    limit: nat,
    first: bool,
    found: Seq<u8>,
    run: nat,
) -> bool {
    let lead = lead_of(first, found.len());
    &&& recordable(first, found)
    &&& found.len() <= limit
    &&& 1 <= run <= 255
    &&& {
        ||| run == 255 && sampled == stream(first, found) + piece(lead, run) + seq![false]
        ||| found.len() == limit && !(run == 1 && lead) && sampled == stream(first, found)
            + piece(lead, run) + seq![true]
    }
}

/// Sampled bits on whose last bit a scan with this limit gives up.
pub open spec fn overrun(sampled: Seq<bool>, limit: nat) -> bool {
    exists|first: bool, found: Seq<u8>, run: nat|
        #[trigger] overrun_by(sampled, limit, first, found, run)
}

/// What a chain shows is as long as its registers are together, and holds
/// at least one bit for each device.
pub proof fn lemma_stream_len(first: bool, taps: Seq<u8>)
    requires
        recordable(first, taps),
    ensures
        stream(first, taps).len() >= taps.len(),
    decreases taps.len(),
{
    if taps.len() > 0 {
        assert(recordable(first, taps.drop_last())) by {
            assert forall|i: int| 0 <= i < taps.drop_last().len() implies (
            #[trigger] taps.drop_last()[i]) >= 1 && (lead_of(first, i as nat)
                ==> taps.drop_last()[i] >= 2) by {
                assert(taps.drop_last()[i] == taps[i]);
            }
        }
        lemma_stream_len(first, taps.drop_last());
        assert(taps.last() == taps[taps.len() - 1]);
    }
}

/// Two chains that show the same bits have the same register lengths: what
/// a scan samples tells of one chain only.
pub proof fn lemma_stream_unique(first_a: bool, a: Seq<u8>, first_b: bool, b: Seq<u8>)
    requires
        recordable(first_a, a),
        recordable(first_b, b),
        stream(first_a, a) == stream(first_b, b),
    ensures
        a == b,
    decreases a.len(),
{
    lemma_stream_len(first_a, a);
    lemma_stream_len(first_b, b);
    if a.len() == 0 || b.len() == 0 {
        assert(a =~= b);
    } else {
        let s = stream(first_a, a);
        let head_a = stream(first_a, a.drop_last());
        let head_b = stream(first_b, b.drop_last());
        let lead_a = lead_of(first_a, (a.len() - 1) as nat);
        let lead_b = lead_of(first_b, (b.len() - 1) as nat);
        let na = a.last() as nat;
        let nb = b.last() as nat;
        let last_a = piece(lead_a, na);
        let last_b = piece(lead_b, nb);
        assert(a.last() == a[a.len() - 1]);
        assert(b.last() == b[b.len() - 1]);
        assert(s == head_a + last_a);
        assert(s == head_b + last_b);
        assert(recordable(first_a, a.drop_last())) by {
            assert forall|i: int| 0 <= i < a.drop_last().len() implies (#[trigger] a.drop_last()[i])
                >= 1 && (lead_of(first_a, i as nat) ==> a.drop_last()[i] >= 2) by {
                assert(a.drop_last()[i] == a[i]);
            }
        }
        assert(recordable(first_b, b.drop_last())) by {
            assert forall|i: int| 0 <= i < b.drop_last().len() implies (#[trigger] b.drop_last()[i])
                >= 1 && (lead_of(first_b, i as nat) ==> b.drop_last()[i] >= 2) by {
                assert(b.drop_last()[i] == b[i]);
            }
        }
        lemma_stream_len(first_a, a.drop_last());
        lemma_stream_len(first_b, b.drop_last());
        // The last register begins where the last high bit stands; where
        // there is none, there is one register and it is the whole.
        if na < nb {
            let at = head_a.len() as int;
            assert((head_a + last_a)[at] == last_a[0]);
            assert((head_b + last_b)[at] == last_b[at - head_b.len()]);
            if lead_a {
                assert(false);
            } else {
                assert(a.len() == 1);
                assert(head_a.len() == 0);
                assert(false);
            }
        }
        if nb < na {
            let at = head_b.len() as int;
            assert((head_b + last_b)[at] == last_b[0]);
            assert((head_a + last_a)[at] == last_a[at - head_a.len()]);
            if lead_b {
                assert(false);
            } else {
                assert(b.len() == 1);
                assert(head_b.len() == 0);
                assert(false);
            }
        }
        assert(na == nb);
        assert(head_a =~= s.take(head_a.len() as int));
        assert(head_b =~= s.take(head_b.len() as int));
        lemma_stream_unique(first_a, a.drop_last(), first_b, b.drop_last());
        assert(a =~= a.drop_last().push(a.last()));
        assert(b =~= b.drop_last().push(b.last()));
    }
}

/// What the scan makes of one more bit.
#[derive(Debug, Clone, Copy, PartialEq, Eq)]
pub enum ScanStep {
    /// The bit belongs to the chain; the scan goes on.
    Continue,
    /// The bit is the second of two high bits in a row: the chain has ended.
    Complete,
    /// The bit would make a register longer than 255 bits, or the chain
    /// longer than the scan's limit.
    Exceeded,
}

/// The scan of a chain's topology, fed bit by bit with what was sampled
/// while high bits were shifted through the instruction registers. Each low
/// bit lengthens the current device's register; a high bit after a low one
/// closes the device and opens the next; a high bit after a high one ends
/// the scan.
pub struct TapScan {
    found: Vec<u8>,
    run: u8,
    last: bool,
    first: bool,
    limit: u16,
}

impl TapScan {
    /// The lengths of the devices closed so far.
    pub closed spec fn found(&self) -> Seq<u8> {
        self.found@
    }

    /// The bits seen of the device that is open.
    pub closed spec fn run(&self) -> nat {
        self.run as nat
    }

    /// The first bit that was sampled.
    pub closed spec fn first(&self) -> bool {
        self.first
    }

    /// The most devices the scan will record.
    pub closed spec fn limit(&self) -> nat {
        self.limit as nat
    }

    /// The bits fed to the scan so far: the devices closed, then the one
    /// that is open.
    pub open spec fn seen(&self) -> Seq<bool> {
        stream(self.first(), self.found()) + piece(
            lead_of(self.first(), self.found().len()),
            self.run(),
        )
    }

    /// How far the scan is from its bounds; every bit that it takes up
    /// brings it closer.
    pub open spec fn budget(&self) -> int {
        (self.limit() - self.found().len()) * 256 + (255 - self.run())
    }

    /// The open device has at least one bit, no more devices are closed
    /// than the limit allows, and the last bit seen is remembered rightly.
    pub closed spec fn wf(&self) -> bool {
        &&& 1 <= self.run
        &&& self.found.len() <= self.limit
        &&& self.last == (self.run == 1 && lead_of(self.first, self.found@.len()))
        &&& recordable(self.first, self.found@)
    }

    /// What `wf` holds for the contracts' eyes: the bounds, the last bit
    /// seen, and that the lengths are ones a scan can record.
    pub proof fn lemma_wf(&self)
        requires
            self.wf(),
        ensures
            1 <= self.run() <= 255,
            self.found().len() <= self.limit() <= 65535,
            self.seen().len() >= 1,
            self.seen().last() == (self.run() == 1 && lead_of(self.first(), self.found().len())),
            recordable(self.first(), self.found()),
            self.budget() >= 0,
    {
        let p = piece(lead_of(self.first(), self.found().len()), self.run());
        assert(self.seen().last() == p.last());
    }

    /// A scan that has seen `first` and nothing else.
    pub fn begin(first: bool, limit: u16) -> (scan: Self)
        ensures
            scan.wf(),
            scan.first() == first,
            scan.limit() == limit,
            scan.found() == Seq::<u8>::empty(),
            scan.run() == 1,
            scan.seen() == seq![first],
    {
        let scan = TapScan { found: Vec::new(), run: 1, last: first, first, limit };
        proof {
            assert(scan.seen() =~= seq![first]);
        }
        scan
    }

    /// Feeds the scan one more bit.
    pub fn observe(&mut self, bit: bool) -> (step: ScanStep)
        requires
            old(self).wf(),
        ensures
            final(self).wf(),
            final(self).first() == old(self).first(),
            final(self).limit() == old(self).limit(),
            match step {
                ScanStep::Complete => {
                    &&& old(self).seen().last() && bit
                    &&& *final(self) == *old(self)
                    &&& old(self).seen().push(bit) == stream(old(self).first(), old(self).found())
                        + seq![true, true]
                },
                ScanStep::Exceeded => {
                    &&& !(old(self).seen().last() && bit)
                    &&& *final(self) == *old(self)
                    &&& if bit {
                        old(self).found().len() == old(self).limit()
                    } else {
                        old(self).run() == 255
                    }
                },
                ScanStep::Continue => {
                    &&& !(old(self).seen().last() && bit)
                    &&& final(self).seen() == old(self).seen().push(bit)
                    &&& final(self).budget() < old(self).budget()
                    &&& if bit {
                        &&& old(self).found().len() < old(self).limit()
                        &&& final(self).found() == old(self).found().push(old(self).run() as u8)
                        &&& final(self).run() == 1
                    } else {
                        &&& old(self).run() < 255
                        &&& final(self).found() == old(self).found()
                        &&& final(self).run() == old(self).run() + 1
                    }
                },
            },
    {
        proof {
            self.lemma_wf();
        }
        let ghost lead = lead_of(self.first, self.found@.len());
        if !bit {
            if self.run == 255 {
                return ScanStep::Exceeded;
            }
            proof {
                assert(piece(lead, self.run as nat).push(false) =~= piece(
                    lead,
                    (self.run + 1) as nat,
                ));
                assert((stream(self.first, self.found@) + piece(lead, self.run as nat)).push(false)
                    =~= stream(self.first, self.found@) + piece(lead, (self.run + 1) as nat));
            }
            self.run = self.run + 1;
            self.last = false;
            ScanStep::Continue
        } else if !self.last {
            if self.found.len() >= self.limit as usize {
                return ScanStep::Exceeded;
            }
            proof {
                let closed = self.found@.push(self.run);
                assert(closed.drop_last() =~= self.found@);
                assert(piece(true, 1) =~= seq![true]);
                assert((stream(self.first, self.found@) + piece(lead, self.run as nat)).push(true)
                    =~= stream(self.first, closed) + piece(true, 1));
                assert(recordable(self.first, closed)) by {
                    assert forall|i: int| 0 <= i < closed.len() implies (#[trigger] closed[i]) >= 1
                        && (lead_of(self.first, i as nat) ==> closed[i] >= 2) by {
                        if i < self.found@.len() {
                            assert(closed[i] == self.found@[i]);
                        }
                    }
                }
            }
            self.found.push(self.run);
            self.run = 1;
            self.last = true;
            ScanStep::Continue
        } else {
            proof {
                assert(piece(lead, 1) =~= seq![true]);
                assert((stream(self.first, self.found@) + piece(lead, 1)).push(true) =~= stream(
                    self.first,
                    self.found@,
                ) + seq![true, true]);
            }
            ScanStep::Complete
        }
    }

    /// Ends the scan and hands out the lengths of the devices closed.
    pub fn finish(self) -> (taps: Vec<u8>)
        requires
            self.wf(),
        ensures
            taps@ == self.found(),
            taps.len() <= self.limit(),
    {
        self.found
    }
}

} // verus!
