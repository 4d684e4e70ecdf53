//! The record of a chain: its devices, the selected one, and the filler
//! that an access of it needs.

use crate::error::Error;
use vstd::prelude::*;

verus! {

/// The most devices a chain may be recorded with.
pub const MAX_DEVICES: usize = 65535;

/// The sum of some instruction-register lengths.
pub open spec fn total(lengths: Seq<u8>) -> nat
    decreases lengths.len(),
{
    if lengths.len() == 0 {
        0
    } else {
        total(lengths.drop_last()) + lengths.last() as nat
    }
}

/// A chain as the contracts see it: the instruction-register length of each
/// device, in chain order, and the index of the selected device.
pub struct Topology {
    pub lengths: Seq<u8>,
    pub selected: nat,
}

impl Topology {
    /// The selection points at a device, or at index 0 of a chain without
    /// devices.
    pub open spec fn valid(self) -> bool {
        &&& self.lengths.len() <= MAX_DEVICES
        &&& if self.lengths.len() == 0 {
            self.selected == 0
        } else {
            self.selected < self.lengths.len()
        }
    }

    /// The filler bits that precede the payload: for an instruction
    /// register, the lengths of the devices before the selected one summed
    /// up; for a data register, one bit for each of them.
    pub open spec fn before(self, ir: bool) -> nat {
        if ir {
            total(self.lengths.take(self.selected as int))
        } else {
            self.selected
        }
    }

    /// The filler bits that follow the payload: for an instruction register,
    /// the lengths of the devices after the selected one summed up; for a
    /// data register, one bit for each of them.
    pub open spec fn after(self, ir: bool) -> nat {
        if self.lengths.len() == 0 {
            0
        } else if ir {
            total(self.lengths.skip(self.selected as int + 1))
        } else {
            (self.lengths.len() - self.selected - 1) as nat
        }
    }
}

/// A sum of lengths is at most 255 for each of them.
pub proof fn lemma_total_bound(lengths: Seq<u8>)
    ensures
        total(lengths) <= 255 * lengths.len(),
    decreases lengths.len(),
{
    if lengths.len() > 0 {
        lemma_total_bound(lengths.drop_last());
    }
}

/// The sum over a run that ends with `last` is the sum over the rest plus
/// `last`.
pub proof fn lemma_total_push(lengths: Seq<u8>, last: u8)
    ensures
        total(lengths.push(last)) == total(lengths) + last,
{
    assert(lengths.push(last).drop_last() =~= lengths);
}

/// The discovered chain with its selection and the two filler counts that
/// an instruction-register access of the selected device needs.
pub struct TapChain {
    taps: Vec<u8>,
    select: usize,
    pre: usize,
    pos: usize,
}

impl View for TapChain {
    type V = Topology;

    closed spec fn view(&self) -> Topology {
        Topology { lengths: self.taps@, selected: self.select as nat }
    }
}

impl TapChain {
    /// The selection is in range and the stored filler counts are those of
    /// the selection.
    pub closed spec fn wf(&self) -> bool {
        &&& self@.valid()
        &&& self.pre == self@.before(true)
        &&& self.pos == self@.after(true)
    }

    /// A chain without devices.
    pub fn new() -> (chain: Self)
        ensures
            chain.wf(),
            chain@ == (Topology { lengths: Seq::empty(), selected: 0 }),
    {
        TapChain { taps: Vec::new(), select: 0, pre: 0, pos: 0 }
    }

    /// The chain with the given instruction-register lengths, in chain
    /// order, and its first device selected. A chain of more than
    /// `MAX_DEVICES` devices is not recorded.
    pub fn from_lengths(taps: Vec<u8>) -> (chain: Option<Self>)
        ensures
            chain is Some <==> taps.len() <= MAX_DEVICES,
            chain matches Some(c) ==> c.wf() && c@ == (Topology { lengths: taps@, selected: 0 }),
    {
        if taps.len() > MAX_DEVICES {
            return None;
        }
        let pos = if taps.len() == 0 {
            0
        } else {
            sum_range(&taps, 1, taps.len())
        };
        proof {
            assert(taps@.take(0) =~= Seq::<u8>::empty());
            if taps.len() > 0 {
                assert(taps@.subrange(1, taps.len() as int) =~= taps@.skip(1));
            }
        }
        Some(TapChain { taps, select: 0, pre: 0, pos })
    }

    /// Selects the device at `index`, counted from 0, and works out the
    /// filler counts on either side of it. An index past the last device is
    /// refused and leaves the selection as it was.
    pub fn select(&mut self, index: usize) -> (r: Result<(), Error>)
        requires
            old(self).wf(),
        ensures
            final(self).wf(),
            index < old(self)@.lengths.len() ==> r is Ok && final(self)@ == (Topology {
                lengths: old(self)@.lengths,
                selected: index as nat,
            }),
            index >= old(self)@.lengths.len() ==> r == Err::<(), Error>(Error::TapNoValid)
                && *final(self) == *old(self),
    {
        if index >= self.taps.len() {
            Err(Error::TapNoValid)
        } else {
            let pre = sum_range(&self.taps, 0, index);
            let pos = sum_range(&self.taps, index + 1, self.taps.len());
            proof {
                assert(self.taps@.subrange(0, index as int) =~= self.taps@.take(index as int));
                assert(self.taps@.subrange(index + 1, self.taps.len() as int) =~= self.taps@.skip(
                    index + 1,
                ));
            }
            self.select = index;
            self.pre = pre;
            self.pos = pos;
            Ok(())
        }
    }

    /// The number of filler bits on one side of the payload: before it where
    /// `is_pre` holds, after it otherwise; for an instruction register
    /// where `is_ir` holds, for a data register otherwise.
    pub fn fill(&self, is_pre: bool, is_ir: bool) -> (n: usize)
        requires
            self.wf(),
        ensures
            n == if is_pre {
                self@.before(is_ir)
            } else {
                self@.after(is_ir)
            },
    {
        if !is_ir {
            if is_pre {
                self.select
            } else if self.taps.len() == 0 {
                0
            } else {
                self.taps.len() - self.select - 1
            }
        } else if is_pre {
            self.pre
        } else {
            self.pos
        }
    }

    /// The instruction-register lengths, in chain order.
    pub fn taps(&self) -> (taps: &Vec<u8>)
        ensures
            taps@ == self@.lengths,
    {
        &self.taps
    }

    /// The number of devices.
    pub fn len(&self) -> (n: usize)
        ensures
            n == self@.lengths.len(),
    {
        self.taps.len()
    }

    /// The index of the selected device.
    pub fn selected(&self) -> (index: usize)
        ensures
            index == self@.selected,
    {
        self.select
    }
}

/// The sum of `taps[from..to]`.
fn sum_range(taps: &Vec<u8>, from: usize, to: usize) -> (sum: usize)
    requires
        from <= to <= taps.len() <= MAX_DEVICES,
    ensures
        sum == total(taps@.subrange(from as int, to as int)),
{
    let mut sum: usize = 0;
    let mut i: usize = from;
    while i < to
        invariant
            from <= i <= to <= taps.len() <= MAX_DEVICES,
            sum == total(taps@.subrange(from as int, i as int)),
        decreases to - i,
    {
        proof {
            lemma_total_bound(taps@.subrange(from as int, i as int));
            lemma_total_push(taps@.subrange(from as int, i as int), taps[i as int]);
            assert(taps@.subrange(from as int, i as int).push(taps[i as int]) =~= taps@.subrange(
                from as int,
                i + 1,
            ));
        }
        sum = sum + taps[i] as usize;
        i += 1;
    }
    sum
}

} // verus!
