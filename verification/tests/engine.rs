use jtag::adapter::{JtagAdapter, TapState};
use jtag::chain::TapChain;
use jtag::error::Error;
use jtag::io::RawJtagIo;
use std::cell::RefCell;
use std::rc::Rc;

#[derive(Clone, Copy, PartialEq, Eq, Debug)]
enum Tap {
    Reset,
    Idle,
    SelectDr,
    CaptureDr,
    ShiftDr,
    Exit1Dr,
    PauseDr,
    Exit2Dr,
    UpdateDr,
    SelectIr,
    CaptureIr,
    ShiftIr,
    Exit1Ir,
    PauseIr,
    Exit2Ir,
    UpdateIr,
}

fn next(state: Tap, tms: bool) -> Tap {
    match (state, tms) {
        (Tap::Reset, true) => Tap::Reset,
        (Tap::Reset, false) => Tap::Idle,
        (Tap::Idle, true) => Tap::SelectDr,
        (Tap::Idle, false) => Tap::Idle,
        (Tap::SelectDr, true) => Tap::SelectIr,
        (Tap::SelectDr, false) => Tap::CaptureDr,
        (Tap::CaptureDr, true) => Tap::Exit1Dr,
        (Tap::CaptureDr, false) => Tap::ShiftDr,
        (Tap::ShiftDr, true) => Tap::Exit1Dr,
        (Tap::ShiftDr, false) => Tap::ShiftDr,
        (Tap::Exit1Dr, true) => Tap::UpdateDr,
        (Tap::Exit1Dr, false) => Tap::PauseDr,
        (Tap::PauseDr, true) => Tap::Exit2Dr,
        (Tap::PauseDr, false) => Tap::PauseDr,
        (Tap::Exit2Dr, true) => Tap::UpdateDr,
        (Tap::Exit2Dr, false) => Tap::ShiftDr,
        (Tap::UpdateDr, true) => Tap::SelectDr,
        (Tap::UpdateDr, false) => Tap::Idle,
        (Tap::SelectIr, true) => Tap::Reset,
        (Tap::SelectIr, false) => Tap::CaptureIr,
        (Tap::CaptureIr, true) => Tap::Exit1Ir,
        (Tap::CaptureIr, false) => Tap::ShiftIr,
        (Tap::ShiftIr, true) => Tap::Exit1Ir,
        (Tap::ShiftIr, false) => Tap::ShiftIr,
        (Tap::Exit1Ir, true) => Tap::UpdateIr,
        (Tap::Exit1Ir, false) => Tap::PauseIr,
        (Tap::PauseIr, true) => Tap::Exit2Ir,
        (Tap::PauseIr, false) => Tap::PauseIr,
        (Tap::Exit2Ir, true) => Tap::UpdateIr,
        (Tap::Exit2Ir, false) => Tap::ShiftIr,
        (Tap::UpdateIr, true) => Tap::SelectDr,
        (Tap::UpdateIr, false) => Tap::Idle,
    }
}

fn to_bits(value: u64, len: usize) -> Vec<bool> {
    (0..len).map(|i| i < 64 && (value >> i) & 1 == 1).collect()
}

fn to_value(bits: &[bool]) -> u64 {
    bits.iter().enumerate().fold(0, |acc, (i, b)| acc | ((*b as u64) << i))
}

/// One device of a simulated chain. Its instruction register shows a high
/// bit and then low bits when it is captured, or the instruction it holds
/// where `mirror_ir` is set. The instruction of all ones selects the bypass
/// register, the one below it the identification code where the device has
/// one, and every other a data register of `data_len` bits that shows what
/// was last written to it.
struct Device {
    ir_len: usize,
    idcode: Option<u32>,
    data_len: usize,
    mirror_ir: bool,
    inst: u64,
    data: u64,
    ir_shift: Vec<bool>,
    dr_shift: Vec<bool>,
}

impl Device {
    fn new(ir_len: usize, idcode: Option<u32>, data_len: usize) -> Device {
        Device {
            ir_len,
            idcode,
            data_len,
            mirror_ir: false,
            inst: 0,
            data: 0,
            ir_shift: Vec::new(),
            dr_shift: Vec::new(),
        }
    }

    fn bypass(&self) -> u64 {
        if self.ir_len < 64 {
            (1u64 << self.ir_len) - 1
        } else {
            u64::MAX
        }
    }

    fn reset(&mut self) {
        self.inst = if self.idcode.is_some() { self.bypass() - 1 } else { self.bypass() };
    }

    fn capture_ir(&mut self) {
        self.ir_shift = if self.mirror_ir { to_bits(self.inst, self.ir_len) } else { to_bits(1, self.ir_len) };
    }

    fn capture_dr(&mut self) {
        self.dr_shift = if self.inst == self.bypass() {
            vec![false]
        } else if self.idcode.is_some() && self.inst == self.bypass() - 1 {
            to_bits(self.idcode.unwrap() as u64, 32)
        } else {
            to_bits(self.data, self.data_len)
        };
    }

    fn update_ir(&mut self) {
        self.inst = to_value(&self.ir_shift);
    }

    fn update_dr(&mut self) {
        let plain = self.inst == self.bypass() || (self.idcode.is_some() && self.inst == self.bypass() - 1);
        if !plain {
            self.data = to_value(&self.dr_shift);
        }
    }
}

/// A simulated chain behind a port. Device 0 is the one next to data out.
/// Without a device, data in comes straight out again.
struct Bench {
    devices: Vec<Device>,
    state: Tap,
    pulses: Vec<(bool, bool, Option<bool>)>,
    calls: usize,
    fail_at: Option<usize>,
    stuck_low: bool,
}

impl Bench {
    fn shift(devices: &mut [Device], ir: bool, tdi: bool) -> bool {
        let mut carry = tdi;
        for d in devices.iter_mut().rev() {
            let reg = if ir { &mut d.ir_shift } else { &mut d.dr_shift };
            let out = reg.remove(0);
            reg.push(carry);
            carry = out;
        }
        carry
    }

    fn pulse(&mut self, tdi: bool, tms: bool) -> bool {
        let mut tdo = true;
        match self.state {
            Tap::Reset => self.devices.iter_mut().for_each(Device::reset),
            Tap::CaptureIr => self.devices.iter_mut().for_each(Device::capture_ir),
            Tap::CaptureDr => self.devices.iter_mut().for_each(Device::capture_dr),
            Tap::ShiftIr => tdo = Bench::shift(&mut self.devices, true, tdi),
            Tap::ShiftDr => tdo = Bench::shift(&mut self.devices, false, tdi),
            Tap::UpdateIr => self.devices.iter_mut().for_each(Device::update_ir),
            Tap::UpdateDr => self.devices.iter_mut().for_each(Device::update_dr),
            _ => {},
        }
        self.state = next(self.state, tms);
        if self.stuck_low {
            false
        } else {
            tdo
        }
    }
}

#[derive(Clone)]
struct Sim(Rc<RefCell<Bench>>);

impl Sim {
    fn new(devices: Vec<Device>) -> Sim {
        Sim(Rc::new(RefCell::new(Bench {
            devices,
            state: Tap::Idle,
            pulses: Vec::new(),
            calls: 0,
            fail_at: None,
            stuck_low: false,
        })))
    }

    fn pulses(&self) -> Vec<(bool, bool, Option<bool>)> {
        self.0.borrow().pulses.clone()
    }

    fn forget(&self) {
        self.0.borrow_mut().pulses.clear();
    }

    fn tap(&self) -> Tap {
        self.0.borrow().state
    }

    fn fail_at_call(&self, call: usize) {
        let mut bench = self.0.borrow_mut();
        bench.fail_at = Some(bench.calls + call);
    }
}

impl RawJtagIo for Sim {
    fn shift_bit(&mut self, tdi: bool, tms: bool, capture: Option<&mut bool>) -> Result<(), Error> {
        let mut bench = self.0.borrow_mut();
        let call = bench.calls;
        bench.calls += 1;
        if bench.fail_at == Some(call) {
            return Err(Error::Pin);
        }
        let tdo = bench.pulse(tdi, tms);
        let seen = capture.map(|c| {
            *c = tdo;
            tdo
        });
        bench.pulses.push((tdi, tms, seen));
        Ok(())
    }
}

fn quiet(levels: &[(bool, bool)]) -> Vec<(bool, bool, Option<bool>)> {
    levels.iter().map(|(tdi, tms)| (*tdi, *tms, None)).collect()
}

fn reset_pulses() -> Vec<(bool, bool, Option<bool>)> {
    quiet(&[(true, true), (true, true), (true, true), (true, true), (true, true), (true, false)])
}

fn three_devices() -> Vec<Device> {
    vec![
        Device::new(2, Some(0x4ba0_0477), 8),
        Device::new(4, Some(0x0641_3041), 8),
        Device::new(3, Some(0x1234_5679), 8),
    ]
}

#[test]
fn new_engine_knows_nothing() {
    let sim = Sim::new(three_devices());
    let adapter = JtagAdapter::new(sim.clone());
    assert_eq!(adapter.state(), TapState::Unknown);
    assert_eq!(adapter.topology().len(), 0);
    assert_eq!(adapter.topology().selected(), 0);
    assert!(sim.pulses().is_empty());
}

#[test]
fn reset_drives_five_high_and_one_low() {
    let sim = Sim::new(three_devices());
    let mut adapter = JtagAdapter::new(sim.clone());
    assert_eq!(adapter.reset_idle(), Ok(()));
    assert_eq!(sim.pulses(), reset_pulses());
    assert_eq!(adapter.state(), TapState::Idle);
    assert_eq!(sim.tap(), Tap::Idle);
}

#[test]
fn reset_twice_is_the_same_both_times() {
    let sim = Sim::new(three_devices());
    let mut adapter = JtagAdapter::new(sim.clone());
    assert_eq!(adapter.reset_idle(), Ok(()));
    let first = sim.pulses();
    let state_first = adapter.state();
    sim.forget();
    assert_eq!(adapter.reset_idle(), Ok(()));
    assert_eq!(sim.pulses(), first);
    assert_eq!(adapter.state(), state_first);
    assert_eq!(adapter.state(), TapState::Idle);
}

#[test]
fn reset_from_the_middle_of_a_shift_reaches_idle() {
    let sim = Sim::new(three_devices());
    let mut adapter = JtagAdapter::new(sim.clone());
    assert_eq!(adapter.init().map(|ids| ids.len()), Ok(3));
    sim.fail_at_call(6);
    assert_eq!(adapter.shift_dr(0, 8), Err(Error::Pin));
    assert_eq!(sim.tap(), Tap::ShiftDr);
    assert_eq!(adapter.reset_idle(), Ok(()));
    assert_eq!(sim.tap(), Tap::Idle);
    assert_eq!(adapter.state(), TapState::Idle);
}

#[test]
fn bring_up_lists_the_idcodes_in_chain_order() {
    let sim = Sim::new(three_devices());
    let mut adapter = JtagAdapter::new(sim.clone());
    assert_eq!(adapter.init(), Ok(vec![0x4ba0_0477, 0x0641_3041, 0x1234_5679]));
    assert_eq!(adapter.state(), TapState::Idle);
    assert_eq!(sim.tap(), Tap::Idle);
    // Reset, into Shift, three words of 32 bits, and a fourth that holds
    // nothing but high bits.
    let pulses = sim.pulses();
    let words = &pulses[9..9 + 4 * 32];
    assert!(words.iter().all(|p| p.0 && !p.1 && p.2.is_some()));
    let fourth: Vec<bool> = words[96..].iter().map(|p| p.2.unwrap()).collect();
    assert_eq!(fourth, vec![true; 32]);
    let third: Vec<bool> = words[64..96].iter().map(|p| p.2.unwrap()).collect();
    assert_eq!(to_value(&third), 0x1234_5679);
}

#[test]
fn bring_up_of_one_device() {
    let sim = Sim::new(vec![Device::new(4, Some(0x4ba0_0477), 8)]);
    let mut adapter = JtagAdapter::new(sim.clone());
    assert_eq!(adapter.init(), Ok(vec![0x4ba0_0477]));
    assert_eq!(adapter.topology().taps(), &vec![4u8]);
}

#[test]
fn bring_up_of_an_empty_chain() {
    let sim = Sim::new(Vec::new());
    let mut adapter = JtagAdapter::new(sim.clone());
    assert_eq!(adapter.init(), Ok(Vec::new()));
    assert_eq!(adapter.topology().len(), 0);
    assert_eq!(adapter.state(), TapState::Idle);
    let mut expected = reset_pulses();
    expected.extend(quiet(&[(true, true), (true, false), (true, false)]));
    expected.extend(vec![(true, false, Some(true)); 32]);
    expected.extend(quiet(&[(true, true), (true, true), (true, false)]));
    expected.extend(quiet(&[(true, true), (true, true), (true, false), (true, false)]));
    expected.extend(vec![(true, false, Some(true)); 2]);
    expected.extend(quiet(&[(true, true), (true, true), (true, false)]));
    assert_eq!(sim.pulses(), expected);
}

#[test]
fn bring_up_finds_the_register_lengths() {
    let sim = Sim::new(three_devices());
    let mut adapter = JtagAdapter::new(sim.clone());
    assert!(adapter.init().is_ok());
    assert_eq!(adapter.topology().taps(), &vec![2u8, 4, 3]);
    assert_eq!(adapter.topology().len(), 3);
    assert_eq!(adapter.topology().selected(), 0);
    // The scan sampled the three capture patterns and two high bits.
    let pulses = sim.pulses();
    let scan = &pulses[pulses.len() - 3 - 11..pulses.len() - 3];
    let sampled: Vec<bool> = scan.iter().map(|p| p.2.unwrap()).collect();
    assert_eq!(
        sampled,
        vec![true, false, true, false, false, false, true, false, false, true, true]
    );
    assert!(scan.iter().all(|p| p.0 && !p.1));
}

#[test]
fn bring_up_leaves_every_device_in_bypass() {
    let sim = Sim::new(three_devices());
    let mut adapter = JtagAdapter::new(sim.clone());
    assert!(adapter.init().is_ok());
    let bench = sim.0.borrow();
    assert!(bench.devices.iter().all(|d| d.inst == d.bypass()));
}

#[test]
fn bring_up_gives_up_on_a_line_stuck_low() {
    let sim = Sim::new(three_devices());
    sim.0.borrow_mut().stuck_low = true;
    let mut adapter = JtagAdapter::with_max_chain(sim.clone(), 4);
    assert_eq!(adapter.init(), Err(Error::State));
    // Five words were read: one more than the limit.
    assert_eq!(sim.pulses().len(), 6 + 3 + 5 * 32);
    assert_eq!(adapter.topology().len(), 0);
}

#[test]
fn bring_up_gives_up_on_too_many_devices() {
    let devices = vec![Device::new(2, None, 8), Device::new(2, None, 8), Device::new(2, None, 8)];
    let sim = Sim::new(devices);
    let mut adapter = JtagAdapter::with_max_chain(sim.clone(), 2);
    assert_eq!(adapter.init(), Err(Error::State));
    assert_eq!(adapter.topology().len(), 0);
    // The scan stopped on the bit that opened a third device.
    let pulses = sim.pulses();
    let sampled: Vec<bool> = pulses[pulses.len() - 5..].iter().map(|p| p.2.unwrap()).collect();
    assert_eq!(sampled, vec![true, false, true, false, true]);
}

#[test]
fn bring_up_within_the_limit() {
    let devices = vec![Device::new(2, None, 8), Device::new(2, None, 8)];
    let sim = Sim::new(devices);
    let mut adapter = JtagAdapter::with_max_chain(sim.clone(), 2);
    // Devices without a code show one low bit each in the first word.
    assert_eq!(adapter.init(), Ok(vec![0xffff_fffc]));
    assert_eq!(adapter.topology().taps(), &vec![2u8, 2]);
}

#[test]
fn bring_up_gives_up_on_a_register_of_256_bits() {
    // A device that shows low bits without end behind its first bit.
    let sim = Sim::new(vec![Device::new(300, None, 8)]);
    let mut adapter = JtagAdapter::new(sim.clone());
    assert_eq!(adapter.init(), Err(Error::State));
    let pulses = sim.pulses();
    let scan = &pulses[6 + 3 + 2 * 32 + 3 + 4..];
    assert_eq!(scan.len(), 256);
    assert!(scan[0].2.unwrap());
    assert!(scan[1..].iter().all(|p| !p.2.unwrap()));
}

#[test]
fn select_tap_takes_an_index_in_the_chain() {
    let sim = Sim::new(three_devices());
    let mut adapter = JtagAdapter::new(sim.clone());
    assert!(adapter.init().is_ok());
    assert_eq!(adapter.select_tap(1), Ok(()));
    assert_eq!(adapter.topology().selected(), 1);
    assert_eq!(adapter.topology().fill(true, true), 2);
    assert_eq!(adapter.topology().fill(false, true), 3);
    assert_eq!(adapter.select_tap(2), Ok(()));
    assert_eq!(adapter.topology().fill(true, true), 6);
    assert_eq!(adapter.topology().fill(false, true), 0);
}

#[test]
fn select_tap_refuses_an_index_past_the_chain() {
    let sim = Sim::new(three_devices());
    let mut adapter = JtagAdapter::new(sim.clone());
    assert_eq!(adapter.select_tap(0), Err(Error::TapNoValid));
    assert!(adapter.init().is_ok());
    assert_eq!(adapter.select_tap(1), Ok(()));
    assert_eq!(adapter.select_tap(3), Err(Error::TapNoValid));
    assert_eq!(adapter.select_tap(usize::MAX), Err(Error::TapNoValid));
    assert_eq!(adapter.topology().selected(), 1);
    assert_eq!(adapter.topology().fill(true, true), 2);
}

#[test]
fn instruction_write_to_the_middle_device_is_filled_on_both_sides() {
    let sim = Sim::new(Vec::new());
    let chain = TapChain::from_lengths(vec![2, 4, 1]).unwrap();
    let mut adapter = JtagAdapter::with_chain(sim.clone(), chain);
    assert_eq!(adapter.select_tap(1), Ok(()));
    assert_eq!(adapter.topology().fill(true, true), 2);
    assert_eq!(adapter.topology().fill(false, true), 1);
    assert!(adapter.shift_ir(0b1010, 4).is_ok());
    let mut expected = quiet(&[(true, true), (true, true), (true, false), (true, false)]);
    // Two filler bits.
    expected.extend(quiet(&[(true, false), (true, false)]));
    // Four payload bits, least significant first, each sampled.
    expected.extend(vec![
        (false, false, Some(false)),
        (true, false, Some(true)),
        (false, false, Some(false)),
        (true, false, Some(true)),
    ]);
    // One filler bit, which leaves Shift.
    expected.extend(quiet(&[(true, true)]));
    // Back to Idle.
    expected.extend(quiet(&[(true, true), (true, false)]));
    assert_eq!(sim.pulses(), expected);
    assert_eq!(adapter.state(), TapState::Idle);
}

#[test]
fn instruction_write_to_the_last_device_leaves_shift_on_the_payload() {
    let sim = Sim::new(Vec::new());
    let chain = TapChain::from_lengths(vec![2, 4, 1]).unwrap();
    let mut adapter = JtagAdapter::with_chain(sim.clone(), chain);
    assert_eq!(adapter.select_tap(2), Ok(()));
    assert_eq!(adapter.topology().fill(false, true), 0);
    assert!(adapter.shift_ir(0b1, 1).is_ok());
    let mut expected = quiet(&[(true, true), (true, true), (true, false), (true, false)]);
    expected.extend(quiet(&[(true, false); 6]));
    expected.extend(vec![(true, true, Some(true))]);
    expected.extend(quiet(&[(true, true), (true, false)]));
    assert_eq!(sim.pulses(), expected);
    // Mode select was high on one pulse between entering Shift and the way
    // back to Idle: the last payload bit.
    let inside = &expected[4..expected.len() - 2];
    assert_eq!(inside.iter().filter(|p| p.1).count(), 1);
}

#[test]
fn instruction_write_to_the_first_device_has_no_filler_in_front() {
    let sim = Sim::new(Vec::new());
    let chain = TapChain::from_lengths(vec![2, 4, 1]).unwrap();
    let mut adapter = JtagAdapter::with_chain(sim.clone(), chain);
    assert!(adapter.shift_ir(0b10, 2).is_ok());
    let mut expected = quiet(&[(true, true), (true, true), (true, false), (true, false)]);
    expected.extend(vec![(false, false, Some(false)), (true, false, Some(true))]);
    expected.extend(quiet(&[(true, false); 4]));
    expected.extend(quiet(&[(true, true)]));
    expected.extend(quiet(&[(true, true), (true, false)]));
    assert_eq!(sim.pulses(), expected);
}

#[test]
fn data_write_is_filled_with_one_bit_for_each_other_device() {
    let sim = Sim::new(Vec::new());
    let chain = TapChain::from_lengths(vec![2, 4, 1]).unwrap();
    let mut adapter = JtagAdapter::with_chain(sim.clone(), chain);
    assert_eq!(adapter.select_tap(1), Ok(()));
    assert!(adapter.shift_dr(0b101, 3).is_ok());
    let mut expected = quiet(&[(true, true), (true, false), (true, false)]);
    expected.extend(quiet(&[(true, false)]));
    expected.extend(vec![
        (true, false, Some(true)),
        (false, false, Some(false)),
        (true, false, Some(true)),
    ]);
    expected.extend(quiet(&[(true, true)]));
    expected.extend(quiet(&[(true, true), (true, false)]));
    assert_eq!(sim.pulses(), expected);
}

#[test]
fn data_write_to_the_last_device_leaves_shift_on_the_payload() {
    let sim = Sim::new(Vec::new());
    let chain = TapChain::from_lengths(vec![2, 4, 1]).unwrap();
    let mut adapter = JtagAdapter::with_chain(sim.clone(), chain);
    assert_eq!(adapter.select_tap(2), Ok(()));
    assert!(adapter.shift_dr(0b01, 2).is_ok());
    let mut expected = quiet(&[(true, true), (true, false), (true, false)]);
    expected.extend(quiet(&[(true, false), (true, false)]));
    expected.extend(vec![(true, false, Some(true)), (false, true, Some(false))]);
    expected.extend(quiet(&[(true, true), (true, false)]));
    assert_eq!(sim.pulses(), expected);
}

#[test]
fn access_without_a_chain_has_no_filler() {
    let sim = Sim::new(Vec::new());
    let mut adapter = JtagAdapter::new(sim.clone());
    assert!(adapter.shift_dr(0b1, 1).is_ok());
    let mut expected = quiet(&[(true, true), (true, false), (true, false)]);
    expected.extend(vec![(true, true, Some(true))]);
    expected.extend(quiet(&[(true, true), (true, false)]));
    assert_eq!(sim.pulses(), expected);
}

#[test]
fn access_returns_what_the_register_held_before() {
    let sim = Sim::new(three_devices());
    let mut adapter = JtagAdapter::new(sim.clone());
    assert!(adapter.init().is_ok());
    assert_eq!(adapter.select_tap(1), Ok(()));
    // An instruction register shows its capture pattern, not what was
    // written to it.
    assert_eq!(adapter.shift_ir(0b1010, 4), Ok(0b0001));
    assert_eq!(adapter.shift_ir(0b1010, 4), Ok(0b0001));
    {
        let bench = sim.0.borrow();
        assert_eq!(bench.devices[1].inst, 0b1010);
        assert_eq!(bench.devices[0].inst, 0b11);
        assert_eq!(bench.devices[2].inst, 0b111);
    }
    assert_eq!(sim.tap(), Tap::Idle);
    assert_eq!(adapter.shift_dr(0x5a, 8), Ok(0));
    assert_eq!(sim.0.borrow().devices[1].data, 0x5a);
}

#[test]
fn data_register_round_trip() {
    let sim = Sim::new(three_devices());
    let mut adapter = JtagAdapter::new(sim.clone());
    assert!(adapter.init().is_ok());
    for index in 0..3 {
        assert_eq!(adapter.select_tap(index), Ok(()));
        let len = adapter.topology().taps()[index] as usize;
        assert!(adapter.shift_ir(0, len).is_ok());
        assert!(adapter.shift_dr(0xa5, 8).is_ok());
        assert_eq!(adapter.shift_dr(0x3c, 8), Ok(0xa5));
        assert_eq!(adapter.shift_dr(0, 8), Ok(0x3c));
        // Back to bypass for the next round.
        assert!(adapter.shift_ir(0xff, len).is_ok());
    }
}

#[test]
fn data_register_round_trip_of_64_bits() {
    let sim = Sim::new(vec![Device::new(4, None, 64)]);
    let mut adapter = JtagAdapter::new(sim.clone());
    assert!(adapter.init().is_ok());
    assert!(adapter.shift_ir(0, 4).is_ok());
    assert!(adapter.shift_dr(0xfedc_ba98_7654_3210, 64).is_ok());
    assert_eq!(adapter.shift_dr(u64::MAX, 64), Ok(0xfedc_ba98_7654_3210));
    assert_eq!(adapter.shift_dr(0, 64), Ok(u64::MAX));
}

#[test]
fn instruction_register_round_trip() {
    let mut devices = three_devices();
    let sim = Sim::new(Vec::new());
    let mut adapter = JtagAdapter::new(sim.clone());
    sim.0.borrow_mut().devices.append(&mut devices);
    assert!(adapter.init().is_ok());
    sim.0.borrow_mut().devices.iter_mut().for_each(|d| d.mirror_ir = true);
    assert_eq!(adapter.select_tap(1), Ok(()));
    assert!(adapter.shift_ir(0b0110, 4).is_ok());
    assert_eq!(adapter.shift_ir(0b1001, 4), Ok(0b0110));
    assert_eq!(adapter.shift_ir(0b1111, 4), Ok(0b1001));
}

#[test]
fn access_shifts_only_the_lowest_bits_of_the_value() {
    let sim = Sim::new(vec![Device::new(4, None, 4)]);
    let mut adapter = JtagAdapter::new(sim.clone());
    assert!(adapter.init().is_ok());
    assert!(adapter.shift_ir(0, 4).is_ok());
    assert!(adapter.shift_dr(0xabcd, 4).is_ok());
    assert_eq!(adapter.shift_dr(0, 4), Ok(0xd));
}

#[test]
fn failing_line_in_the_middle_of_a_shift() {
    let sim = Sim::new(three_devices());
    let mut adapter = JtagAdapter::new(sim.clone());
    assert!(adapter.init().is_ok());
    assert_eq!(adapter.select_tap(1), Ok(()));
    assert!(adapter.shift_ir(0, 4).is_ok());
    assert!(adapter.shift_dr(0x77, 8).is_ok());
    sim.forget();
    // Into Shift takes three pulses, the filler one: the failure is on the
    // third payload bit.
    sim.fail_at_call(6);
    assert_eq!(adapter.shift_dr(0x12, 8), Err(Error::Pin));
    assert_eq!(sim.pulses().len(), 6);
    assert_eq!(adapter.state(), TapState::Shift);
    // Nothing of the two bits sampled shows up later.
    assert!(adapter.init().is_ok());
    assert_eq!(adapter.select_tap(1), Ok(()));
    assert!(adapter.shift_ir(0, 4).is_ok());
    assert!(adapter.shift_dr(0x81, 8).is_ok());
    assert_eq!(adapter.shift_dr(0, 8), Ok(0x81));
}

#[test]
fn failing_line_at_every_pulse_of_an_access() {
    for call in 0..(4 + 2 + 4 + 3 + 2) {
        let sim = Sim::new(three_devices());
        let mut adapter = JtagAdapter::new(sim.clone());
        assert!(adapter.init().is_ok());
        assert_eq!(adapter.select_tap(1), Ok(()));
        sim.forget();
        sim.fail_at_call(call);
        assert_eq!(adapter.shift_ir(0b1010, 4), Err(Error::Pin));
        assert_eq!(sim.pulses().len(), call);
        assert_eq!(adapter.topology().selected(), 1);
        assert_eq!(adapter.topology().taps(), &vec![2u8, 4, 3]);
    }
}

#[test]
fn failing_line_during_bring_up() {
    let whole = {
        let sim = Sim::new(three_devices());
        let mut adapter = JtagAdapter::new(sim.clone());
        assert!(adapter.init().is_ok());
        sim.pulses().len()
    };
    assert_eq!(whole, 6 + 3 + 4 * 32 + 3 + 4 + 11 + 3);
    for call in [0, 5, 6, 8, 9, 40, 137, 139, 140, 144, 150, 155, 157] {
        let sim = Sim::new(three_devices());
        let mut adapter = JtagAdapter::new(sim.clone());
        sim.fail_at_call(call);
        assert_eq!(adapter.init(), Err(Error::Pin));
        assert_eq!(sim.pulses().len(), call);
        // A second bring-up finds the chain.
        assert_eq!(adapter.init().map(|ids| ids.len()), Ok(3));
        assert_eq!(adapter.topology().taps(), &vec![2u8, 4, 3]);
    }
}

#[test]
fn failing_line_during_reset() {
    let sim = Sim::new(three_devices());
    let mut adapter = JtagAdapter::new(sim.clone());
    sim.fail_at_call(3);
    assert_eq!(adapter.reset_idle(), Err(Error::Pin));
    assert_eq!(adapter.state(), TapState::Unknown);
    assert_eq!(sim.pulses().len(), 3);
}

#[test]
fn shift_bits_shifts_one_pulse_for_each_index() {
    let mut sim = Sim::new(vec![Device::new(4, Some(0x4ba0_0477), 8)]);
    let tdi = [true, false, true];
    let tms = [false, false, true];
    assert_eq!(sim.shift_bits(&tdi, &tms, None), Ok(()));
    assert_eq!(sim.pulses(), quiet(&[(true, false), (false, false), (true, true)]));
}

#[test]
fn shift_bits_stores_sample_i_at_index_i() {
    let mut sim = Sim::new(vec![Device::new(4, Some(0x4ba0_0477), 8)]);
    let mut adapter_free = sim.clone();
    // Reset, then into the data registers, where the code stands.
    let high = [true; 6];
    assert_eq!(
        adapter_free.shift_bits(&high, &[true, true, true, true, true, false], None),
        Ok(())
    );
    assert_eq!(sim.shift_bits(&high[..3], &[true, false, false], None), Ok(()));
    let mut samples = [false; 8];
    assert_eq!(sim.shift_bits(&[true; 8], &[false; 8], Some(&mut samples)), Ok(()));
    assert_eq!(to_value(&samples), 0x77);
}

#[test]
fn shift_bits_stops_at_the_first_failure() {
    let mut sim = Sim::new(Vec::new());
    sim.fail_at_call(2);
    let mut samples = [false; 4];
    assert_eq!(sim.shift_bits(&[true; 4], &[false; 4], Some(&mut samples)), Err(Error::Pin));
    assert_eq!(sim.pulses().len(), 2);
    assert_eq!(samples, [true, true, false, false]);
}

#[test]
fn shift_bits_keeps_the_slots_from_the_failure_on() {
    let mut sim = Sim::new(Vec::new());
    sim.fail_at_call(1);
    let mut samples = [false, true, false, true];
    assert_eq!(sim.shift_bits(&[true; 4], &[false; 4], Some(&mut samples)), Err(Error::Pin));
    assert_eq!(sim.pulses().len(), 1);
    assert_eq!(samples, [true, true, false, true]);
}

#[test]
fn bring_up_keeps_the_selection() {
    let sim = Sim::new(three_devices());
    let mut adapter = JtagAdapter::new(sim.clone());
    assert!(adapter.init().is_ok());
    assert_eq!(adapter.select_tap(1), Ok(()));
    assert!(adapter.init().is_ok());
    assert_eq!(adapter.topology().selected(), 1);
    assert_eq!(adapter.topology().fill(true, true), 2);
    assert_eq!(adapter.topology().fill(false, true), 3);
    // The next access goes to the device that was selected.
    assert!(adapter.shift_ir(0b1010, 4).is_ok());
    assert_eq!(sim.0.borrow().devices[1].inst, 0b1010);
}

#[test]
fn bring_up_after_a_failed_access_keeps_the_selection() {
    let sim = Sim::new(three_devices());
    let mut adapter = JtagAdapter::new(sim.clone());
    assert!(adapter.init().is_ok());
    assert_eq!(adapter.select_tap(2), Ok(()));
    sim.fail_at_call(5);
    assert_eq!(adapter.shift_dr(0x12, 8), Err(Error::Pin));
    assert!(adapter.init().is_ok());
    assert_eq!(adapter.topology().selected(), 2);
    assert_eq!(adapter.topology().fill(true, true), 6);
    assert_eq!(adapter.topology().fill(false, true), 0);
}

#[test]
fn bring_up_works_out_the_filler_for_the_chain_found() {
    let sim = Sim::new(three_devices());
    let mut adapter = JtagAdapter::new(sim.clone());
    assert!(adapter.init().is_ok());
    assert_eq!(adapter.select_tap(1), Ok(()));
    {
        let mut bench = sim.0.borrow_mut();
        bench.devices =
            vec![Device::new(3, None, 8), Device::new(5, None, 8), Device::new(2, None, 8)];
    }
    assert!(adapter.init().is_ok());
    assert_eq!(adapter.topology().taps(), &vec![3u8, 5, 2]);
    assert_eq!(adapter.topology().selected(), 1);
    assert_eq!(adapter.topology().fill(true, true), 3);
    assert_eq!(adapter.topology().fill(false, true), 2);
}

#[test]
fn bring_up_selects_the_first_device_where_the_selected_one_is_gone() {
    let sim = Sim::new(three_devices());
    let mut adapter = JtagAdapter::new(sim.clone());
    assert!(adapter.init().is_ok());
    assert_eq!(adapter.select_tap(2), Ok(()));
    sim.0.borrow_mut().devices.truncate(2);
    assert!(adapter.init().is_ok());
    assert_eq!(adapter.topology().taps(), &vec![2u8, 4]);
    assert_eq!(adapter.topology().selected(), 0);
    assert_eq!(adapter.topology().fill(true, true), 0);
    assert_eq!(adapter.topology().fill(false, true), 4);
    sim.0.borrow_mut().devices.clear();
    assert!(adapter.init().is_ok());
    assert_eq!(adapter.topology().len(), 0);
    assert_eq!(adapter.topology().selected(), 0);
}

#[test]
fn bring_up_that_fails_in_the_scan_keeps_the_record() {
    let sim = Sim::new(three_devices());
    let mut adapter = JtagAdapter::new(sim.clone());
    assert!(adapter.init().is_ok());
    assert_eq!(adapter.select_tap(1), Ok(()));
    sim.0.borrow_mut().devices.truncate(1);
    sim.fail_at_call(6 + 3 + 2 * 32 + 3 + 4 + 1);
    assert_eq!(adapter.init(), Err(Error::Pin));
    assert_eq!(adapter.topology().taps(), &vec![2u8, 4, 3]);
    assert_eq!(adapter.topology().selected(), 1);
}
