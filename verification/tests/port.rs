use embedded_hal::delay::DelayNs;
use embedded_hal::digital::{ErrorKind, ErrorType, InputPin, OutputPin};
use jtag::error::Error;
use jtag::pins::{JtagIo, DEFAULT_HALF_PERIOD, SETTLE};
use std::cell::RefCell;
use std::rc::Rc;

#[derive(Debug, Clone, Copy, PartialEq, Eq)]
enum Event {
    Clock(bool),
    Mode(bool),
    Data(bool),
    Wait(u32),
    Sample(bool),
}

#[derive(Debug)]
struct Broken;

impl embedded_hal::digital::Error for Broken {
    fn kind(&self) -> ErrorKind {
        ErrorKind::Other
    }
}

/// What the pins and the timer of one test share: what was done, the level
/// of data out, and the count of pin operations after which one fails.
struct Board {
    log: Vec<Event>,
    level: bool,
    pin_calls: usize,
    fail_at: Option<usize>,
}

impl Board {
    fn pin_call(&mut self) -> Result<(), Broken> {
        let call = self.pin_calls;
        self.pin_calls += 1;
        if self.fail_at == Some(call) {
            Err(Broken)
        } else {
            Ok(())
        }
    }
}

#[derive(Clone, Copy)]
enum Line {
    Clock,
    Mode,
    Data,
}

struct Out(Rc<RefCell<Board>>, Line);

impl Out {
    fn set(&mut self, high: bool) -> Result<(), Broken> {
        let mut board = self.0.borrow_mut();
        board.pin_call()?;
        let event = match self.1 {
            Line::Clock => Event::Clock(high),
            Line::Mode => Event::Mode(high),
            Line::Data => Event::Data(high),
        };
        board.log.push(event);
        Ok(())
    }
}

impl ErrorType for Out {
    type Error = Broken;
}

impl OutputPin for Out {
    fn set_low(&mut self) -> Result<(), Broken> {
        self.set(false)
    }

    fn set_high(&mut self) -> Result<(), Broken> {
        self.set(true)
    }
}

struct In(Rc<RefCell<Board>>);

impl ErrorType for In {
    type Error = Broken;
}

impl InputPin for In {
    fn is_high(&mut self) -> Result<bool, Broken> {
        let mut board = self.0.borrow_mut();
        board.pin_call()?;
        let level = board.level;
        board.log.push(Event::Sample(level));
        Ok(level)
    }

    fn is_low(&mut self) -> Result<bool, Broken> {
        self.is_high().map(|level| !level)
    }
}

struct Timer(Rc<RefCell<Board>>);

impl DelayNs for Timer {
    fn delay_ns(&mut self, ns: u32) {
        self.0.borrow_mut().log.push(Event::Wait(ns));
    }
}

fn board(level: bool) -> Rc<RefCell<Board>> {
    Rc::new(RefCell::new(Board { log: Vec::new(), level, pin_calls: 0, fail_at: None }))
}

fn lines(board: &Rc<RefCell<Board>>) -> (Out, Out, Out, In, Timer) {
    (
        Out(board.clone(), Line::Clock),
        Out(board.clone(), Line::Mode),
        Out(board.clone(), Line::Data),
        In(board.clone()),
        Timer(board.clone()),
    )
}

#[test]
fn default_timing() {
    assert_eq!(DEFAULT_HALF_PERIOD, 33);
    assert_eq!(SETTLE, 1);
}

#[test]
fn pulse_without_a_sample() {
    let board = board(true);
    let mut io = JtagIo::new(lines(&board));
    assert_eq!(io.shift_bit(true, false, None), Ok(()));
    assert_eq!(
        board.borrow().log,
        vec![
            Event::Clock(false),
            Event::Mode(false),
            Event::Data(true),
            Event::Wait(33),
            Event::Clock(true),
            Event::Wait(1),
            Event::Wait(33),
        ]
    );
}

#[test]
fn pulse_with_a_sample() {
    let board = board(true);
    let mut io = JtagIo::new(lines(&board));
    let mut seen = false;
    assert_eq!(io.shift_bit(false, true, Some(&mut seen)), Ok(()));
    assert!(seen);
    assert_eq!(
        board.borrow().log,
        vec![
            Event::Clock(false),
            Event::Mode(true),
            Event::Data(false),
            Event::Wait(33),
            Event::Clock(true),
            Event::Wait(1),
            Event::Sample(true),
            Event::Wait(33),
        ]
    );
}

#[test]
fn pulse_samples_the_level_of_the_line() {
    let board = board(false);
    let mut io = JtagIo::new(lines(&board));
    let mut seen = true;
    assert_eq!(io.shift_bit(true, true, Some(&mut seen)), Ok(()));
    assert!(!seen);
    board.borrow_mut().level = true;
    assert_eq!(io.shift_bit(true, true, Some(&mut seen)), Ok(()));
    assert!(seen);
}

#[test]
fn pulse_with_another_half_period() {
    let board = board(true);
    let mut io = JtagIo::with_half_period(lines(&board), 500);
    assert_eq!(io.shift_bit(true, true, None), Ok(()));
    let waits: Vec<Event> =
        board.borrow().log.iter().copied().filter(|e| matches!(e, Event::Wait(_))).collect();
    assert_eq!(waits, vec![Event::Wait(500), Event::Wait(1), Event::Wait(500)]);
}

#[test]
fn pulses_follow_one_another() {
    let board = board(true);
    let mut io = JtagIo::new(lines(&board));
    assert_eq!(io.shift_bit(true, false, None), Ok(()));
    assert_eq!(io.shift_bit(false, true, None), Ok(()));
    let log = board.borrow().log.clone();
    assert_eq!(log.len(), 14);
    assert_eq!(log[7..10], [Event::Clock(false), Event::Mode(true), Event::Data(false)]);
}

#[test]
fn pulse_ends_at_the_line_that_fails() {
    let whole = vec![
        Event::Clock(false),
        Event::Mode(true),
        Event::Data(true),
        Event::Wait(33),
        Event::Clock(true),
        Event::Wait(1),
    ];
    // The pin operations are clock low, mode select, data in, clock high
    // and the sample; before each stands this much of the pulse.
    for (call, done) in [(0, 0), (1, 1), (2, 2), (3, 4), (4, 6)] {
        let board = board(true);
        board.borrow_mut().fail_at = Some(call);
        let mut io = JtagIo::new(lines(&board));
        let mut seen = false;
        assert_eq!(io.shift_bit(true, true, Some(&mut seen)), Err(Error::Pin));
        assert!(!seen);
        assert_eq!(board.borrow().log, whole[..done].to_vec());
    }
}

#[test]
fn pulse_after_a_failure() {
    let board = board(true);
    board.borrow_mut().fail_at = Some(1);
    let mut io = JtagIo::new(lines(&board));
    assert_eq!(io.shift_bit(true, true, None), Err(Error::Pin));
    board.borrow_mut().log.clear();
    assert_eq!(io.shift_bit(true, true, None), Ok(()));
    assert_eq!(board.borrow().log.len(), 7);
}

#[test]
fn pulse_that_fails_at_the_sample_keeps_the_slot() {
    let board = board(true);
    board.borrow_mut().fail_at = Some(4);
    let mut io = JtagIo::new(lines(&board));
    let mut seen = false;
    assert_eq!(io.shift_bit(true, false, Some(&mut seen)), Err(Error::Pin));
    assert!(!seen);
    let mut kept = true;
    board.borrow_mut().level = false;
    board.borrow_mut().fail_at = Some(5 + 4);
    assert_eq!(io.shift_bit(true, false, Some(&mut kept)), Err(Error::Pin));
    assert!(kept);
}
