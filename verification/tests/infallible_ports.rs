//! Ports whose error type has no value: no call on them can report an
//! error, so every operation ends on its success path.

use embedded_serial::{
    ImmutBlockingRx, ImmutBlockingRxWithTimeout, ImmutBlockingTx, ImmutBlockingTxWithTimeout,
    ImmutNonBlockingRx, ImmutNonBlockingTx, MutBlockingRx, MutBlockingRxWithTimeout,
    MutBlockingTx, MutBlockingTxWithTimeout, MutNonBlockingRx, MutNonBlockingTx,
};
use std::cell::Cell;
use std::convert::Infallible;

/// A port that counts what it sends, hands out a running count when read,
/// and gives up on every call once it has moved `room` octets.
struct Counter {
    moved: usize,
    room: usize,
}

impl Counter {
    fn step(&mut self) -> Option<u8> {
        if self.moved < self.room {
            self.moved += 1;
            Some(self.moved as u8)
        } else {
            None
        }
    }
}

impl MutBlockingTx for Counter {
    type Error = Infallible;

    fn putc(&mut self, _ch: u8) -> Result<(), Infallible> {
        self.moved += 1;
        Ok(())
    }
}

impl MutBlockingTxWithTimeout for Counter {
    type Timeout = u8;
    type Error = Infallible;

    fn putc_wait(&mut self, ch: u8, _timeout: &u8) -> Result<Option<u8>, Infallible> {
        Ok(self.step().map(|_| ch))
    }
}

impl MutNonBlockingTx for Counter {
    type Error = Infallible;

    fn putc_try(&mut self, ch: u8) -> Result<Option<u8>, Infallible> {
        Ok(self.step().map(|_| ch))
    }
}

impl MutBlockingRx for Counter {
    type Error = Infallible;

    fn getc(&mut self) -> Result<u8, Infallible> {
        self.moved += 1;
        Ok(self.moved as u8)
    }
}

impl MutBlockingRxWithTimeout for Counter {
    type Timeout = u8;
    type Error = Infallible;

    fn getc_wait(&mut self, _timeout: &u8) -> Result<Option<u8>, Infallible> {
        Ok(self.step())
    }
}

impl MutNonBlockingRx for Counter {
    type Error = Infallible;

    fn getc_try(&mut self) -> Result<Option<u8>, Infallible> {
        Ok(self.step())
    }
}

/// The same port behind a shared reference.
struct SharedCounter {
    moved: Cell<usize>,
    room: usize,
}

impl SharedCounter {
    fn new(room: usize) -> SharedCounter {
        SharedCounter { moved: Cell::new(0), room }
    }

    fn step(&self) -> Option<u8> {
        if self.moved.get() < self.room {
            self.moved.set(self.moved.get() + 1);
            Some(self.moved.get() as u8)
        } else {
            None
        }
    }
}

impl ImmutBlockingTx for SharedCounter {
    type Error = Infallible;

    fn putc(&self, _ch: u8) -> Result<(), Infallible> {
        self.moved.set(self.moved.get() + 1);
        Ok(())
    }
}

impl ImmutBlockingTxWithTimeout for SharedCounter {
    type Timeout = u8;
    type Error = Infallible;

    fn putc_wait(&self, ch: u8, _timeout: &u8) -> Result<Option<u8>, Infallible> {
        Ok(self.step().map(|_| ch))
    }
}

impl ImmutNonBlockingTx for SharedCounter {
    type Error = Infallible;

    fn putc_try(&self, ch: u8) -> Result<Option<u8>, Infallible> {
        Ok(self.step().map(|_| ch))
    }
}

impl ImmutBlockingRx for SharedCounter {
    type Error = Infallible;

    fn getc(&self) -> Result<u8, Infallible> {
        self.moved.set(self.moved.get() + 1);
        Ok(self.moved.get() as u8)
    }
}

impl ImmutBlockingRxWithTimeout for SharedCounter {
    type Timeout = u8;
    type Error = Infallible;

    fn getc_wait(&self, _timeout: &u8) -> Result<Option<u8>, Infallible> {
        Ok(self.step())
    }
}

impl ImmutNonBlockingRx for SharedCounter {
    type Error = Infallible;

    fn getc_try(&self) -> Result<Option<u8>, Infallible> {
        Ok(self.step())
    }
}

/// The count of a report that cannot be an error.
fn count(report: Result<usize, (usize, Infallible)>) -> usize {
    match report {
        Ok(count) => count,
        Err((_, never)) => match never {},
    }
}

/// A blocking report that cannot be an error.
fn done(report: Result<(), (usize, Infallible)>) {
    match report {
        Ok(()) => (),
        Err((_, never)) => match never {},
    }
}

const LONGEST: usize = 12;

#[test]
fn blocking_operations_on_an_infallible_port_always_succeed() {
    for len in 0..=LONGEST {
        let data = vec![0x5Au8; len];
        let mut port = Counter { moved: 0, room: 0 };
        done(port.puts(&data));
        assert_eq!(port.moved, len);

        let mut buffer = vec![0u8; len];
        let mut port = Counter { moved: 0, room: 0 };
        done(port.gets(&mut buffer));
        let expected: Vec<u8> = (1..=len as u8).collect();
        assert_eq!(buffer, expected);
    }
}

#[test]
fn polled_sends_on_an_infallible_port_report_what_fitted() {
    for len in 0..=LONGEST {
        for room in 0..=LONGEST + 1 {
            let data = vec![0xA5u8; len];
            let expected: usize = std::cmp::min(len, room);

            let mut port = Counter { moved: 0, room };
            assert_eq!(count(port.puts_wait(&data, &3)), expected);
            assert_eq!(port.moved, expected);

            let mut port = Counter { moved: 0, room };
            assert_eq!(count(port.puts_try(&data)), expected);
            assert_eq!(port.moved, expected);
        }
    }
}

#[test]
fn polled_receives_on_an_infallible_port_report_what_was_there() {
    for len in 0..=LONGEST {
        for room in 0..=LONGEST + 1 {
            let got: usize = std::cmp::min(len, room);
            let mut expected = vec![0u8; len];
            for (i, slot) in expected.iter_mut().enumerate().take(got) {
                *slot = (i + 1) as u8;
            }

            let mut buffer = vec![0u8; len];
            let mut port = Counter { moved: 0, room };
            assert_eq!(count(port.gets_wait(&mut buffer, &3)), got);
            assert_eq!(buffer, expected);

            let mut buffer = vec![0u8; len];
            let mut port = Counter { moved: 0, room };
            assert_eq!(count(port.gets_try(&mut buffer)), got);
            assert_eq!(buffer, expected);
        }
    }
}

#[test]
fn shared_blocking_operations_on_an_infallible_port_always_succeed() {
    for len in 0..=LONGEST {
        let data = vec![0x5Au8; len];
        let port = SharedCounter::new(0);
        done(port.puts(&data));
        assert_eq!(port.moved.get(), len);

        let mut buffer = vec![0u8; len];
        let port = SharedCounter::new(0);
        done(port.gets(&mut buffer));
        let expected: Vec<u8> = (1..=len as u8).collect();
        assert_eq!(buffer, expected);
    }
}

#[test]
fn shared_polled_operations_on_an_infallible_port_report_what_moved() {
    for len in 0..=LONGEST {
        for room in 0..=LONGEST + 1 {
            let data = vec![0xA5u8; len];
            let moved: usize = std::cmp::min(len, room);
            let mut expected = vec![0u8; len];
            for (i, slot) in expected.iter_mut().enumerate().take(moved) {
                *slot = (i + 1) as u8;
            }

            let port = SharedCounter::new(room);
            assert_eq!(count(port.puts_wait(&data, &3)), moved);
            let port = SharedCounter::new(room);
            assert_eq!(count(port.puts_try(&data)), moved);

            let mut buffer = vec![0u8; len];
            let port = SharedCounter::new(room);
            assert_eq!(count(port.gets_wait(&mut buffer, &3)), moved);
            assert_eq!(buffer, expected);

            let mut buffer = vec![0u8; len];
            let port = SharedCounter::new(room);
            assert_eq!(count(port.gets_try(&mut buffer)), moved);
            assert_eq!(buffer, expected);
        }
    }
}
