//! The exclusive-access operations, driven by a port that plays back a
//! script of outcomes and records every call made on it.

use embedded_serial::{
    MutBlockingRx, MutBlockingRxWithTimeout, MutBlockingTx, MutBlockingTxWithTimeout,
    MutNonBlockingRx, MutNonBlockingTx,
};
use std::collections::VecDeque;

/// What the next single-octet call does.
#[derive(Clone, Copy, Debug, PartialEq)]
enum Step {
    /// It moves an octet; a receive hands over this one.
    Move(u8),
    /// It gives up: time ran out, or there was no room or no octet.
    Idle,
    /// It fails with this error code.
    Fail(u16),
}

/// A port that does what its script says, one step per call, and panics on
/// a call that the script does not cover.
struct Scripted {
    script: VecDeque<Step>,
    sent: Vec<u8>,
    timeouts: Vec<u32>,
    calls: usize,
}

impl Scripted {
    fn new(script: &[Step]) -> Scripted {
        Scripted {
            script: script.iter().copied().collect(),
            sent: Vec::new(),
            timeouts: Vec::new(),
            calls: 0,
        }
    }

    fn accepting(count: usize) -> Scripted {
        Scripted::new(&vec![Step::Move(0); count])
    }

    fn next(&mut self) -> Step {
        self.calls += 1;
        match self.script.pop_front() {
            Some(step) => step,
            None => panic!("call number {} is not in the script", self.calls),
        }
    }

    fn put(&mut self, ch: u8) -> Result<Option<u8>, u16> {
        match self.next() {
            Step::Move(_) => {
                self.sent.push(ch);
                Ok(Some(ch))
            }
            Step::Idle => Ok(None),
            Step::Fail(code) => Err(code),
        }
    }

    fn get(&mut self) -> Result<Option<u8>, u16> {
        match self.next() {
            Step::Move(octet) => Ok(Some(octet)),
            Step::Idle => Ok(None),
            Step::Fail(code) => Err(code),
        }
    }
}

impl MutBlockingTx for Scripted {
    type Error = u16;

    fn putc(&mut self, ch: u8) -> Result<(), u16> {
        match self.put(ch) {
            Ok(Some(_)) => Ok(()),
            Ok(None) => unreachable!("a blocking call does not give up"),
            Err(code) => Err(code),
        }
    }
}

impl MutBlockingTxWithTimeout for Scripted {
    type Timeout = u32;
    type Error = u16;

    fn putc_wait(&mut self, ch: u8, timeout: &u32) -> Result<Option<u8>, u16> {
        self.timeouts.push(*timeout);
        self.put(ch)
    }
}

impl MutNonBlockingTx for Scripted {
    type Error = u16;

    fn putc_try(&mut self, ch: u8) -> Result<Option<u8>, u16> {
        self.put(ch)
    }
}

impl MutBlockingRx for Scripted {
    type Error = u16;

    fn getc(&mut self) -> Result<u8, u16> {
        match self.get() {
            Ok(Some(octet)) => Ok(octet),
            Ok(None) => unreachable!("a blocking call does not give up"),
            Err(code) => Err(code),
        }
    }
}

impl MutBlockingRxWithTimeout for Scripted {
    type Timeout = u32;
    type Error = u16;

    fn getc_wait(&mut self, timeout: &u32) -> Result<Option<u8>, u16> {
        self.timeouts.push(*timeout);
        self.get()
    }
}

impl MutNonBlockingRx for Scripted {
    type Error = u16;

    fn getc_try(&mut self) -> Result<Option<u8>, u16> {
        self.get()
    }
}

// Blocking transmit.

#[test]
fn puts_sends_every_octet_in_order() {
    let mut port = Scripted::accepting(3);
    assert_eq!(port.puts(b"AT\n"), Ok(()));
    assert_eq!(port.sent, vec![b'A', b'T', b'\n']);
    assert_eq!(port.calls, 3);
}

#[test]
fn puts_of_nothing_makes_no_call() {
    let mut port = Scripted::new(&[]);
    assert_eq!(port.puts(&[]), Ok(()));
    assert_eq!(port.calls, 0);
    assert!(port.sent.is_empty());
}

#[test]
fn puts_reports_the_octets_before_the_failure() {
    let mut port = Scripted::new(&[Step::Move(0), Step::Move(0), Step::Fail(7)]);
    assert_eq!(port.puts(&[10, 20, 30, 40, 50]), Err((2, 7)));
    assert_eq!(port.sent, vec![10, 20]);
    assert_eq!(port.calls, 3);
}

#[test]
fn puts_failing_on_the_first_octet_reports_zero() {
    let mut port = Scripted::new(&[Step::Fail(404)]);
    assert_eq!(port.puts(&[1, 2, 3]), Err((0, 404)));
    assert!(port.sent.is_empty());
    assert_eq!(port.calls, 1);
}

#[test]
fn puts_failing_on_the_last_octet_reports_all_but_one() {
    let mut port = Scripted::new(&[Step::Move(0), Step::Move(0), Step::Fail(9)]);
    assert_eq!(port.puts(&[1, 2, 3]), Err((2, 9)));
    assert_eq!(port.sent, vec![1, 2]);
    assert_eq!(port.calls, 3);
}

#[test]
fn puts_fails_at_every_position_with_the_count_before_it() {
    let data: [u8; 6] = [11, 22, 33, 44, 55, 66];
    for k in 1..=data.len() {
        let mut script = vec![Step::Move(0); k - 1];
        script.push(Step::Fail(k as u16));
        let mut port = Scripted::new(&script);
        assert_eq!(port.puts(&data), Err((k - 1, k as u16)));
        assert_eq!(port.sent, data[..k - 1].to_vec());
        assert_eq!(port.calls, k);
    }
}

// Transmit with a timeout.

#[test]
fn puts_wait_sends_every_octet_in_order() {
    let mut port = Scripted::accepting(3);
    assert_eq!(port.puts_wait(b"AT\n", &250), Ok(3));
    assert_eq!(port.sent, vec![b'A', b'T', b'\n']);
    assert_eq!(port.calls, 3);
}

#[test]
fn puts_wait_hands_the_same_timeout_to_every_call() {
    let mut port = Scripted::accepting(4);
    assert_eq!(port.puts_wait(&[1, 2, 3, 4], &1500), Ok(4));
    assert_eq!(port.timeouts, vec![1500, 1500, 1500, 1500]);
}

#[test]
fn puts_wait_of_nothing_makes_no_call() {
    let mut port = Scripted::new(&[]);
    assert_eq!(port.puts_wait(&[], &250), Ok(0));
    assert_eq!(port.calls, 0);
}

#[test]
fn puts_wait_stops_at_the_timeout() {
    let mut port = Scripted::new(&[Step::Move(0), Step::Move(0), Step::Idle]);
    assert_eq!(port.puts_wait(&[10, 20, 30, 40, 50], &250), Ok(2));
    assert_eq!(port.sent, vec![10, 20]);
    assert_eq!(port.calls, 3);
}

#[test]
fn puts_wait_timing_out_at_once_reports_zero() {
    let mut port = Scripted::new(&[Step::Idle]);
    assert_eq!(port.puts_wait(&[10, 20], &250), Ok(0));
    assert!(port.sent.is_empty());
    assert_eq!(port.calls, 1);
}

#[test]
fn puts_wait_timing_out_on_the_last_octet_reports_all_but_one() {
    let mut port = Scripted::new(&[Step::Move(0), Step::Idle]);
    assert_eq!(port.puts_wait(&[10, 20], &250), Ok(1));
    assert_eq!(port.sent, vec![10]);
    assert_eq!(port.calls, 2);
}

#[test]
fn puts_wait_times_out_at_every_position_with_the_count_before_it() {
    let data: [u8; 5] = [1, 2, 3, 4, 5];
    for k in 1..=data.len() {
        let mut script = vec![Step::Move(0); k - 1];
        script.push(Step::Idle);
        let mut port = Scripted::new(&script);
        assert_eq!(port.puts_wait(&data, &7), Ok(k - 1));
        assert_eq!(port.sent, data[..k - 1].to_vec());
        assert_eq!(port.calls, k);
    }
}

#[test]
fn puts_wait_reports_the_octets_before_the_failure() {
    let mut port = Scripted::new(&[Step::Move(0), Step::Fail(3)]);
    assert_eq!(port.puts_wait(&[10, 20, 30], &250), Err((1, 3)));
    assert_eq!(port.sent, vec![10]);
    assert_eq!(port.calls, 2);
}

// Transmit that never blocks.

#[test]
fn puts_try_sends_every_octet_in_order() {
    let mut port = Scripted::accepting(3);
    assert_eq!(port.puts_try(b"AT\n"), Ok(3));
    assert_eq!(port.sent, vec![b'A', b'T', b'\n']);
    assert_eq!(port.calls, 3);
}

#[test]
fn puts_try_of_nothing_makes_no_call() {
    let mut port = Scripted::new(&[]);
    assert_eq!(port.puts_try(&[]), Ok(0));
    assert_eq!(port.calls, 0);
}

#[test]
fn puts_try_stops_when_the_buffer_is_full() {
    let mut port = Scripted::new(&[Step::Move(0), Step::Move(0), Step::Move(0), Step::Idle]);
    assert_eq!(port.puts_try(&[1, 2, 3, 4, 5, 6]), Ok(3));
    assert_eq!(port.sent, vec![1, 2, 3]);
    assert_eq!(port.calls, 4);
}

#[test]
fn puts_try_reports_the_octets_before_the_failure() {
    let mut port = Scripted::new(&[Step::Move(0), Step::Move(0), Step::Fail(5)]);
    assert_eq!(port.puts_try(&[1, 2, 3, 4]), Err((2, 5)));
    assert_eq!(port.sent, vec![1, 2]);
    assert_eq!(port.calls, 3);
}

#[test]
fn puts_try_resumed_at_the_reported_offset_sends_each_octet_once() {
    let data: Vec<u8> = (0u8..10).collect();
    // Room for three, then none, then for two, then for all that is left.
    let mut port = Scripted::new(&[
        Step::Move(0),
        Step::Move(0),
        Step::Move(0),
        Step::Idle,
        Step::Idle,
        Step::Move(0),
        Step::Move(0),
        Step::Idle,
        Step::Move(0),
        Step::Move(0),
        Step::Move(0),
        Step::Move(0),
        Step::Move(0),
    ]);
    let mut offset: usize = 0;
    let mut reports: Vec<usize> = Vec::new();
    while offset < data.len() {
        let sent = port.puts_try(&data[offset..]).unwrap();
        reports.push(sent);
        offset += sent;
    }
    assert_eq!(reports, vec![3, 0, 2, 5]);
    assert_eq!(offset, 10);
    assert_eq!(port.sent, data);
    assert_eq!(port.calls, 13);
}

#[test]
fn puts_try_resumed_after_a_failure_goes_on_behind_the_reported_count() {
    let data: [u8; 4] = [9, 8, 7, 6];
    let mut port = Scripted::new(&[
        Step::Move(0),
        Step::Fail(1),
        Step::Move(0),
        Step::Move(0),
        Step::Move(0),
    ]);
    assert_eq!(port.puts_try(&data), Err((1, 1)));
    assert_eq!(port.puts_try(&data[1..]), Ok(3));
    assert_eq!(port.sent, vec![9, 8, 7, 6]);
}

// Blocking receive.

#[test]
fn gets_fills_the_buffer_front_to_back() {
    let mut port = Scripted::new(&[Step::Move(b'O'), Step::Move(b'K'), Step::Move(b'\n')]);
    let mut buffer = [0u8; 3];
    assert_eq!(port.gets(&mut buffer), Ok(()));
    assert_eq!(buffer, [b'O', b'K', b'\n']);
    assert_eq!(port.calls, 3);
}

#[test]
fn gets_into_no_slots_makes_no_call() {
    let mut port = Scripted::new(&[]);
    let mut buffer = [0u8; 0];
    assert_eq!(port.gets(&mut buffer), Ok(()));
    assert_eq!(port.calls, 0);
}

#[test]
fn gets_reports_the_slots_before_the_failure_and_leaves_the_rest() {
    let mut port = Scripted::new(&[Step::Move(1), Step::Move(2), Step::Fail(77)]);
    let mut buffer = [0xAAu8; 5];
    assert_eq!(port.gets(&mut buffer), Err((2, 77)));
    assert_eq!(buffer, [1, 2, 0xAA, 0xAA, 0xAA]);
    assert_eq!(port.calls, 3);
}

#[test]
fn gets_failing_on_the_first_slot_leaves_the_buffer() {
    let mut port = Scripted::new(&[Step::Fail(1)]);
    let mut buffer = [5u8, 6, 7];
    assert_eq!(port.gets(&mut buffer), Err((0, 1)));
    assert_eq!(buffer, [5, 6, 7]);
    assert_eq!(port.calls, 1);
}

// Receive with a timeout.

#[test]
fn gets_wait_fills_the_buffer_front_to_back() {
    let mut port = Scripted::new(&[Step::Move(4), Step::Move(5), Step::Move(6)]);
    let mut buffer = [0u8; 3];
    assert_eq!(port.gets_wait(&mut buffer, &100), Ok(3));
    assert_eq!(buffer, [4, 5, 6]);
    assert_eq!(port.timeouts, vec![100, 100, 100]);
}

#[test]
fn gets_wait_into_no_slots_makes_no_call() {
    let mut port = Scripted::new(&[]);
    let mut buffer = [0u8; 0];
    assert_eq!(port.gets_wait(&mut buffer, &100), Ok(0));
    assert_eq!(port.calls, 0);
}

#[test]
fn gets_wait_stops_at_the_timeout_and_leaves_the_rest() {
    let mut port = Scripted::new(&[Step::Move(4), Step::Idle]);
    let mut buffer = [0xFFu8; 4];
    assert_eq!(port.gets_wait(&mut buffer, &100), Ok(1));
    assert_eq!(buffer, [4, 0xFF, 0xFF, 0xFF]);
    assert_eq!(port.calls, 2);
}

#[test]
fn gets_wait_reports_the_slots_before_the_failure() {
    let mut port = Scripted::new(&[Step::Move(4), Step::Move(5), Step::Fail(2)]);
    let mut buffer = [0u8; 4];
    assert_eq!(port.gets_wait(&mut buffer, &100), Err((2, 2)));
    assert_eq!(buffer, [4, 5, 0, 0]);
    assert_eq!(port.calls, 3);
}

// Receive that never blocks.

#[test]
fn gets_try_fills_the_buffer_front_to_back() {
    let mut port = Scripted::new(&[Step::Move(4), Step::Move(5)]);
    let mut buffer = [0u8; 2];
    assert_eq!(port.gets_try(&mut buffer), Ok(2));
    assert_eq!(buffer, [4, 5]);
    assert_eq!(port.calls, 2);
}

#[test]
fn gets_try_into_no_slots_makes_no_call() {
    let mut port = Scripted::new(&[]);
    let mut buffer = [0u8; 0];
    assert_eq!(port.gets_try(&mut buffer), Ok(0));
    assert_eq!(port.calls, 0);
}

#[test]
fn gets_try_stops_when_the_data_runs_out() {
    let mut port = Scripted::new(&[Step::Move(1), Step::Move(2), Step::Move(3), Step::Idle]);
    let mut buffer = [0u8; 8];
    assert_eq!(port.gets_try(&mut buffer), Ok(3));
    assert_eq!(buffer, [1, 2, 3, 0, 0, 0, 0, 0]);
    assert_eq!(port.calls, 4);
}

#[test]
fn gets_try_reports_the_slots_before_the_failure() {
    let mut port = Scripted::new(&[Step::Fail(6)]);
    let mut buffer = [3u8; 2];
    assert_eq!(port.gets_try(&mut buffer), Err((0, 6)));
    assert_eq!(buffer, [3, 3]);
    assert_eq!(port.calls, 1);
}

#[test]
fn gets_try_resumed_at_the_reported_offset_collects_every_octet_once() {
    let mut port = Scripted::new(&[
        Step::Move(1),
        Step::Move(2),
        Step::Idle,
        Step::Idle,
        Step::Move(3),
        Step::Move(4),
        Step::Move(5),
    ]);
    let mut buffer = [0u8; 5];
    let mut filled: usize = 0;
    let mut reports: Vec<usize> = Vec::new();
    while filled < buffer.len() {
        let read = port.gets_try(&mut buffer[filled..]).unwrap();
        reports.push(read);
        filled += read;
    }
    assert_eq!(reports, vec![2, 0, 3]);
    assert_eq!(buffer, [1, 2, 3, 4, 5]);
    assert_eq!(port.calls, 7);
}
