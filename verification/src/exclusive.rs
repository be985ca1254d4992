//! The contracts that need exclusive access to the port.
//!
//! Each trait has one single-octet call for the port to implement, and a
//! statement `may_...` with which the port says what that call does: which
//! outcome it may return, and how it may leave the port. The multi-octet call
//! is built on these. Its contract names the calls it made: `outs` holds
//! their outcomes, oldest first, and `ports` the port before the first call,
//! between the calls and after the last. It says that each call was made on
//! the octet whose turn it was, that the calls stopped when
//! [`accounting`](crate::accounting) says so, and that the report is the one
//! laid down there for these outcomes.

use crate::accounting::{
    blocking_report, blocking_run, blocking_taken, filled, moved, polled_report, polled_run,
    polled_taken,
};
use vstd::prelude::*;

verus! {

/// Octet based serial transmission that blocks, through `&mut self`.
pub trait MutBlockingTx {
    /// The error that a call reports when it fails.
    type Error;

    /// Whether a call of `putc` with `ch` on this port may return `outcome`
    /// and leave the port as `after`. A port that states nothing allows
    /// everything.
    open spec fn may_putc(&self, ch: u8, outcome: Result<(), Self::Error>, after: &Self) -> bool {
        true
    }

    /// Writes one octet to the port's transmitter, blocking until the octet
    /// can be stored in the buffer (which is not to say that it has been
    /// transmitted).
    fn putc(&mut self, ch: u8) -> (outcome: Result<(), Self::Error>)
        ensures
            old(self).may_putc(ch, outcome, final(self)),
    ;

    /// Writes a whole sequence of octets to the port, in order. `Ok(())`
    /// means that all of it was sent; otherwise the error of the call that
    /// failed comes back with the number of octets sent before it.
    fn puts(&mut self, data: &[u8]) -> (report: Result<(), (usize, Self::Error)>)
        ensures
            (exists|ports: Seq<&Self>, outs: Seq<Result<(), Self::Error>>|
                #![trigger ports.len(), outs.len()]
                {
                    &&& ports.len() == outs.len() + 1
                    &&& ports.first() == &*old(self)
                    &&& ports.last() == &*final(self)
                    &&& blocking_run(outs, data@.len())
                    &&& forall|i: int|
                        0 <= i < outs.len() ==> ports[i].may_putc(
                            data@[i],
                            #[trigger] outs[i],
                            ports[i + 1],
                        )
                    &&& report == blocking_report(outs)
                }),
            report matches Err((count, _)) ==> count < data@.len(),
    {
        let ghost mut ports: Seq<&Self> = seq![&*self];
        let ghost mut outs: Seq<Result<(), Self::Error>> = Seq::empty();
        let mut count: usize = 0;
        while count < data.len()
            invariant
                count <= data@.len(),
                outs.len() == count,
                ports.len() == count + 1,
                ports.first() == &*old(self),
                ports.last() == &*self,
                forall|i: int|
                    0 <= i < outs.len() ==> ports[i].may_putc(
                        data@[i],
                        #[trigger] outs[i],
                        ports[i + 1],
                    ),
                forall|i: int| 0 <= i < outs.len() ==> (#[trigger] outs[i]) is Ok,
            decreases data@.len() - count,
        {
            let outcome = self.putc(data[count]);
            proof {
                outs = outs.push(outcome);
                ports = ports.push(&*self);
                assert(ports.len() == outs.len() + 1);
            }
            match outcome {
                Ok(()) => {},
                Err(e) => {
                    return Err((count, e));
                },
            }
            count = count + 1;
        }
        Ok(())
    }
}

/// Octet based serial transmission that blocks for a bounded time, through
/// `&mut self`.
pub trait MutBlockingTxWithTimeout {
    /// How the caller says how long a call may block.
    type Timeout;

    /// The error that a call reports when it fails.
    type Error;

    /// Whether a call of `putc_wait` with `ch` and `timeout` on this port may
    /// return `outcome` and leave the port as `after`. A port that states
    /// nothing allows everything.
    open spec fn may_putc_wait(
        &self,
        ch: u8,
        timeout: &Self::Timeout,
        outcome: Result<Option<u8>, Self::Error>,
        after: &Self,
    ) -> bool {
        true
    }

    /// Writes one octet to the port's transmitter, blocking until the octet
    /// can be stored in the buffer or the timeout passes. `Ok(Some(ch))`
    /// means that the octet was stored, `Ok(None)` that time ran out first.
    fn putc_wait(&mut self, ch: u8, timeout: &Self::Timeout) -> (outcome: Result<
        Option<u8>,
        Self::Error,
    >)
        ensures
            old(self).may_putc_wait(ch, timeout, outcome, final(self)),
            outcome matches Ok(Some(echo)) ==> echo == ch,
    ;

    /// Writes a sequence of octets to the port, in order, each under the
    /// timeout anew, until one is not stored. `Ok(n)` with `n == data.len()`
    /// means that all of it was sent, `Ok(n)` with a smaller `n` that time
    /// ran out on the octet at `n`, and `Err((n, e))` that the call for that
    /// octet failed with `e`.
    fn puts_wait(&mut self, data: &[u8], timeout: &Self::Timeout) -> (report: Result<
        usize,
        (usize, Self::Error),
    >)
        ensures
            (exists|ports: Seq<&Self>, outs: Seq<Result<Option<u8>, Self::Error>>|
                #![trigger ports.len(), outs.len()]
                {
                    &&& ports.len() == outs.len() + 1
                    &&& ports.first() == &*old(self)
                    &&& ports.last() == &*final(self)
                    &&& polled_run(outs, data@.len())
                    &&& forall|i: int|
                        0 <= i < outs.len() ==> ports[i].may_putc_wait(
                            data@[i],
                            timeout,
                            #[trigger] outs[i],
                            ports[i + 1],
                        )
                    &&& report == polled_report(outs)
                }),
            report matches Ok(count) ==> count <= data@.len(),
            report matches Err((count, _)) ==> count < data@.len(),
    {
        let ghost mut ports: Seq<&Self> = seq![&*self];
        let ghost mut outs: Seq<Result<Option<u8>, Self::Error>> = Seq::empty();
        let mut count: usize = 0;
        while count < data.len()
            invariant
                count <= data@.len(),
                outs.len() == count,
                ports.len() == count + 1,
                ports.first() == &*old(self),
                ports.last() == &*self,
                forall|i: int|
                    0 <= i < outs.len() ==> ports[i].may_putc_wait(
                        data@[i],
                        timeout,
                        #[trigger] outs[i],
                        ports[i + 1],
                    ),
                forall|i: int| 0 <= i < outs.len() ==> moved(#[trigger] outs[i]),
            decreases data@.len() - count,
        {
            let outcome = self.putc_wait(data[count], timeout);
            proof {
                outs = outs.push(outcome);
                ports = ports.push(&*self);
                assert(ports.len() == outs.len() + 1);
            }
            match outcome {
                Err(e) => {
                    return Err((count, e));
                },
                Ok(None) => {
                    return Ok(count);
                },
                Ok(Some(_)) => {},
            }
            count = count + 1;
        }
        Ok(count)
    }
}

/// Octet based serial transmission that never blocks, through `&mut self`.
pub trait MutNonBlockingTx {
    /// The error that a call reports when it fails.
    type Error;

    /// Whether a call of `putc_try` with `ch` on this port may return
    /// `outcome` and leave the port as `after`. A port that states nothing
    /// allows everything.
    open spec fn may_putc_try(
        &self,
        ch: u8,
        outcome: Result<Option<u8>, Self::Error>,
        after: &Self,
    ) -> bool {
        true
    }

    /// Tries to write one octet to the port's transmitter. `Ok(Some(ch))`
    /// means that the octet was stored, `Ok(None)` that the buffer was full:
    /// try again later.
    fn putc_try(&mut self, ch: u8) -> (outcome: Result<Option<u8>, Self::Error>)
        ensures
            old(self).may_putc_try(ch, outcome, final(self)),
            outcome matches Ok(Some(echo)) ==> echo == ch,
    ;

    /// Writes as much of a sequence of octets to the port as it takes now,
    /// in order, and stops at the first octet that is not stored. `Ok(n)`
    /// means that `n` octets were sent, and, where `n < data.len()`, that the
    /// buffer was full for the octet at `n`: the caller goes on from there
    /// later. `Err((n, e))` means that the call for that octet failed with
    /// `e`.
    fn puts_try(&mut self, data: &[u8]) -> (report: Result<usize, (usize, Self::Error)>)
        ensures
            (exists|ports: Seq<&Self>, outs: Seq<Result<Option<u8>, Self::Error>>|
                #![trigger ports.len(), outs.len()]
                {
                    &&& ports.len() == outs.len() + 1
                    &&& ports.first() == &*old(self)
                    &&& ports.last() == &*final(self)
                    &&& polled_run(outs, data@.len())
                    &&& forall|i: int|
                        0 <= i < outs.len() ==> ports[i].may_putc_try(
                            data@[i],
                            #[trigger] outs[i],
                            ports[i + 1],
                        )
                    &&& report == polled_report(outs)
                }),
            report matches Ok(count) ==> count <= data@.len(),
            report matches Err((count, _)) ==> count < data@.len(),
    {
        let ghost mut ports: Seq<&Self> = seq![&*self];
        let ghost mut outs: Seq<Result<Option<u8>, Self::Error>> = Seq::empty();
        let mut count: usize = 0;
        while count < data.len()
            invariant
                count <= data@.len(),
                outs.len() == count,
                ports.len() == count + 1,
                ports.first() == &*old(self),
                ports.last() == &*self,
                forall|i: int|
                    0 <= i < outs.len() ==> ports[i].may_putc_try(
                        data@[i],
                        #[trigger] outs[i],
                        ports[i + 1],
                    ),
                forall|i: int| 0 <= i < outs.len() ==> moved(#[trigger] outs[i]),
            decreases data@.len() - count,
        {
            let outcome = self.putc_try(data[count]);
            proof {
                outs = outs.push(outcome);
                ports = ports.push(&*self);
                assert(ports.len() == outs.len() + 1);
            }
            match outcome {
                Err(e) => {
                    return Err((count, e));
                },
                Ok(None) => {
                    return Ok(count);
                },
                Ok(Some(_)) => {},
            }
            count = count + 1;
        }
        Ok(count)
    }
}

/// Octet based serial reception that blocks, through `&mut self`.
pub trait MutBlockingRx {
    /// The error that a call reports when it fails.
    type Error;

    /// Whether a call of `getc` on this port may return `outcome` and leave
    /// the port as `after`. A port that states nothing allows everything.
    open spec fn may_getc(&self, outcome: Result<u8, Self::Error>, after: &Self) -> bool {
        true
    }

    /// Reads one octet from the port's receiver, blocking until there is
    /// one.
    fn getc(&mut self) -> (outcome: Result<u8, Self::Error>)
        ensures
            old(self).may_getc(outcome, final(self)),
    ;

    /// Fills the buffer front to back, one octet per slot, blocking until
    /// every slot is filled. When a call fails, its error comes back with the
    /// number of slots filled before it, and the other slots are as they
    /// were.
    fn gets(&mut self, buffer: &mut [u8]) -> (report: Result<(), (usize, Self::Error)>)
        ensures
            (exists|ports: Seq<&Self>, outs: Seq<Result<u8, Self::Error>>|
                #![trigger ports.len(), outs.len()]
                {
                    &&& ports.len() == outs.len() + 1
                    &&& ports.first() == &*old(self)
                    &&& ports.last() == &*final(self)
                    &&& blocking_run(outs, old(buffer)@.len())
                    &&& forall|i: int|
                        0 <= i < outs.len() ==> ports[i].may_getc(#[trigger] outs[i], ports[i + 1])
                    &&& report == blocking_report(outs)
                    &&& final(buffer)@ == filled(old(buffer)@, blocking_taken(outs))
                }),
            final(buffer)@.len() == old(buffer)@.len(),
            report matches Err((count, _)) ==> count < old(buffer)@.len(),
    {
        let ghost mut ports: Seq<&Self> = seq![&*self];
        let ghost mut outs: Seq<Result<u8, Self::Error>> = Seq::empty();
        let mut count: usize = 0;
        while count < buffer.len()
            invariant
                count <= buffer@.len(),
                buffer@.len() == old(buffer)@.len(),
                outs.len() == count,
                ports.len() == count + 1,
                ports.first() == &*old(self),
                ports.last() == &*self,
                forall|i: int|
                    0 <= i < outs.len() ==> ports[i].may_getc(#[trigger] outs[i], ports[i + 1]),
                forall|i: int| 0 <= i < outs.len() ==> (#[trigger] outs[i]) is Ok,
                forall|i: int| 0 <= i < count ==> buffer@[i] == (#[trigger] outs[i])->Ok_0,
                forall|i: int| count <= i < buffer@.len() ==> buffer@[i] == old(buffer)@[i],
            decreases buffer@.len() - count,
        {
            let outcome = self.getc();
            proof {
                outs = outs.push(outcome);
                ports = ports.push(&*self);
                assert(ports.len() == outs.len() + 1);
            }
            match outcome {
                Ok(ch) => {
                    buffer[count] = ch;
                },
                Err(e) => {
                    assert(buffer@ =~= filled(old(buffer)@, blocking_taken(outs)));
                    return Err((count, e));
                },
            }
            count = count + 1;
        }
        assert(buffer@ =~= filled(old(buffer)@, blocking_taken(outs)));
        Ok(())
    }
}

/// Octet based serial reception that blocks for a bounded time, through
/// `&mut self`.
pub trait MutBlockingRxWithTimeout {
    /// How the caller says how long a call may block.
    type Timeout;

    /// The error that a call reports when it fails.
    type Error;

    /// Whether a call of `getc_wait` with `timeout` on this port may return
    /// `outcome` and leave the port as `after`. A port that states nothing
    /// allows everything.
    open spec fn may_getc_wait(
        &self,
        timeout: &Self::Timeout,
        outcome: Result<Option<u8>, Self::Error>,
        after: &Self,
    ) -> bool {
        true
    }

    /// Reads one octet from the port's receiver, blocking until there is one
    /// or the timeout passes. `Ok(Some(ch))` is the octet read, `Ok(None)`
    /// means that time ran out first.
    fn getc_wait(&mut self, timeout: &Self::Timeout) -> (outcome: Result<Option<u8>, Self::Error>)
        ensures
            old(self).may_getc_wait(timeout, outcome, final(self)),
    ;

    /// Fills the buffer front to back, one octet per slot, each under the
    /// timeout anew, until a call hands over none. `Ok(n)` with
    /// `n == buffer.len()` means that every slot was filled, `Ok(n)` with a
    /// smaller `n` that time ran out on the slot at `n`, and `Err((n, e))`
    /// that the call for that slot failed with `e`. The slots from `n` on are
    /// as they were.
    fn gets_wait(&mut self, buffer: &mut [u8], timeout: &Self::Timeout) -> (report: Result<
        usize,
        (usize, Self::Error),
    >)
        ensures
            (exists|ports: Seq<&Self>, outs: Seq<Result<Option<u8>, Self::Error>>|
                #![trigger ports.len(), outs.len()]
                {
                    &&& ports.len() == outs.len() + 1
                    &&& ports.first() == &*old(self)
                    &&& ports.last() == &*final(self)
                    &&& polled_run(outs, old(buffer)@.len())
                    &&& forall|i: int|
                        0 <= i < outs.len() ==> ports[i].may_getc_wait(
                            timeout,
                            #[trigger] outs[i],
                            ports[i + 1],
                        )
                    &&& report == polled_report(outs)
                    &&& final(buffer)@ == filled(old(buffer)@, polled_taken(outs))
                }),
            final(buffer)@.len() == old(buffer)@.len(),
            report matches Ok(count) ==> count <= old(buffer)@.len(),
            report matches Err((count, _)) ==> count < old(buffer)@.len(),
    {
        let ghost mut ports: Seq<&Self> = seq![&*self];
        let ghost mut outs: Seq<Result<Option<u8>, Self::Error>> = Seq::empty();
        let mut count: usize = 0;
        while count < buffer.len()
            invariant
                count <= buffer@.len(),
                buffer@.len() == old(buffer)@.len(),
                outs.len() == count,
                ports.len() == count + 1,
                ports.first() == &*old(self),
                ports.last() == &*self,
                forall|i: int|
                    0 <= i < outs.len() ==> ports[i].may_getc_wait(
                        timeout,
                        #[trigger] outs[i],
                        ports[i + 1],
                    ),
                forall|i: int| 0 <= i < outs.len() ==> moved(#[trigger] outs[i]),
                forall|i: int| 0 <= i < count ==> buffer@[i] == (#[trigger] outs[i])->Ok_0->Some_0,
                forall|i: int| count <= i < buffer@.len() ==> buffer@[i] == old(buffer)@[i],
            decreases buffer@.len() - count,
        {
            let outcome = self.getc_wait(timeout);
            proof {
                outs = outs.push(outcome);
                ports = ports.push(&*self);
                assert(ports.len() == outs.len() + 1);
            }
            match outcome {
                Err(e) => {
                    assert(buffer@ =~= filled(old(buffer)@, polled_taken(outs)));
                    return Err((count, e));
                },
                Ok(None) => {
                    assert(buffer@ =~= filled(old(buffer)@, polled_taken(outs)));
                    return Ok(count);
                },
                Ok(Some(ch)) => {
                    buffer[count] = ch;
                },
            }
            count = count + 1;
        }
        assert(buffer@ =~= filled(old(buffer)@, polled_taken(outs)));
        Ok(count)
    }
}

/// Octet based serial reception that never blocks, through `&mut self`.
pub trait MutNonBlockingRx {
    /// The error that a call reports when it fails.
    type Error;

    /// Whether a call of `getc_try` on this port may return `outcome` and
    /// leave the port as `after`. A port that states nothing allows
    /// everything.
    open spec fn may_getc_try(
        &self,
        outcome: Result<Option<u8>, Self::Error>,
        after: &Self,
    ) -> bool {
        true
    }

    /// Tries to read one octet from the port's receiver. `Ok(Some(ch))` is
    /// the octet read, `Ok(None)` means that there is none now.
    fn getc_try(&mut self) -> (outcome: Result<Option<u8>, Self::Error>)
        ensures
            old(self).may_getc_try(outcome, final(self)),
    ;

    /// Fills the buffer front to back with the octets that are there now,
    /// one per slot, until a call hands over none. `Ok(n)` means that `n`
    /// slots were filled, and, where `n < buffer.len()`, that the data ran
    /// out: the caller goes on from there later. `Err((n, e))` means that
    /// the call for the slot at `n` failed with `e`. The slots from `n` on
    /// are as they were.
    fn gets_try(&mut self, buffer: &mut [u8]) -> (report: Result<usize, (usize, Self::Error)>)
        ensures
            (exists|ports: Seq<&Self>, outs: Seq<Result<Option<u8>, Self::Error>>|
                #![trigger ports.len(), outs.len()]
                {
                    &&& ports.len() == outs.len() + 1
                    &&& ports.first() == &*old(self)
                    &&& ports.last() == &*final(self)
                    &&& polled_run(outs, old(buffer)@.len())
                    &&& forall|i: int|
                        0 <= i < outs.len() ==> ports[i].may_getc_try(
                            #[trigger] outs[i],
                            ports[i + 1],
                        )
                    &&& report == polled_report(outs)
                    &&& final(buffer)@ == filled(old(buffer)@, polled_taken(outs))
                }),
            final(buffer)@.len() == old(buffer)@.len(),
            report matches Ok(count) ==> count <= old(buffer)@.len(),
            report matches Err((count, _)) ==> count < old(buffer)@.len(),
    {
        let ghost mut ports: Seq<&Self> = seq![&*self];
        let ghost mut outs: Seq<Result<Option<u8>, Self::Error>> = Seq::empty();
        let mut count: usize = 0;
        while count < buffer.len()
            invariant
                count <= buffer@.len(),
                buffer@.len() == old(buffer)@.len(),
                outs.len() == count,
                ports.len() == count + 1,
                ports.first() == &*old(self),
                ports.last() == &*self,
                forall|i: int|
                    0 <= i < outs.len() ==> ports[i].may_getc_try(
                        #[trigger] outs[i],
                        ports[i + 1],
                    ),
                forall|i: int| 0 <= i < outs.len() ==> moved(#[trigger] outs[i]),
                forall|i: int| 0 <= i < count ==> buffer@[i] == (#[trigger] outs[i])->Ok_0->Some_0,
                forall|i: int| count <= i < buffer@.len() ==> buffer@[i] == old(buffer)@[i],
            decreases buffer@.len() - count,
        {
            let outcome = self.getc_try();
            proof {
                outs = outs.push(outcome);
                ports = ports.push(&*self);
                assert(ports.len() == outs.len() + 1);
            }
            match outcome {
                Err(e) => {
                    assert(buffer@ =~= filled(old(buffer)@, polled_taken(outs)));
                    return Err((count, e));
                },
                Ok(None) => {
                    assert(buffer@ =~= filled(old(buffer)@, polled_taken(outs)));
                    return Ok(count);
                },
                Ok(Some(ch)) => {
                    buffer[count] = ch;
                },
            }
            count = count + 1;
        }
        assert(buffer@ =~= filled(old(buffer)@, polled_taken(outs)));
        Ok(count)
    }
}

} // verus!
