//! A port in memory whose transmitter feeds its receiver.
//!
//! A `Loopback` holds the octets that were sent and not yet received, oldest
//! first, up to a limit fixed when it is made. It stands in for a hardware
//! FIFO where there is none, and states for every single-octet call what the
//! call returns and how it leaves the port.
//!
//! Nothing else fills or drains it, so waiting cannot help: a blocking call
//! that would have to wait fails, and a call with a timeout gives up at
//! once.

use crate::accounting::{
    blocking_count, blocking_report, blocking_run, blocking_taken, filled, moved, polled_count,
    polled_report, polled_run, polled_taken,
};
use crate::exclusive::{
    MutBlockingRx, MutBlockingRxWithTimeout, MutBlockingTx, MutBlockingTxWithTimeout,
    MutNonBlockingRx, MutNonBlockingTx,
};
use core::convert::Infallible;
use std::collections::VecDeque;
use vstd::prelude::*;

verus! {

/// Why a blocking call on a `Loopback` failed.
#[derive(Clone, Copy, Debug, PartialEq, Eq)]
pub enum LoopbackError {
    /// There was no room for the octet.
    Full,
    /// There was no octet to read.
    Empty,
}

/// A bounded queue of octets that is sent into and received from.
pub struct Loopback {
    queue: VecDeque<u8>,
    limit: usize,
}

impl View for Loopback {
    type V = Seq<u8>;

    /// The octets sent and not yet received, oldest first.
    closed spec fn view(&self) -> Seq<u8> {
        self.queue@
    }
}

impl Loopback {
    /// The number of octets that the port holds at most.
    pub closed spec fn spec_limit(&self) -> usize {
        self.limit
    }

    /// A port that holds nothing and takes up to `limit` octets.
    pub fn new(limit: usize) -> (port: Loopback)
        ensures
            port@ == Seq::<u8>::empty(),
            port.limit() == limit,
    {
        Loopback { queue: VecDeque::new(), limit }
    }

    /// The number of octets sent and not yet received.
    pub fn len(&self) -> (len: usize)
        ensures
            len == self@.len(),
    {
        self.queue.len()
    }

    /// The number of octets that the port holds at most.
    #[verifier::when_used_as_spec(spec_limit)]
    pub fn limit(&self) -> (limit: usize)
        ensures
            limit == self.limit(),
    {
        self.limit
    }

    /// The number of octets for which the port has room.
    pub open spec fn room(&self) -> nat {
        if self@.len() <= self.limit() {
            (self.limit() - self@.len()) as nat
        } else {
            0
        }
    }

    /// Whether `after` is this port once `ch` was stored in it.
    pub open spec fn stores(&self, ch: u8, after: &Loopback) -> bool {
        &&& self@.len() < self.limit()
        &&& after@ == self@.push(ch)
        &&& after.limit() == self.limit()
    }

    /// Whether `after` is this port once its oldest octet, `ch`, was taken
    /// from it.
    pub open spec fn yields(&self, ch: u8, after: &Loopback) -> bool {
        &&& self@.len() > 0
        &&& ch == self@.first()
        &&& after@ == self@.skip(1)
        &&& after.limit() == self.limit()
    }

    /// Whether `after` holds what this port holds, under the same limit.
    pub open spec fn keeps(&self, after: &Loopback) -> bool {
        &&& after@ == self@
        &&& after.limit() == self.limit()
    }

    /// What a send that does not wait does: the octet is stored where there
    /// is room and handed back; where there is none the call gives up and
    /// the port is as it was.
    pub open spec fn offers(
        &self,
        ch: u8,
        outcome: Result<Option<u8>, Infallible>,
        after: &Loopback,
    ) -> bool {
        if self@.len() < self.limit() {
            outcome == Ok::<Option<u8>, Infallible>(Some(ch)) && self.stores(ch, after)
        } else {
            outcome == Ok::<Option<u8>, Infallible>(None) && self.keeps(after)
        }
    }

    /// What a receive that does not wait does: the oldest octet is taken
    /// where there is one; where there is none the call gives up and the
    /// port is as it was.
    pub open spec fn asks(&self, outcome: Result<Option<u8>, Infallible>, after: &Loopback) -> bool {
        match outcome {
            Ok(Some(ch)) => self.yields(ch, after),
            Ok(None) => self@.len() == 0 && self.keeps(after),
            Err(_) => false,
        }
    }

    fn store(&mut self, ch: u8) -> (stored: bool)
        ensures
            stored <==> old(self)@.len() < old(self).limit(),
            stored ==> old(self).stores(ch, final(self)),
            !stored ==> old(self).keeps(final(self)),
    {
        if self.queue.len() < self.limit {
            self.queue.push_back(ch);
            true
        } else {
            false
        }
    }

    fn take(&mut self) -> (taken: Option<u8>)
        ensures
            taken is Some <==> old(self)@.len() > 0,
            taken matches Some(ch) ==> old(self).yields(ch, final(self)),
            taken is None ==> old(self).keeps(final(self)),
    {
        let taken = self.queue.pop_front();
        proof {
            if taken is Some {
                assert(self.queue@ =~= old(self).queue@.skip(1));
            }
        }
        taken
    }
}

impl MutBlockingTx for Loopback {
    type Error = LoopbackError;

    /// The octet is stored where there is room; where there is none the call
    /// fails with `Full` and the port is as it was.
    open spec fn may_putc(&self, ch: u8, outcome: Result<(), LoopbackError>, after: &Self) -> bool {
        if self@.len() < self.limit() {
            outcome == Ok::<(), LoopbackError>(()) && self.stores(ch, after)
        } else {
            outcome == Err::<(), LoopbackError>(LoopbackError::Full) && self.keeps(after)
        }
    }

    fn putc(&mut self, ch: u8) -> (outcome: Result<(), LoopbackError>) {
        if self.store(ch) {
            Ok(())
        } else {
            Err(LoopbackError::Full)
        }
    }
}

impl MutBlockingTxWithTimeout for Loopback {
    type Timeout = ();

    type Error = Infallible;

    /// No time is spent waiting: see `offers`.
    open spec fn may_putc_wait(
        &self,
        ch: u8,
        timeout: &(),
        outcome: Result<Option<u8>, Infallible>,
        after: &Self,
    ) -> bool {
        self.offers(ch, outcome, after)
    }

    fn putc_wait(&mut self, ch: u8, _timeout: &()) -> (outcome: Result<Option<u8>, Infallible>) {
        if self.store(ch) {
            Ok(Some(ch))
        } else {
            Ok(None)
        }
    }
}

impl MutNonBlockingTx for Loopback {
    type Error = Infallible;

    /// See `offers`.
    open spec fn may_putc_try(
        &self,
        ch: u8,
        outcome: Result<Option<u8>, Infallible>,
        after: &Self,
    ) -> bool {
        self.offers(ch, outcome, after)
    }

    fn putc_try(&mut self, ch: u8) -> (outcome: Result<Option<u8>, Infallible>) {
        if self.store(ch) {
            Ok(Some(ch))
        } else {
            Ok(None)
        }
    }
}

impl MutBlockingRx for Loopback {
    type Error = LoopbackError;

    /// The oldest octet is taken where there is one; where there is none the
    /// call fails with `Empty` and the port is as it was.
    open spec fn may_getc(&self, outcome: Result<u8, LoopbackError>, after: &Self) -> bool {
        match outcome {
            Ok(ch) => self.yields(ch, after),
            Err(e) => self@.len() == 0 && e == LoopbackError::Empty && self.keeps(after),
        }
    }

    fn getc(&mut self) -> (outcome: Result<u8, LoopbackError>) {
        match self.take() {
            Some(ch) => Ok(ch),
            None => Err(LoopbackError::Empty),
        }
    }
}

impl MutBlockingRxWithTimeout for Loopback {
    type Timeout = ();

    type Error = Infallible;

    /// No time is spent waiting: see `asks`.
    open spec fn may_getc_wait(
        &self,
        timeout: &(),
        outcome: Result<Option<u8>, Infallible>,
        after: &Self,
    ) -> bool {
        self.asks(outcome, after)
    }

    fn getc_wait(&mut self, _timeout: &()) -> (outcome: Result<Option<u8>, Infallible>) {
        Ok(self.take())
    }
}

impl MutNonBlockingRx for Loopback {
    type Error = Infallible;

    /// See `asks`.
    open spec fn may_getc_try(&self, outcome: Result<Option<u8>, Infallible>, after: &Self) -> bool {
        self.asks(outcome, after)
    }

    fn getc_try(&mut self) -> (outcome: Result<Option<u8>, Infallible>) {
        Ok(self.take())
    }
}

/// Whether `ports` and `outs` record a blocking send of `data`: `ports[i]`
/// is the port before the call for `data[i]`, which returned `outs[i]`, and
/// `ports[i + 1]` the port after it.
pub open spec fn sends(
    data: Seq<u8>,
    ports: Seq<&Loopback>,
    outs: Seq<Result<(), LoopbackError>>,
) -> bool {
    &&& ports.len() == outs.len() + 1
    &&& blocking_run(outs, data.len())
    &&& forall|i: int|
        0 <= i < outs.len() ==> ports[i].may_putc(data[i], #[trigger] outs[i], ports[i + 1])
}

/// Whether `ports` and `outs` record a blocking receive into `slots` slots:
/// `ports[i]` is the port before the call for the slot at `i`, which returned
/// `outs[i]`, and `ports[i + 1]` the port after it.
pub open spec fn receives(
    slots: nat,
    ports: Seq<&Loopback>,
    outs: Seq<Result<u8, LoopbackError>>,
) -> bool {
    &&& ports.len() == outs.len() + 1
    &&& blocking_run(outs, slots)
    &&& forall|i: int| 0 <= i < outs.len() ==> ports[i].may_getc(#[trigger] outs[i], ports[i + 1])
}

proof fn lemma_stored_so_far(
    data: Seq<u8>,
    ports: Seq<&Loopback>,
    outs: Seq<Result<(), LoopbackError>>,
    k: int,
)
    requires
        sends(data, ports, outs),
        0 <= k <= blocking_count(outs),
    ensures
        ports[k]@ == ports[0]@ + data.take(k),
        ports[k].limit() == ports[0].limit(),
        k <= ports[0].room(),
    decreases k,
{
    if k == 0 {
        assert(ports[0]@ =~= ports[0]@ + data.take(0));
    } else {
        lemma_stored_so_far(data, ports, outs, k - 1);
        assert(outs[k - 1] is Ok);
        assert(ports[k - 1].may_putc(data[k - 1], outs[k - 1], ports[k]));
        assert(data.take(k) =~= data.take(k - 1).push(data[k - 1]));
        assert(ports[k]@ =~= ports[0]@ + data.take(k));
    }
}

proof fn lemma_yielded_so_far(
    slots: nat,
    ports: Seq<&Loopback>,
    outs: Seq<Result<u8, LoopbackError>>,
    k: int,
)
    requires
        receives(slots, ports, outs),
        0 <= k <= blocking_count(outs),
    ensures
        k <= ports[0]@.len(),
        ports[k]@ == ports[0]@.skip(k),
        ports[k].limit() == ports[0].limit(),
        forall|i: int| 0 <= i < k ==> (#[trigger] outs[i])->Ok_0 == ports[0]@[i],
    decreases k,
{
    if k == 0 {
        assert(ports[0]@ =~= ports[0]@.skip(0));
    } else {
        lemma_yielded_so_far(slots, ports, outs, k - 1);
        assert(outs[k - 1] is Ok);
        assert(ports[k - 1].may_getc(outs[k - 1], ports[k]));
        assert(ports[k]@ =~= ports[0]@.skip(k));
    }
}

/// A blocking send stores the octets for which the loopback has room behind
/// those that it holds, in order. It succeeds exactly when there was room
/// for all of them, and fails with `Full` on the first for which there was
/// none.
pub proof fn lemma_send_stores(
    data: Seq<u8>,
    ports: Seq<&Loopback>,
    outs: Seq<Result<(), LoopbackError>>,
)
    requires
        sends(data, ports, outs),
    ensures
        ports.last()@ == ports.first()@ + data.take(blocking_count(outs) as int),
        ports.last().limit() == ports.first().limit(),
        blocking_count(outs) == (if data.len() <= ports.first().room() {
            data.len()
        } else {
            ports.first().room()
        }),
        blocking_report(outs) is Ok <==> data.len() <= ports.first().room(),
        blocking_report(outs) matches Err((_, e)) ==> e == LoopbackError::Full,
{
    let count = blocking_count(outs) as int;
    lemma_stored_so_far(data, ports, outs, count);
    if outs.len() > 0 {
        let last = outs.len() - 1;
        assert(ports[last].may_putc(data[last], outs[last], ports[last + 1]));
    }
}

/// A blocking receive hands over the oldest octets that the loopback holds,
/// in order. It succeeds exactly when the loopback held one for every slot,
/// and fails with `Empty` on the first slot for which it held none.
pub proof fn lemma_receive_yields(
    slots: nat,
    ports: Seq<&Loopback>,
    outs: Seq<Result<u8, LoopbackError>>,
)
    requires
        receives(slots, ports, outs),
    ensures
        blocking_taken(outs) == ports.first()@.take(blocking_count(outs) as int),
        ports.last()@ == ports.first()@.skip(blocking_count(outs) as int),
        ports.last().limit() == ports.first().limit(),
        blocking_count(outs) == (if slots <= ports.first()@.len() {
            slots
        } else {
            ports.first()@.len()
        }),
        blocking_report(outs) is Ok <==> slots <= ports.first()@.len(),
        blocking_report(outs) matches Err((_, e)) ==> e == LoopbackError::Empty,
{
    let count = blocking_count(outs) as int;
    lemma_yielded_so_far(slots, ports, outs, count);
    assert(blocking_taken(outs) =~= ports.first()@.take(count));
    if outs.len() > 0 {
        let last = outs.len() - 1;
        assert(ports[last].may_getc(outs[last], ports[last + 1]));
    }
}

/// Whether `ports` and `outs` record a send of `data` that does not wait, by
/// `puts_wait` or by `puts_try`: `ports[i]` is the port before the call for
/// `data[i]`, which returned `outs[i]`, and `ports[i + 1]` the port after it.
pub open spec fn offers_all(
    data: Seq<u8>,
    ports: Seq<&Loopback>,
    outs: Seq<Result<Option<u8>, Infallible>>,
) -> bool {
    &&& ports.len() == outs.len() + 1
    &&& polled_run(outs, data.len())
    &&& forall|i: int|
        0 <= i < outs.len() ==> ports[i].offers(data[i], #[trigger] outs[i], ports[i + 1])
}

/// Whether `ports` and `outs` record a receive into `slots` slots that does
/// not wait, by `gets_wait` or by `gets_try`: `ports[i]` is the port before
/// the call for the slot at `i`, which returned `outs[i]`, and `ports[i + 1]`
/// the port after it.
pub open spec fn asks_all(
    slots: nat,
    ports: Seq<&Loopback>,
    outs: Seq<Result<Option<u8>, Infallible>>,
) -> bool {
    &&& ports.len() == outs.len() + 1
    &&& polled_run(outs, slots)
    &&& forall|i: int| 0 <= i < outs.len() ==> ports[i].asks(#[trigger] outs[i], ports[i + 1])
}

proof fn lemma_offered_so_far(
    data: Seq<u8>,
    ports: Seq<&Loopback>,
    outs: Seq<Result<Option<u8>, Infallible>>,
    k: int,
)
    requires
        offers_all(data, ports, outs),
        0 <= k <= polled_count(outs),
    ensures
        ports[k]@ == ports[0]@ + data.take(k),
        ports[k].limit() == ports[0].limit(),
        k <= ports[0].room(),
    decreases k,
{
    if k == 0 {
        assert(ports[0]@ =~= ports[0]@ + data.take(0));
    } else {
        lemma_offered_so_far(data, ports, outs, k - 1);
        assert(moved(outs[k - 1]));
        assert(ports[k - 1].offers(data[k - 1], outs[k - 1], ports[k]));
        assert(data.take(k) =~= data.take(k - 1).push(data[k - 1]));
        assert(ports[k]@ =~= ports[0]@ + data.take(k));
    }
}

proof fn lemma_asked_so_far(
    slots: nat,
    ports: Seq<&Loopback>,
    outs: Seq<Result<Option<u8>, Infallible>>,
    k: int,
)
    requires
        asks_all(slots, ports, outs),
        0 <= k <= polled_count(outs),
    ensures
        k <= ports[0]@.len(),
        ports[k]@ == ports[0]@.skip(k),
        ports[k].limit() == ports[0].limit(),
        forall|i: int| 0 <= i < k ==> (#[trigger] outs[i])->Ok_0->Some_0 == ports[0]@[i],
    decreases k,
{
    if k == 0 {
        assert(ports[0]@ =~= ports[0]@.skip(0));
    } else {
        lemma_asked_so_far(slots, ports, outs, k - 1);
        assert(moved(outs[k - 1]));
        assert(ports[k - 1].asks(outs[k - 1], ports[k]));
        assert(ports[k]@ =~= ports[0]@.skip(k));
    }
}

/// A send that does not wait stores the octets for which the loopback has
/// room behind those that it holds, in order, and reports their number
/// without an error: all of them where there was room for all, else as many
/// as there was room for.
pub proof fn lemma_offer_stores(
    data: Seq<u8>,
    ports: Seq<&Loopback>,
    outs: Seq<Result<Option<u8>, Infallible>>,
)
    requires
        offers_all(data, ports, outs),
    ensures
        ports.last()@ == ports.first()@ + data.take(polled_count(outs) as int),
        ports.last().limit() == ports.first().limit(),
        polled_report(outs) == Ok::<usize, (usize, Infallible)>(polled_count(outs) as usize),
        polled_count(outs) == (if data.len() <= ports.first().room() {
            data.len()
        } else {
            ports.first().room()
        }),
{
    let count = polled_count(outs) as int;
    lemma_offered_so_far(data, ports, outs, count);
    if outs.len() > 0 {
        let last = outs.len() - 1;
        assert(ports[last].offers(data[last], outs[last], ports[last + 1]));
    }
}

/// A receive that does not wait hands over the oldest octets that the
/// loopback holds, in order, and reports their number without an error: one
/// for every slot where it held as many, else all that it held.
pub proof fn lemma_ask_yields(
    slots: nat,
    ports: Seq<&Loopback>,
    outs: Seq<Result<Option<u8>, Infallible>>,
)
    requires
        asks_all(slots, ports, outs),
    ensures
        polled_taken(outs) == ports.first()@.take(polled_count(outs) as int),
        ports.last()@ == ports.first()@.skip(polled_count(outs) as int),
        ports.last().limit() == ports.first().limit(),
        polled_report(outs) == Ok::<usize, (usize, Infallible)>(polled_count(outs) as usize),
        polled_count(outs) == (if slots <= ports.first()@.len() {
            slots
        } else {
            ports.first()@.len()
        }),
{
    let count = polled_count(outs) as int;
    lemma_asked_so_far(slots, ports, outs, count);
    assert(polled_taken(outs) =~= ports.first()@.take(count));
    if outs.len() > 0 {
        let last = outs.len() - 1;
        assert(ports[last].asks(outs[last], ports[last + 1]));
    }
}

/// What a blocking send stored in a loopback that held nothing, a blocking
/// receive into as many slots hands back: the buffer then holds exactly the
/// octets that were sent, and the loopback holds nothing again.
pub proof fn lemma_round_trip(
    data: Seq<u8>,
    tx_ports: Seq<&Loopback>,
    tx_outs: Seq<Result<(), LoopbackError>>,
    buffer: Seq<u8>,
    rx_ports: Seq<&Loopback>,
    rx_outs: Seq<Result<u8, LoopbackError>>,
)
    requires
        sends(data, tx_ports, tx_outs),
        tx_ports.first()@.len() == 0,
        blocking_report(tx_outs) is Ok,
        receives(buffer.len(), rx_ports, rx_outs),
        rx_ports.first() == tx_ports.last(),
        buffer.len() == data.len(),
    ensures
        blocking_report(rx_outs) is Ok,
        filled(buffer, blocking_taken(rx_outs)) == data,
        rx_ports.last()@.len() == 0,
{
    lemma_send_stores(data, tx_ports, tx_outs);
    assert(tx_ports.last()@ =~= data);
    lemma_receive_yields(buffer.len(), rx_ports, rx_outs);
    assert(filled(buffer, blocking_taken(rx_outs)) =~= data);
}

} // verus!
