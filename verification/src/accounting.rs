//! How a multi-octet operation accounts for its single-octet calls.
//!
//! A multi-octet operation makes one single-octet call per octet, in order,
//! and stops after the first call that moves no octet. The outcomes of the
//! calls it made, oldest first, are its *run*. What the operation reports is
//! a function of its run alone, and the functions are here, with the laws
//! that follow from them.
//!
//! There are two kinds of run. A *blocking* call either moves its octet or
//! fails. A *polled* call (one with a timeout, or one that never blocks) may
//! also give up without an error: `Ok(None)`.

use vstd::prelude::*;

verus! {

/// Whether `outs` can be the run of a blocking operation over `len` octets:
/// every call but the last succeeded, and the calls went on until `len` were
/// made or one failed.
pub open spec fn blocking_run<T, E>(outs: Seq<Result<T, E>>, len: nat) -> bool {
    &&& outs.len() <= len
    &&& forall|i: int| 0 <= i < outs.len() - 1 ==> (#[trigger] outs[i]) is Ok
    &&& outs.len() < len ==> outs.len() > 0 && outs.last() is Err
}

/// The number of octets that the calls of a blocking run moved.
pub open spec fn blocking_count<T, E>(outs: Seq<Result<T, E>>) -> nat {
    if outs.len() > 0 && outs.last() is Err {
        (outs.len() - 1) as nat
    } else {
        outs.len()
    }
}

/// What a blocking operation reports for its run: success, or the number of
/// octets moved before the failing call together with that call's error.
pub open spec fn blocking_report<T, E>(outs: Seq<Result<T, E>>) -> Result<(), (usize, E)> {
    if outs.len() > 0 && outs.last() is Err {
        Err((blocking_count(outs) as usize, outs.last()->Err_0))
    } else {
        Ok(())
    }
}

/// The octets that the calls of a blocking receive handed over, in order.
pub open spec fn blocking_taken<E>(outs: Seq<Result<u8, E>>) -> Seq<u8> {
    Seq::new(blocking_count(outs), |i: int| outs[i]->Ok_0)
}

/// Whether a polled call moved an octet.
pub open spec fn moved<E>(out: Result<Option<u8>, E>) -> bool {
    out matches Ok(Some(_))
}

/// Whether `outs` can be the run of a polled operation over `len` octets:
/// every call but the last moved an octet, and the calls went on until `len`
/// were made or one moved none.
pub open spec fn polled_run<E>(outs: Seq<Result<Option<u8>, E>>, len: nat) -> bool {
    &&& outs.len() <= len
    &&& forall|i: int| 0 <= i < outs.len() - 1 ==> moved(#[trigger] outs[i])
    &&& outs.len() < len ==> outs.len() > 0 && !moved(outs.last())
}

/// The number of octets that the calls of a polled run moved.
pub open spec fn polled_count<E>(outs: Seq<Result<Option<u8>, E>>) -> nat {
    if outs.len() > 0 && !moved(outs.last()) {
        (outs.len() - 1) as nat
    } else {
        outs.len()
    }
}

/// What a polled operation reports for its run: the number of octets moved,
/// beside the error of the last call if that call failed.
pub open spec fn polled_report<E>(outs: Seq<Result<Option<u8>, E>>) -> Result<usize, (usize, E)> {
    if outs.len() > 0 && outs.last() is Err {
        Err((polled_count(outs) as usize, outs.last()->Err_0))
    } else {
        Ok(polled_count(outs) as usize)
    }
}

/// The octets that the calls of a polled receive handed over, in order.
pub open spec fn polled_taken<E>(outs: Seq<Result<Option<u8>, E>>) -> Seq<u8> {
    Seq::new(polled_count(outs), |i: int| outs[i]->Ok_0->Some_0)
}

/// A receive buffer after `octets` were stored in it front to back: they
/// take the place of its first slots, and the slots behind them stay.
pub open spec fn filled(buffer: Seq<u8>, octets: Seq<u8>) -> Seq<u8> {
    octets + buffer.skip(octets.len() as int)
}

/// The offset into the data that a caller has reached who sent it by polled
/// operations with the runs `runs`, each operation on what the ones before
/// it left over.
pub open spec fn resumed_at<E>(runs: Seq<Seq<Result<Option<u8>, E>>>) -> nat
    decreases runs.len(),
{
    if runs.len() == 0 {
        0
    } else {
        resumed_at(runs.drop_last()) + polled_count(runs.last())
    }
}

/// Whether `runs` can be the runs of consecutive polled operations on `len`
/// octets, each operation on what the ones before it left over.
pub open spec fn resumed_runs<E>(runs: Seq<Seq<Result<Option<u8>, E>>>, len: nat) -> bool {
    forall|j: int|
        0 <= j < runs.len() ==> {
            &&& resumed_at(runs.take(j)) <= len
            &&& polled_run(#[trigger] runs[j], (len - resumed_at(runs.take(j))) as nat)
        }
}

/// The octets of `data` that polled operations with the runs `runs` moved,
/// each operation on what the ones before it left over, in the order in which
/// they were moved.
pub open spec fn resumed_sent<E>(data: Seq<u8>, runs: Seq<Seq<Result<Option<u8>, E>>>) -> Seq<u8>
    decreases runs.len(),
{
    if runs.len() == 0 {
        Seq::empty()
    } else {
        let before = runs.drop_last();
        resumed_sent(data, before) + data.skip(resumed_at(before) as int).take(
            polled_count(runs.last()) as int,
        )
    }
}

/// When every call succeeds, a blocking operation makes one call for each
/// octet and reports success.
pub proof fn lemma_blocking_all_succeed<T, E>(outs: Seq<Result<T, E>>, len: nat)
    requires
        blocking_run(outs, len),
        forall|i: int| 0 <= i < outs.len() ==> (#[trigger] outs[i]) is Ok,
    ensures
        outs.len() == len,
        blocking_count(outs) == len,
        blocking_report(outs) == Ok::<(), (usize, E)>(()),
{
}

/// When every call moves its octet, a polled operation makes one call for
/// each octet and reports them all.
pub proof fn lemma_polled_all_moved<E>(outs: Seq<Result<Option<u8>, E>>, len: nat)
    requires
        polled_run(outs, len),
        forall|i: int| 0 <= i < outs.len() ==> moved(#[trigger] outs[i]),
    ensures
        outs.len() == len,
        polled_count(outs) == len,
        polled_report(outs) == Ok::<usize, (usize, E)>(len as usize),
{
}

/// When the `k`-th call of a blocking operation fails, no call follows it,
/// and the report is that call's error with the `k - 1` octets moved before
/// it.
pub proof fn lemma_blocking_failure<T, E>(outs: Seq<Result<T, E>>, len: nat, k: int)
    requires
        blocking_run(outs, len),
        1 <= k <= outs.len(),
        outs[k - 1] is Err,
    ensures
        outs.len() == k,
        blocking_count(outs) == k - 1,
        blocking_report(outs) == Err::<(), (usize, E)>(((k - 1) as usize, outs[k - 1]->Err_0)),
{
}

/// When the `k`-th call of a polled operation fails, no call follows it, and
/// the report is that call's error with the `k - 1` octets moved before it.
pub proof fn lemma_polled_failure<E>(outs: Seq<Result<Option<u8>, E>>, len: nat, k: int)
    requires
        polled_run(outs, len),
        1 <= k <= outs.len(),
        outs[k - 1] is Err,
    ensures
        outs.len() == k,
        polled_count(outs) == k - 1,
        polled_report(outs) == Err::<usize, (usize, E)>(((k - 1) as usize, outs[k - 1]->Err_0)),
{
}

/// When the `k`-th call of a polled operation gives up (its time ran out, or
/// the buffer had no room or no octet), no call follows it, and the report
/// is the `k - 1` octets moved before it.
pub proof fn lemma_polled_gave_up<E>(outs: Seq<Result<Option<u8>, E>>, len: nat, k: int)
    requires
        polled_run(outs, len),
        1 <= k <= outs.len(),
        outs[k - 1] == Ok::<Option<u8>, E>(None),
    ensures
        outs.len() == k,
        polled_count(outs) == k - 1,
        polled_report(outs) == Ok::<usize, (usize, E)>((k - 1) as usize),
{
}

/// A blocking operation never counts more octets than there were, and one
/// that failed counts fewer.
pub proof fn lemma_blocking_count_in_bounds<T, E>(outs: Seq<Result<T, E>>, len: nat)
    requires
        blocking_run(outs, len),
    ensures
        blocking_count(outs) <= len,
        blocking_report(outs) is Err ==> blocking_count(outs) < len,
{
}

/// A polled operation never counts more octets than there were, and one that
/// counts fewer made a call for the octet at its count, which moved none.
pub proof fn lemma_polled_count_in_bounds<E>(outs: Seq<Result<Option<u8>, E>>, len: nat)
    requires
        polled_run(outs, len),
    ensures
        polled_count(outs) <= len,
        polled_report(outs) is Err ==> polled_count(outs) < len,
        polled_count(outs) < len ==> outs.len() == polled_count(outs) + 1 && !moved(outs.last()),
{
}

/// Over no octets a blocking operation makes no call and reports success.
pub proof fn lemma_blocking_nothing_to_move<T, E>(outs: Seq<Result<T, E>>)
    requires
        blocking_run(outs, 0),
    ensures
        outs.len() == 0,
        blocking_count(outs) == 0,
        blocking_report(outs) == Ok::<(), (usize, E)>(()),
{
}

/// Over no octets a polled operation makes no call and reports success, with
/// a count of zero.
pub proof fn lemma_polled_nothing_to_move<E>(outs: Seq<Result<Option<u8>, E>>)
    requires
        polled_run(outs, 0),
    ensures
        outs.len() == 0,
        polled_count(outs) == 0,
        polled_report(outs) == Ok::<usize, (usize, E)>(0),
{
}

/// When none of its calls fails, a blocking operation reports no error.
pub proof fn lemma_blocking_no_failure<T, E>(outs: Seq<Result<T, E>>)
    requires
        forall|i: int| 0 <= i < outs.len() ==> (#[trigger] outs[i]) is Ok,
    ensures
        blocking_report(outs) is Ok,
{
}

/// When none of its calls fails, a polled operation reports no error.
pub proof fn lemma_polled_no_failure<E>(outs: Seq<Result<Option<u8>, E>>)
    requires
        forall|i: int| 0 <= i < outs.len() ==> (#[trigger] outs[i]) is Ok,
    ensures
        polled_report(outs) is Ok,
{
}

/// A caller who sends `data` by polled operations, each time going on at the
/// offset that the reports so far add up to, has sent the octets before that
/// offset, each once and in order: none twice, none left out.
pub proof fn lemma_resume_sends_each_once<E>(data: Seq<u8>, runs: Seq<Seq<Result<Option<u8>, E>>>)
    requires
        resumed_runs(runs, data.len()),
    ensures
        resumed_at(runs) <= data.len(),
        resumed_sent(data, runs) == data.take(resumed_at(runs) as int),
    decreases runs.len(),
{
    if runs.len() == 0 {
        assert(resumed_sent(data, runs) =~= data.take(0));
    } else {
        let before = runs.drop_last();
        assert forall|j: int| 0 <= j < before.len() implies {
            &&& resumed_at(before.take(j)) <= data.len()
            &&& polled_run(#[trigger] before[j], (data.len() - resumed_at(before.take(j))) as nat)
        } by {
            assert(before.take(j) == runs.take(j));
            assert(before[j] == runs[j]);
        }
        lemma_resume_sends_each_once(data, before);
        let last = runs.len() - 1;
        assert(runs.take(last) == before);
        assert(polled_run(runs[last], (data.len() - resumed_at(before)) as nat));
        assert(resumed_sent(data, runs) =~= data.take(resumed_at(runs) as int));
    }
}

/// Once an operation of such a caller finds room for every octet it is
/// given, the whole of `data` has been sent.
pub proof fn lemma_resume_completes<E>(data: Seq<u8>, runs: Seq<Seq<Result<Option<u8>, E>>>)
    requires
        resumed_runs(runs, data.len()),
        runs.len() > 0,
        forall|i: int| 0 <= i < runs.last().len() ==> moved(#[trigger] runs.last()[i]),
    ensures
        resumed_at(runs) == data.len(),
        resumed_sent(data, runs) == data,
{
    let before = runs.drop_last();
    let last = runs.len() - 1;
    assert(runs.take(last) == before);
    assert(polled_run(runs[last], (data.len() - resumed_at(before)) as nat));
    lemma_polled_all_moved(runs.last(), (data.len() - resumed_at(before)) as nat);
    lemma_resume_sends_each_once(data, runs);
    assert(data.take(data.len() as int) == data);
}

} // verus!
