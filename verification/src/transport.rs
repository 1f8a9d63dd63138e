//! The host-side USB transport the driver runs on.
//!
//! This crate implements the widget's protocol but performs no USB host I/O of
//! its own, so it can sit on any stack. Implement [`Transport`] over your host
//! controller and the rest of the crate composes on top of it.
//!
//! What a driver function does to the device is stated over the transport's
//! [`log`](Transport::log): the transfers made so far, each with what was handed
//! to it and what came back.

use vstd::prelude::*;

use crate::error::Error;

verus! {

/// One transfer that took place: what the host asked for, and the outcome.
///
/// For the reading kinds, `offered` is the buffer as the host handed it over and
/// `filled` is the same buffer as it came back;
/// `read` is the number of bytes that arrived in it, or the failure.
pub enum Transfer<E> {
    /// A control transfer with a host-to-device data stage.
    ControlOut {
        request_type: u8,
        request: u8,
        value: u16,
        index: u16,
        data: Seq<u8>,
        outcome: Result<(), E>,
    },
    /// A control transfer with a device-to-host data stage.
    ControlIn {
        request_type: u8,
        request: u8,
        value: u16,
        index: u16,
        offered: Seq<u8>,
        filled: Seq<u8>,
        read: Result<usize, E>,
    },
    /// A write to a bulk OUT endpoint.
    BulkOut { endpoint: u8, data: Seq<u8>, outcome: Result<(), E> },
    /// A read from a bulk IN endpoint.
    BulkIn { endpoint: u8, offered: Seq<u8>, filled: Seq<u8>, read: Result<usize, E> },
}

/// The USB host operations the driver needs.
pub trait Transport {
    /// Transport-specific failure: timeout, stall, disconnect, and so on.
    type Error;

    /// The transfers made through this transport so far, oldest first.
    ///
    /// This is what the contracts speak of; it does not exist at run time, so an
    /// implementation in ordinary Rust has nothing to provide. One that is itself
    /// verified has to state its own, which grows with every transfer: the log given
    /// here stays empty, and meets none of the contracts below.
    open spec fn log(&self) -> Seq<Transfer<Self::Error>> {
        Seq::empty()
    }

    /// A control transfer whose data stage travels host-to-device (or is absent).
    fn control_out(
        &mut self,
        request_type: u8,
        request: u8,
        value: u16,
        index: u16,
        data: &[u8],
    ) -> (outcome: Result<(), Self::Error>)
        ensures
            final(self).log() == old(self).log().push(
                Transfer::ControlOut { request_type, request, value, index, data: data@, outcome },
            ),
    ;

    /// A control transfer that reads into `buf`, returning the number of bytes read.
    fn control_in(
        &mut self,
        request_type: u8,
        request: u8,
        value: u16,
        index: u16,
        buf: &mut [u8],
    ) -> (read: Result<usize, Self::Error>)
        ensures
            final(buf)@.len() == old(buf)@.len(),
            read matches Ok(n) ==> n <= old(buf)@.len(),
            final(self).log() == old(self).log().push(
                Transfer::ControlIn {
                    request_type,
                    request,
                    value,
                    index,
                    offered: old(buf)@,
                    filled: final(buf)@,
                    read,
                },
            ),
    ;

    /// Write `data` to a bulk OUT endpoint.
    fn bulk_out(&mut self, endpoint: u8, data: &[u8]) -> (outcome: Result<(), Self::Error>)
        ensures
            final(self).log() == old(self).log().push(
                Transfer::BulkOut { endpoint, data: data@, outcome },
            ),
    ;

    /// Read up to `buf.len()` bytes from a bulk IN endpoint, returning the number
    /// actually read.
    ///
    /// These endpoints are used for short status/response replies, not streams, so
    /// an idle one simply has nothing queued and NAKs. Implementations **must**
    /// use a bounded timeout and report "nothing available" as `Ok(0)`: never
    /// block indefinitely, and never treat an empty read as an error. A genuine
    /// stall or disconnect is still an error.
    fn bulk_in(&mut self, endpoint: u8, buf: &mut [u8]) -> (read: Result<usize, Self::Error>)
        ensures
            final(buf)@.len() == old(buf)@.len(),
            read matches Ok(n) ==> n <= old(buf)@.len(),
            final(self).log() == old(self).log().push(
                Transfer::BulkIn { endpoint, offered: old(buf)@, filled: final(buf)@, read },
            ),
    ;
}

/// An outgoing transfer that a driver function sets out to make.
pub enum Request {
    /// A host-to-device control transfer.
    Control { request_type: u8, request: u8, value: u16, index: u16, data: Seq<u8> },
    /// A write to a bulk OUT endpoint.
    Bulk { endpoint: u8, data: Seq<u8> },
}

impl Request {
    /// The transfer that this request becomes once it has met with `outcome`.
    pub open spec fn with_outcome<E>(self, outcome: Result<(), E>) -> Transfer<E> {
        match self {
            Request::Control { request_type, request, value, index, data } =>
                Transfer::ControlOut { request_type, request, value, index, data, outcome },
            Request::Bulk { endpoint, data } => Transfer::BulkOut { endpoint, data, outcome },
        }
    }
}

/// `transfers` makes the requests of `plan` in order. Without a `failure` it makes
/// all of them and each succeeds; with one it stops at the request that met it.
pub open spec fn carries_out<E>(
    plan: Seq<Request>,
    transfers: Seq<Transfer<E>>,
    failure: Option<E>,
) -> bool {
    match failure {
        None => {
            &&& transfers.len() == plan.len()
            &&& forall|i: int|
                0 <= i < plan.len() ==> #[trigger] transfers[i] == plan[i].with_outcome(
                    Ok::<(), E>(()),
                )
        },
        Some(e) => {
            let done = transfers.len() - 1;
            &&& 0 <= done < plan.len()
            &&& forall|i: int|
                0 <= i < done ==> #[trigger] transfers[i] == plan[i].with_outcome(Ok::<(), E>(()))
            &&& transfers[done] == plan[done].with_outcome(Err::<(), E>(e))
        },
    }
}

/// The log grew from `before` to `after` by carrying out `plan`.
pub open spec fn performed<E>(
    before: Seq<Transfer<E>>,
    after: Seq<Transfer<E>>,
    plan: Seq<Request>,
    failure: Option<E>,
) -> bool {
    &&& before.len() <= after.len()
    &&& after.take(before.len() as int) == before
    &&& carries_out(plan, after.skip(before.len() as int), failure)
}

/// The log grew from `before` to `after` by carrying out `plan`, and `result`
/// tells how that went: `Ok` when every request succeeded, and otherwise the
/// transport error of the request that failed.
pub open spec fn ran<E>(
    before: Seq<Transfer<E>>,
    after: Seq<Transfer<E>>,
    plan: Seq<Request>,
    result: Result<(), Error<E>>,
) -> bool {
    match result {
        Ok(()) => performed(before, after, plan, None::<E>),
        Err(Error::Transport(e)) => performed(before, after, plan, Some(e)),
        Err(_) => false,
    }
}

/// A failure part-way through a plan is a failure of every plan that goes on from
/// there.
pub proof fn lemma_performed_prefix<E>(
    before: Seq<Transfer<E>>,
    after: Seq<Transfer<E>>,
    k: int,
    plan: Seq<Request>,
    failure: E,
)
    requires
        0 <= k <= plan.len(),
        performed(before, after, plan.take(k), Some(failure)),
    ensures
        performed(before, after, plan, Some(failure)),
{
    let prefix = plan.take(k);
    let tail = after.skip(before.len() as int);
    assert forall|i: int| 0 <= i < tail.len() - 1 implies #[trigger] tail[i]
        == plan[i].with_outcome(Ok::<(), E>(())) by {
        assert(prefix[i] == plan[i]);
    }
    assert(prefix[tail.len() - 1] == plan[tail.len() - 1]);
}

/// Going on with a plan whose first `done` requests all succeeded: if the next one
/// succeeds too, one more of the plan is performed, and if it fails, the plan has
/// failed there.
pub proof fn lemma_performed_step<E>(
    before: Seq<Transfer<E>>,
    middle: Seq<Transfer<E>>,
    done: int,
    plan: Seq<Request>,
    outcome: Result<(), E>,
)
    requires
        0 <= done < plan.len(),
        performed(before, middle, plan.take(done), None::<E>),
    ensures
        outcome is Ok ==> performed(
            before,
            middle.push(plan[done].with_outcome(outcome)),
            plan.take(done + 1),
            None::<E>,
        ),
        outcome matches Err(e) ==> performed(
            before,
            middle.push(plan[done].with_outcome(outcome)),
            plan,
            Some(e),
        ),
{
    let after = middle.push(plan[done].with_outcome(outcome));
    let tail = after.skip(before.len() as int);
    assert(after.take(before.len() as int) =~= middle.take(before.len() as int));
    assert(tail =~= middle.skip(before.len() as int).push(plan[done].with_outcome(outcome)));
    let prefix = plan.take(done);
    assert forall|i: int| 0 <= i < done implies #[trigger] tail[i] == plan[i].with_outcome(
        Ok::<(), E>(()),
    ) by {
        assert(prefix[i] == plan[i]);
        assert(middle.skip(before.len() as int)[i] == prefix[i].with_outcome(Ok::<(), E>(())));
    }
    let longer = plan.take(done + 1);
    assert(longer.len() == done + 1);
    if outcome is Ok {
        assert(outcome->Ok_0 == ());
        assert(outcome == Ok::<(), E>(()));
        assert forall|i: int| 0 <= i < longer.len() implies #[trigger] tail[i]
            == longer[i].with_outcome(Ok::<(), E>(())) by {
            assert(longer[i] == plan[i]);
        }
    }
}

/// A plan that was carried out stands in the log request by request: nothing that was
/// there before has changed, each request is logged once, in order and as it was made,
/// and what ended the run is the failure at its end, if there is one.
pub proof fn law_requests_are_logged_as_made<E>(
    before: Seq<Transfer<E>>,
    after: Seq<Transfer<E>>,
    plan: Seq<Request>,
    failure: Option<E>,
)
    requires
        performed(before, after, plan, failure),
    ensures
        forall|i: int| 0 <= i < before.len() ==> #[trigger] after[i] == before[i],
        failure is None ==> after.len() == before.len() + plan.len(),
        failure is Some ==> before.len() < after.len() <= before.len() + plan.len(),
        forall|i: int|
            0 <= i < after.len() - before.len() ==> ({
                let outcome = match failure {
                    Some(e) if i == after.len() - before.len() - 1 => Err::<(), E>(e),
                    _ => Ok::<(), E>(()),
                };
                match #[trigger] plan[i] {
                    Request::Control { request_type, request, value, index, data } => after[
                        before.len() + i
                    ] == (Transfer::ControlOut {
                        request_type,
                        request,
                        value,
                        index,
                        data,
                        outcome,
                    }),
                    Request::Bulk { endpoint, data } => after[before.len() + i] == (
                    Transfer::BulkOut { endpoint, data, outcome }),
                }
            }),
{
    let tail = after.skip(before.len() as int);
    assert forall|i: int| 0 <= i < before.len() implies #[trigger] after[i] == before[i] by {
        assert(after.take(before.len() as int)[i] == after[i]);
    }
    assert forall|i: int| 0 <= i < tail.len() implies ({
        let outcome = match failure {
            Some(e) if i == tail.len() - 1 => Err::<(), E>(e),
            _ => Ok::<(), E>(()),
        };
        after[before.len() + i] == (#[trigger] plan[i]).with_outcome(outcome)
    }) by {
        assert(tail[i] == after[before.len() + i]);
    }
}

/// A run succeeds exactly if no request of it fails: `Ok` is the result of a plan that
/// was made in full, and an error is the failure of the last request that was made.
pub proof fn law_run_reports_its_failure<E>(
    before: Seq<Transfer<E>>,
    after: Seq<Transfer<E>>,
    plan: Seq<Request>,
    result: Result<(), Error<E>>,
)
    requires
        ran(before, after, plan, result),
    ensures
        result is Ok ==> performed(before, after, plan, None::<E>),
        result matches Err(error) ==> error matches Error::Transport(e) && performed(
            before,
            after,
            plan,
            Some(e),
        ),
{
}

} // verus!
