//! One deadline around an operation.
use crate::error::{CallError, NetError};
use crate::stream::StreamLease;
use crate::time::{Duration, Instant};
use vstd::prelude::*;

#[allow(unused_imports)]
use crate::time::later;

verus! {

/// Applies one operation deadline around a fully composed stream provider.
///
/// The deadline covers waiting for a connection, connecting, the write of the request and
/// the complete read of the response.
#[derive(Debug)]
pub struct TcpClient<P> {
    provider: P,
    operation_timeout: Duration,
}

impl<P> TcpClient<P> {
    /// The provider of connections.
    pub closed spec fn inner(&self) -> P {
        self.provider
    }

    /// How long one operation may take.
    pub closed spec fn limit(&self) -> Duration {
        self.operation_timeout
    }

    /// A client whose operations end within `operation_timeout`, which is not zero.
    pub fn new(provider: P, operation_timeout: Duration) -> (client: Result<Self, NetError>)
        ensures
            match client {
                Ok(client) => operation_timeout.nanos > 0 && client.inner() == provider
                    && client.limit() == operation_timeout,
                Err(error) => operation_timeout.nanos == 0 && error.rejects(
                    "operation_timeout must be greater than zero"@,
                ),
            },
    {
        if operation_timeout.is_zero() {
            return Err(NetError::invalid_config("operation_timeout must be greater than zero"));
        }
        Ok(TcpClient { provider, operation_timeout })
    }

    /// How long one operation may take.
    pub fn operation_timeout(&self) -> (timeout: Duration)
        ensures
            timeout == self.limit(),
    {
        self.operation_timeout
    }

    /// The provider of connections.
    pub fn provider(&self) -> (provider: &P)
        ensures
            *provider == self.inner(),
    {
        &self.provider
    }

    /// The provider of connections, which outlives the client.
    pub fn into_inner(self) -> (provider: P)
        ensures
            provider == self.inner(),
    {
        self.provider
    }

    /// When an operation that starts now has to be over.
    pub fn deadline(&self, now: Instant) -> (deadline: Instant)
        ensures
            deadline.nanos == later(now.nanos, self.limit().nanos),
    {
        now.plus(self.operation_timeout)
    }

    /// What an operation comes to: its own outcome, or a timeout when it missed its
    /// deadline.
    pub fn conclude<T, E>(&self, finished: Option<Result<T, CallError<E>>>) -> (outcome: Result<
        T,
        CallError<E>,
    >)
        ensures
            outcome == match finished {
                Some(finished) => finished,
                None => Err(CallError::Timeout { timeout: self.limit() }),
            },
    {
        match finished {
            Some(finished) => finished,
            None => Err(CallError::Timeout { timeout: self.operation_timeout }),
        }
    }
}

/// Ends an operation on a leased connection: only success lets the connection be used
/// again.
pub fn conclude_operation<T, E>(lease: &mut StreamLease, result: Result<T, E>) -> (outcome: Result<
    T,
    CallError<E>,
>)
    ensures
        match result {
            Ok(value) => outcome == Ok::<T, CallError<E>>(value) && *final(lease)
                == old(lease).succeeded(),
            Err(error) => outcome == Err::<T, CallError<E>>(CallError::Operation(error))
                && *final(lease) == *old(lease),
        },
{
    match result {
        Ok(value) => {
            lease.finish_success();
            Ok(value)
        },
        Err(error) => Err(CallError::Operation(error)),
    }
}

/// Law: an operation has its own outcome when it ends in time, and a timeout with the limit of
/// the client when it does not; its limit counts from its start.
pub proof fn law_operations_end_within_their_limit<P, T, E>(
    client: TcpClient<P>,
    finished: Option<Result<T, CallError<E>>>,
    outcome: Result<T, CallError<E>>,
    now: Instant,
    deadline: Instant,
)
    requires
        call_ensures(TcpClient::<P>::conclude::<T, E>, (&client, finished), outcome),
        call_ensures(TcpClient::<P>::deadline, (&client, now), deadline),
    ensures
        finished matches Some(own) ==> outcome == own,
        finished is None ==> outcome is Err && outcome->Err_0 is Timeout
            && outcome->Err_0->timeout == client.limit(),
        now.nanos + client.limit().nanos <= u128::MAX ==> deadline.nanos == now.nanos
            + client.limit().nanos,
{
}

/// Law: a connection goes back to its pool just after an operation that succeeded on it.
pub proof fn law_success_alone_keeps_the_connection<T, E>(
    before: StreamLease,
    after: StreamLease,
    result: Result<T, E>,
    outcome: Result<T, CallError<E>>,
)
    requires
        !before.reusable,
        exists|lease: &mut StreamLease|
            *lease == before && *final(lease) == after && #[trigger] call_ensures(
                conclude_operation::<T, E>,
                (lease, result),
                outcome,
            ),
    ensures
        result matches Ok(value) ==> outcome is Ok && outcome->Ok_0 == value,
        result matches Err(error) ==> outcome is Err && outcome->Err_0 is Operation
            && outcome->Err_0->Operation_0 == error,
        after.kept() <==> result is Ok && !before.discarded && !before.broken,
{
}

} // verus!
