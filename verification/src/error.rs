//! Errors of the network layer.
use crate::source::Endpoint;
use crate::time::Duration;
use std::sync::Arc;
use vstd::prelude::*;

verus! {

/// Why a name could not be resolved.
#[derive(Debug)]
pub struct LookupFailure {
    pub kind: std::io::ErrorKind,
    pub message: String,
}

impl Clone for LookupFailure {
    fn clone(&self) -> (copy: Self)
        ensures
            copy.kind == self.kind,
            copy.message@ == self.message@,
    {
        LookupFailure { kind: self.kind, message: self.message.clone() }
    }
}

/// Errors produced by the network layer itself.
#[derive(Debug)]
#[allow(inconsistent_fields)]
pub enum NetError {
    /// An endpoint source contains no addresses.
    NoEndpoints,
    /// A replica pool contains no replicas.
    NoReplicas,
    /// A sharded provider contains no shards.
    NoShards,
    /// A shard router returned an index that no shard has.
    InvalidShard { index: usize, shard_count: usize },
    /// An option has a value that cannot be used.
    InvalidConfig(String),
    /// A name could not be resolved.
    Resolve { name: String, source: LookupFailure },
    /// The shared DNS resolver task stopped.
    DnsResolverStopped,
    /// A node was created outside a runtime.
    NoRuntime,
    /// The global request arena already uses another chunk size.
    RequestArenaAlreadyInitialized { configured: usize, requested: usize },
    /// A connection could not be established.
    Connect { endpoint: Endpoint, source: std::io::Error },
    /// Every connection that a pool may open is in use.
    PoolExhausted { max_connections: usize },
    /// The shared pool maintainer stopped.
    PoolMaintainerStopped,
}

impl NetError {
    /// Whether this is the configuration error with this message.
    pub open spec fn rejects(self, message: Seq<char>) -> bool {
        self matches NetError::InvalidConfig(text) && text@ == message
    }

    /// The configuration error with this message.
    pub fn invalid_config(message: &str) -> (error: Self)
        ensures
            error.rejects(message@),
    {
        NetError::InvalidConfig(message.to_owned())
    }
}

/// Failure of one request submitted to a single-connection session.
///
/// I/O and protocol errors are shared, so that one connection failure can complete
/// every request in flight.
#[derive(Debug)]
pub enum SessionError<E> {
    /// The request capacity is exhausted.
    Busy,
    /// The session is not connected.
    Unavailable,
    /// The request timed out.
    Timeout { timeout: Duration },
    /// The connection was closed.
    Closed,
    /// The connection's I/O failed.
    Io(Arc<std::io::Error>),
    /// The protocol failed.
    Protocol(Arc<E>),
    /// Routing the request failed.
    Routing(Arc<NetError>),
    /// A FIFO response arrived without a pending request.
    UnexpectedResponse,
    /// The protocol encoded an empty request frame.
    EmptyRequestFrame,
}

impl<E> SessionError<E> {
    /// Whether the error is one of transport admission or of the connection.
    pub open spec fn retryable(self) -> bool {
        self is Busy || self is Unavailable || self is Timeout || self is Closed || self is Io
    }

    /// Whether the request may succeed when resubmitted to another physical replica.
    ///
    /// A protocol or routing failure is deterministic from the client's point of view
    /// and must not be hidden by a failover.
    pub fn is_retryable_transport(&self) -> (retryable: bool)
        ensures
            retryable == self.retryable(),
            retryable == match self {
                SessionError::Busy | SessionError::Unavailable | SessionError::Closed => true,
                SessionError::Timeout { .. } | SessionError::Io(_) => true,
                _ => false,
            },
    {
        match self {
            SessionError::Busy => true,
            SessionError::Unavailable => true,
            SessionError::Timeout { .. } => true,
            SessionError::Closed => true,
            SessionError::Io(_) => true,
            _ => false,
        }
    }
}

impl<E> Clone for SessionError<E> {
    fn clone(&self) -> (copy: Self)
        ensures
            copy == *self,
    {
        match self {
            SessionError::Busy => SessionError::Busy,
            SessionError::Unavailable => SessionError::Unavailable,
            SessionError::Timeout { timeout } => SessionError::Timeout { timeout: *timeout },
            SessionError::Closed => SessionError::Closed,
            SessionError::Io(error) => SessionError::Io(error.clone()),
            SessionError::Protocol(error) => SessionError::Protocol(error.clone()),
            SessionError::Routing(error) => SessionError::Routing(error.clone()),
            SessionError::UnexpectedResponse => SessionError::UnexpectedResponse,
            SessionError::EmptyRequestFrame => SessionError::EmptyRequestFrame,
        }
    }
}

/// Failure of one operation on a leased connection.
#[derive(Debug)]
pub enum CallError<E> {
    /// No connection could be leased.
    Net(NetError),
    /// The operation missed its deadline.
    Timeout { timeout: Duration },
    /// The operation itself failed.
    Operation(E),
}

/// Law: a rejection is an error of configuration, and says just what is wrong.
pub proof fn law_rejections_say_what_is_wrong(error: NetError, message: Seq<char>)
    ensures
        error.rejects(message) <==> error is InvalidConfig && error->InvalidConfig_0@ == message,
{
}

} // verus!
