//! Protocol-neutral single-connection transport: the verified logic.

pub mod arena;
pub mod balance;
pub mod client;
pub mod completion;
pub mod dns;
pub mod error;
pub mod lists;
pub mod maintenance;
pub mod maps;
pub mod node;
pub mod outside;
pub mod pool;
pub mod pow2;
pub mod protocol;
pub mod ranked;
pub mod rx;
pub mod session;
pub mod sharded;
pub mod source;
pub mod stream;
pub mod target;
pub mod text;
pub mod time;

pub use arena::{RequestArenaConfig, DEFAULT_REQUEST_ARENA_CHUNK_SIZE};
pub use balance::failover::{Failover, FailoverStep};
pub use balance::quota::{QuotaBalancerOptions, QuotaSelector, QuotaTicket, ReplicaSnapshot};
pub use balance::replicas::{ReplicaResponseFuture, ReplicaSet, SessionReplica};
pub use client::TcpClient;
pub use completion::{CompletionTable, RequestToken, ResponseFuture, MAX_IN_FLIGHT};
pub use dns::actor::ResolverActor;
pub use dns::options::{DnsOptions, DnsResolverOptions};
pub use error::{CallError, NetError, SessionError};
pub use node::{NodePoolOptions, NodePoolStats};
pub use pool::Pool;
pub use protocol::{Correlation, DecodedResponse, Frame, HandshakeStatus, SessionProtocol};
pub use rx::{
    ContiguousRxFrame, RxBuffer, RxCapacityError, RxFrame, DEFAULT_MAX_RX_BUFFER_CAPACITY,
};
pub use session::options::{NodeOptions, NodeStats};
pub use sharded::{ShardRouter, Sharded};
pub use source::{Endpoint, EndpointSet};
pub use stream::StreamLease;
pub use target::RequestTarget;
