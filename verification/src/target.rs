//! Where requests go.
use crate::error::SessionError;
use vstd::prelude::*;

verus! {

/// A statically dispatched request target that composes with sharding and replica
/// selection.
///
/// A physical node ignores `key`, a sharded target uses it for routing, and a replica set
/// hands it to the replica that it selects.
pub trait RequestTarget<K: ?Sized>: Sized {
    type Request;

    type Response;

    type Error;

    type Future;

    /// Whether a request for this key can be submitted.
    open spec fn reachable(&self, key: &K) -> bool {
        true
    }

    /// Whether submitting this request may turn the target into `after` and give
    /// `submitted`. A target that promises something of its answers says so here.
    open spec fn may_submit(
        &self,
        after: Self,
        key: &K,
        request: Self::Request,
        submitted: Result<Self::Future, SessionError<Self::Error>>,
    ) -> bool {
        true
    }

    /// Routes and submits immediately, without waiting for request capacity.
    fn request_for(&mut self, key: &K, request: Self::Request) -> (submitted: Result<
        Self::Future,
        SessionError<Self::Error>,
    >)
        requires
            old(self).reachable(key),
        ensures
            old(self).may_submit(*final(self), key, request, submitted),
    ;
}

} // verus!
