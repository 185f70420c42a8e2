//! Routing by key.
use crate::error::{NetError, SessionError};
use crate::target::RequestTarget;
use std::sync::Arc;
use vstd::prelude::*;

verus! {

/// Chooses the shard of a key.
pub trait ShardRouter<K: ?Sized> {
    /// Whether the router takes this key.
    open spec fn takes(&self, key: &K, shard_count: usize) -> bool {
        true
    }

    /// The index of the key's shard.
    fn route(&self, key: &K, shard_count: usize) -> (index: usize)
        requires
            self.takes(key, shard_count),
    ;
}

impl<K: ?Sized, F: Fn(&K, usize) -> usize> ShardRouter<K> for F {
    open spec fn takes(&self, key: &K, shard_count: usize) -> bool {
        call_requires(*self, (key, shard_count))
    }

    fn route(&self, key: &K, shard_count: usize) -> (index: usize)
        ensures
            call_ensures(*self, (key, shard_count), index),
    {
        self(key, shard_count)
    }
}

/// Routes a key to one child.
pub struct Sharded<C, R> {
    shards: Vec<C>,
    router: R,
}

impl<C, R> Sharded<C, R> {
    /// The children, in order.
    pub closed spec fn shards(&self) -> Seq<C> {
        self.shards@
    }

    /// The router.
    pub closed spec fn router(&self) -> R {
        self.router
    }

    /// Children behind a router; there must be at least one.
    pub fn new(router: R, shards: Vec<C>) -> (sharded: Result<Self, NetError>)
        ensures
            match sharded {
                Ok(sharded) => shards@.len() > 0 && sharded.shards() == shards@
                    && sharded.router() == router,
                Err(error) => shards@.len() == 0 && error is NoShards,
            },
    {
        if shards.len() == 0 {
            return Err(NetError::NoShards);
        }
        Ok(Sharded { shards, router })
    }

    /// How many children there are.
    pub fn shard_count(&self) -> (count: usize)
        ensures
            count == self.shards().len(),
    {
        self.shards.len()
    }

    /// The child with this index.
    pub fn at(&self, index: usize) -> (shard: Result<&C, NetError>)
        ensures
            match shard {
                Ok(shard) => index < self.shards().len() && *shard == self.shards()[index as int],
                Err(error) => index >= self.shards().len() && error == (NetError::InvalidShard {
                    index,
                    shard_count: self.shards().len() as usize,
                }),
            },
    {
        if index < self.shards.len() {
            Ok(&self.shards[index])
        } else {
            Err(NetError::InvalidShard { index, shard_count: self.shards.len() })
        }
    }

    /// The child that the router chooses for a key.
    pub fn get<K: ?Sized>(&self, key: &K) -> (shard: Result<&C, NetError>) where R: ShardRouter<K>
        requires
            self.router().takes(key, self.shards().len() as usize),
        ensures
            exists|index: usize|
                ({
                    &&& #[trigger] call_ensures(
                        R::route,
                        (&self.router(), key, self.shards().len() as usize),
                        index,
                    )
                    &&& match shard {
                        Ok(shard) => index < self.shards().len() && *shard
                            == self.shards()[index as int],
                        Err(error) => index >= self.shards().len() && error == (
                        NetError::InvalidShard {
                            index,
                            shard_count: self.shards().len() as usize,
                        }),
                    }
                }),
    {
        let index = self.router.route(key, self.shards.len());
        self.at(index)
    }
}

impl<K: ?Sized, C: RequestTarget<K>, R: ShardRouter<K>> RequestTarget<K> for Sharded<C, R> {
    type Request = C::Request;

    type Response = C::Response;

    type Error = C::Error;

    type Future = C::Future;

    open spec fn reachable(&self, key: &K) -> bool {
        &&& self.router().takes(key, self.shards().len() as usize)
        &&& forall|i: int| 0 <= i < self.shards().len() ==> (#[trigger] self.shards()[i]).reachable(key)
    }

    open spec fn may_submit(
        &self,
        after: Self,
        key: &K,
        request: C::Request,
        submitted: Result<C::Future, SessionError<C::Error>>,
    ) -> bool {
        let shard_count = self.shards().len() as usize;
        &&& after.router() == self.router()
        &&& after.shards().len() == self.shards().len()
        &&& exists|index: usize|
            ({
                &&& #[trigger] call_ensures(R::route, (&self.router(), key, shard_count), index)
                &&& forall|i: int|
                    0 <= i < shard_count && i != index ==> #[trigger] after.shards()[i]
                        == self.shards()[i]
                &&& if index < shard_count {
                    self.shards()[index as int].may_submit(
                        after.shards()[index as int],
                        key,
                        request,
                        submitted,
                    )
                } else {
                    &&& submitted matches Err(SessionError::Routing(error))
                    &&& *error == (NetError::InvalidShard { index, shard_count })
                }
            })
    }

    fn request_for(&mut self, key: &K, request: C::Request) -> (submitted: Result<
        C::Future,
        SessionError<C::Error>,
    >)
    {
        let shard_count = self.shards.len();
        let index = self.router.route(key, shard_count);
        if index >= shard_count {
            return Err(
                SessionError::Routing(Arc::new(NetError::InvalidShard { index, shard_count })),
            );
        }
        self.shards[index].request_for(key, request)
    }
}

/// Law: a keyed request goes to the shard that the router names, and no other shard sees it. An
/// index that no shard has is an error of routing, and no shard sees the request.
pub proof fn law_requests_go_to_the_shard_of_their_key<
    K: ?Sized,
    C: RequestTarget<K>,
    R: ShardRouter<K>,
>(
    sharded: Sharded<C, R>,
    after: Sharded<C, R>,
    key: &K,
    request: C::Request,
    submitted: Result<C::Future, SessionError<C::Error>>,
)
    requires
        sharded.may_submit(after, key, request, submitted),
        sharded.shards().len() <= usize::MAX,
    ensures
        after.router() == sharded.router(),
        after.shards().len() == sharded.shards().len(),
        exists|index: usize|
            ({
                &&& #[trigger] call_ensures(
                    R::route,
                    (&sharded.router(), key, sharded.shards().len() as usize),
                    index,
                )
                &&& forall|i: int|
                    0 <= i < sharded.shards().len() && i != index ==> #[trigger] after.shards()[i]
                        == sharded.shards()[i]
                &&& index < sharded.shards().len() ==> sharded.shards()[index as int].may_submit(
                    after.shards()[index as int],
                    key,
                    request,
                    submitted,
                )
                &&& index >= sharded.shards().len() ==> {
                    &&& submitted is Err
                    &&& submitted->Err_0 is Routing
                    &&& *submitted->Err_0->Routing_0 == (NetError::InvalidShard {
                        index,
                        shard_count: sharded.shards().len() as usize,
                    })
                }
            }),
{
}

} // verus!
