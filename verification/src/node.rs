//! The connections of one pooled node.
use crate::error::NetError;
use crate::source::{contains, Endpoint};
use crate::time::{Duration, Instant};
use std::collections::VecDeque;
use vstd::prelude::*;

verus! {

/// Limits of one node pool.
#[derive(Clone, Copy, Debug, PartialEq, Eq, Structural)]
pub struct NodePoolOptions {
    /// Minimum total number of physical connections maintained in the background.
    pub min_connections: usize,
    /// Hard limit across idle, checked-out, and currently connecting sockets.
    pub max_connections: usize,
    /// How long an excess idle connection may remain unused.
    pub idle_timeout: Duration,
    /// Disable Nagle aggregation to prioritize latency for small requests.
    pub tcp_nodelay: bool,
}

impl Default for NodePoolOptions {
    fn default() -> (options: Self)
        ensures
            options.min_connections == 1,
            options.max_connections == 256,
            options.idle_timeout.nanos == 300_000_000_000,
            options.tcp_nodelay,
    {
        NodePoolOptions {
            min_connections: 1,
            max_connections: 256,
            idle_timeout: Duration::from_secs(300),
            tcp_nodelay: true,
        }
    }
}

impl NodePoolOptions {
    /// What is wrong with the options, if anything.
    pub open spec fn complaint(self) -> Option<Seq<char>> {
        if self.max_connections == 0 {
            Some("max_connections must be greater than zero"@)
        } else if self.min_connections > self.max_connections {
            Some("min_connections cannot exceed max_connections"@)
        } else if self.idle_timeout.nanos == 0 {
            Some("idle_timeout must be greater than zero"@)
        } else {
            None
        }
    }
}

/// Checks the options.
pub fn validate_options(options: NodePoolOptions) -> (checked: Result<(), NetError>)
    ensures
        match checked {
            Ok(_) => options.complaint() is None,
            Err(error) => options.complaint() matches Some(message) && error.rejects(message),
        },
{
    if options.max_connections == 0 {
        return Err(NetError::invalid_config("max_connections must be greater than zero"));
    }
    if options.min_connections > options.max_connections {
        return Err(NetError::invalid_config("min_connections cannot exceed max_connections"));
    }
    if options.idle_timeout.is_zero() {
        return Err(NetError::invalid_config("idle_timeout must be greater than zero"));
    }
    Ok(())
}

/// How many connections a node has, and in which state.
#[derive(Clone, Copy, Debug, PartialEq, Eq, Structural)]
pub struct NodePoolStats {
    pub total_connections: usize,
    pub idle_connections: usize,
    pub checked_out_connections: usize,
    pub connecting_connections: usize,
}

/// A connection that waits for its next use.
pub struct IdleConnection<C> {
    pub connection: C,
    pub endpoint: Endpoint,
    pub since: Instant,
}

/// What a request for a connection comes to.
pub enum AcquireAction<C> {
    /// The node has no address.
    NoEndpoints,
    /// A connection that waited is used again.
    Reuse(IdleConnection<C>),
    /// A new connection is to be made; a place is set aside for it.
    Connect,
    /// Every connection that the node may have is in use.
    Exhausted,
}

/// The connections of one node as contracts see them.
#[verifier::ext_equal]
pub struct PoolView<C> {
    pub options: NodePoolOptions,
    /// Connections that wait for use, the one that waits longest first.
    pub idle: Seq<IdleConnection<C>>,
    pub checked_out: nat,
    pub connecting: nat,
}

/// The idle connections that lead to one of these endpoints.
pub open spec fn reachable<C>(
    idle: Seq<IdleConnection<C>>,
    endpoints: Seq<Endpoint>,
) -> Seq<IdleConnection<C>>
    decreases idle.len(),
{
    if idle.len() == 0 {
        idle
    } else if endpoints.contains(idle.last().endpoint) {
        reachable(idle.drop_last(), endpoints).push(idle.last())
    } else {
        reachable(idle.drop_last(), endpoints)
    }
}

/// Whether a connection has waited at least so long.
pub open spec fn expired<C>(idle: IdleConnection<C>, now: u128, timeout: u128) -> bool {
    now - idle.since.nanos >= timeout
}

/// How many of the longest waiting connections are closed: those that have expired, as
/// long as more than `needed` are left.
pub open spec fn surplus<C>(
    idle: Seq<IdleConnection<C>>,
    needed: nat,
    now: u128,
    timeout: u128,
) -> nat
    decreases idle.len(),
{
    if idle.len() > needed && expired(idle[0], now, timeout) {
        1 + surplus(idle.drop_first(), needed, now, timeout)
    } else {
        0
    }
}

impl<C> PoolView<C> {
    /// A node without connections.
    pub open spec fn unconnected(options: NodePoolOptions) -> Self {
        PoolView { options, idle: Seq::empty(), checked_out: 0, connecting: 0 }
    }

    /// Connections in any state.
    pub open spec fn total(self) -> nat {
        self.idle.len() + self.checked_out + self.connecting
    }

    /// The options are usable, and the node has no more connections than it may.
    pub open spec fn valid(self) -> bool {
        self.options.complaint() is None && self.total() <= self.options.max_connections
    }

    /// The node after a request for a connection.
    pub open spec fn acquired(self, has_endpoints: bool) -> Self {
        if !has_endpoints {
            self
        } else if self.idle.len() > 0 {
            PoolView {
                idle: self.idle.drop_last(),
                checked_out: self.checked_out + 1,
                ..self
            }
        } else if self.total() < self.options.max_connections {
            PoolView { connecting: self.connecting + 1, ..self }
        } else {
            self
        }
    }

    /// What a request for a connection comes to.
    pub open spec fn action(self, has_endpoints: bool) -> AcquireAction<C> {
        if !has_endpoints {
            AcquireAction::NoEndpoints
        } else if self.idle.len() > 0 {
            AcquireAction::Reuse(self.idle.last())
        } else if self.total() < self.options.max_connections {
            AcquireAction::Connect
        } else {
            AcquireAction::Exhausted
        }
    }

    /// Connections that stay idle for the minimum's sake.
    pub open spec fn idle_needed(self) -> nat {
        let busy = self.checked_out + self.connecting;
        if self.options.min_connections > busy {
            (self.options.min_connections - busy) as nat
        } else {
            0
        }
    }

    /// The node after housekeeping: idle connections to addresses that are gone are closed,
    /// then those that have waited too long and are not needed.
    pub open spec fn tidied(self, endpoints: Seq<Endpoint>, now: u128) -> Self {
        let kept = reachable(self.idle, endpoints);
        let closed = surplus(kept, self.idle_needed(), now, self.options.idle_timeout.nanos);
        PoolView { idle: kept.skip(closed as int), ..self }
    }

    /// Whether the node lacks connections for its minimum.
    pub open spec fn wanting(self) -> bool {
        self.total() < self.options.min_connections
    }

    /// The node after a place is set aside for a new connection.
    pub open spec fn reserved(self) -> Self {
        PoolView { connecting: self.connecting + 1, ..self }
    }

    /// The node after a place that was set aside is given back.
    pub open spec fn released(self) -> Self {
        PoolView { connecting: (self.connecting - 1) as nat, ..self }
    }

    /// The node with one more idle connection.
    pub open spec fn with_idle(self, idle: IdleConnection<C>) -> Self {
        PoolView { idle: self.idle.push(idle), ..self }
    }
}

/// The connections of one node.
pub struct ConnectionState<C> {
    options: NodePoolOptions,
    idle: VecDeque<IdleConnection<C>>,
    checked_out: usize,
    connecting: usize,
}

impl<C> View for ConnectionState<C> {
    type V = PoolView<C>;

    closed spec fn view(&self) -> PoolView<C> {
        PoolView {
            options: self.options,
            idle: self.idle@,
            checked_out: self.checked_out as nat,
            connecting: self.connecting as nat,
        }
    }
}

impl<C> ConnectionState<C> {
    /// A node without connections.
    pub fn new(options: NodePoolOptions) -> (state: Result<Self, NetError>)
        ensures
            match state {
                Ok(state) => state@.valid() && state@ == PoolView::<C>::unconnected(options),
                Err(error) => options.complaint() matches Some(message) && error.rejects(message),
            },
    {
        match validate_options(options) {
            Ok(_) => {
                let state = ConnectionState {
                    options,
                    idle: VecDeque::new(),
                    checked_out: 0,
                    connecting: 0,
                };
                assert(state@ =~= PoolView::<C>::unconnected(options));
                Ok(state)
            },
            Err(error) => Err(error),
        }
    }

    /// Connections in any state.
    fn total(&self) -> (total: usize)
        requires
            self@.valid(),
        ensures
            total == self@.total(),
    {
        self.idle.len() + self.checked_out + self.connecting
    }

    /// How many connections the node has, and in which state.
    pub fn stats(&self) -> (stats: NodePoolStats)
        requires
            self@.valid(),
        ensures
            stats.total_connections == self@.total(),
            stats.idle_connections == self@.idle.len(),
            stats.checked_out_connections == self@.checked_out,
            stats.connecting_connections == self@.connecting,
    {
        NodePoolStats {
            total_connections: self.total(),
            idle_connections: self.idle.len(),
            checked_out_connections: self.checked_out,
            connecting_connections: self.connecting,
        }
    }

    /// Takes the connection that was used last, or a place for a new one.
    pub fn acquire(&mut self, has_endpoints: bool) -> (action: AcquireAction<C>)
        requires
            old(self)@.valid(),
        ensures
            final(self)@.valid(),
            final(self)@ == old(self)@.acquired(has_endpoints),
            action == old(self)@.action(has_endpoints),
            match action {
                AcquireAction::NoEndpoints => !has_endpoints && final(self)@ == old(self)@,
                AcquireAction::Reuse(idle) => {
                    &&& has_endpoints
                    &&& old(self)@.idle == final(self)@.idle.push(idle)
                    &&& final(self)@.checked_out == old(self)@.checked_out + 1
                    &&& final(self)@.connecting == old(self)@.connecting
                },
                AcquireAction::Connect => {
                    &&& has_endpoints
                    &&& old(self)@.idle.len() == 0
                    &&& old(self)@.checked_out + old(self)@.connecting
                        < old(self)@.options.max_connections
                    &&& final(self)@.idle.len() == 0
                    &&& final(self)@.checked_out == old(self)@.checked_out
                    &&& final(self)@.connecting == old(self)@.connecting + 1
                },
                AcquireAction::Exhausted => {
                    &&& has_endpoints
                    &&& old(self)@.idle.len() == 0
                    &&& old(self)@.checked_out + old(self)@.connecting
                        == old(self)@.options.max_connections
                    &&& final(self)@ == old(self)@
                },
            },
    {
        if !has_endpoints {
            return AcquireAction::NoEndpoints;
        }
        let total = self.total();
        match self.idle.pop_back() {
            Some(idle) => {
                self.checked_out = self.checked_out + 1;
                assert(self@ =~= old(self)@.acquired(true));
                assert(old(self)@.idle =~= self@.idle.push(idle));
                AcquireAction::Reuse(idle)
            },
            None => {
                if total < self.options.max_connections {
                    self.connecting = self.connecting + 1;
                    AcquireAction::Connect
                } else {
                    AcquireAction::Exhausted
                }
            },
        }
    }

    /// A leased connection comes back.
    pub fn recycle(&mut self, connection: C, endpoint: Endpoint, now: Instant)
        requires
            old(self)@.valid(),
            old(self)@.checked_out > 0,
        ensures
            final(self)@.valid(),
            final(self)@ == (PoolView {
                checked_out: (old(self)@.checked_out - 1) as nat,
                ..old(self)@.with_idle(IdleConnection { connection, endpoint, since: now })
            }),
    {
        self.checked_out = self.checked_out - 1;
        self.idle.push_back(IdleConnection { connection, endpoint, since: now });
    }

    /// A leased connection was closed.
    pub fn discard_connection(&mut self)
        requires
            old(self)@.valid(),
            old(self)@.checked_out > 0,
        ensures
            final(self)@.valid(),
            final(self)@ == (PoolView {
                checked_out: (old(self)@.checked_out - 1) as nat,
                ..old(self)@
            }),
    {
        self.checked_out = self.checked_out - 1;
    }

    /// A request's new connection is established and leased to it.
    pub fn finish_request_connection(&mut self)
        requires
            old(self)@.valid(),
            old(self)@.connecting > 0,
        ensures
            final(self)@.valid(),
            final(self)@ == (PoolView {
                checked_out: old(self)@.checked_out + 1,
                ..old(self)@.released()
            }),
    {
        self.connecting = self.connecting - 1;
        self.checked_out = self.checked_out + 1;
    }

    /// A connection that was to be made is not: its place is given back.
    pub fn release_reservation(&mut self)
        requires
            old(self)@.valid(),
            old(self)@.connecting > 0,
        ensures
            final(self)@.valid(),
            final(self)@ == old(self)@.released(),
    {
        self.connecting = self.connecting - 1;
    }

    /// Closes idle connections to addresses that are gone, and those that have waited too
    /// long; returns whether connections are missing and could be made.
    pub fn maintenance_tick(&mut self, endpoints: &Vec<Endpoint>, now: Instant) -> (wanting: bool)
        requires
            old(self)@.valid(),
        ensures
            final(self)@.valid(),
            final(self)@ == old(self)@.tidied(endpoints@, now.nanos),
            wanting == (endpoints@.len() > 0 && final(self)@.wanting()),
            wanting == (endpoints@.len() > 0 && final(self)@.idle.len() + old(self)@.checked_out
                + old(self)@.connecting < old(self)@.options.min_connections),
    {
        let ghost all = self.idle@;
        let ghost mut seen: int = 0;
        let mut kept: VecDeque<IdleConnection<C>> = VecDeque::new();
        assert(all.skip(0) =~= all);
        assert(kept@ =~= reachable(all.take(0), endpoints@));
        while self.idle.len() > 0
            invariant
                0 <= seen <= all.len(),
                self.idle@ == all.skip(seen),
                self.options == old(self).options,
                self.checked_out == old(self).checked_out,
                self.connecting == old(self).connecting,
                kept@ == reachable(all.take(seen), endpoints@),
            decreases self.idle@.len(),
        {
            assert(all.take(seen + 1).drop_last() =~= all.take(seen));
            if let Some(idle) = self.idle.pop_front() {
                proof {
                    assert(idle == all[seen]);
                    assert(self.idle@ =~= all.skip(seen + 1));
                    seen = seen + 1;
                }
                if contains(endpoints, idle.endpoint) {
                    kept.push_back(idle);
                }
            }
        }
        assert(all.take(seen) =~= all);
        proof {
            lemma_reachable_shrinks(all, endpoints@);
        }
        self.idle = kept;
        let ghost survivors = self.idle@;
        let busy = self.checked_out + self.connecting;
        let needed: usize = if self.options.min_connections > busy {
            self.options.min_connections - busy
        } else {
            0
        };
        let timeout = self.options.idle_timeout.nanos;
        let ghost mut closed: int = 0;
        let ghost goal = surplus(survivors, needed as nat, now.nanos, timeout);
        assert(survivors.skip(0) =~= survivors);
        while self.idle.len() > needed && is_expired(&self.idle[0], now, timeout)
            invariant
                timeout > 0,
                0 <= closed <= survivors.len(),
                self.idle@ == survivors.skip(closed),
                self.options == old(self).options,
                self.checked_out == old(self).checked_out,
                self.connecting == old(self).connecting,
                goal == closed + surplus(
                    survivors.skip(closed),
                    needed as nat,
                    now.nanos,
                    timeout,
                ),
            decreases self.idle@.len(),
        {
            let _ = self.idle.pop_front();
            proof {
                assert(survivors.skip(closed).drop_first() =~= survivors.skip(closed + 1));
                closed = closed + 1;
            }
        }
        assert(self@ =~= old(self)@.tidied(endpoints@, now.nanos));
        endpoints.len() > 0 && self.total() < self.options.min_connections
    }

    /// Sets a place aside for a background connection, if the node lacks one and has an
    /// address.
    pub fn reserve_background_connection(&mut self, has_endpoints: bool) -> (reserved: bool)
        requires
            old(self)@.valid(),
        ensures
            final(self)@.valid(),
            reserved == (has_endpoints && old(self)@.wanting()),
            reserved == (has_endpoints && old(self)@.idle.len() + old(self)@.checked_out
                + old(self)@.connecting < old(self)@.options.min_connections),
            final(self)@.connecting == old(self)@.connecting + if reserved {
                1nat
            } else {
                0
            },
            final(self)@ == if reserved {
                old(self)@.reserved()
            } else {
                old(self)@
            },
    {
        if !has_endpoints {
            return false;
        }
        if self.total() >= self.options.min_connections || self.total()
            >= self.options.max_connections {
            return false;
        }
        self.connecting = self.connecting + 1;
        true
    }

    /// A background connection was tried: one that leads to a current address waits for
    /// use, any other is handed back to be closed. Returns whether to try again at once,
    /// and the connection that is not kept.
    pub fn finish_background_connection(
        &mut self,
        made: Option<(C, Endpoint)>,
        endpoints: &Vec<Endpoint>,
        now: Instant,
    ) -> (finished: (bool, Option<C>))
        requires
            old(self)@.valid(),
            old(self)@.connecting > 0,
        ensures
            final(self)@.valid(),
            match made {
                Some((connection, endpoint)) => if endpoints@.contains(endpoint) {
                    &&& final(self)@ == old(self)@.released().with_idle(
                        IdleConnection { connection, endpoint, since: now },
                    )
                    &&& finished.0 == final(self)@.wanting()
                    &&& finished.1 is None
                } else {
                    &&& final(self)@ == old(self)@.released()
                    &&& finished.0
                    &&& finished.1 == Some(connection)
                },
                None => {
                    &&& final(self)@ == old(self)@.released()
                    &&& !finished.0
                    &&& finished.1 is None
                },
            },
    {
        self.connecting = self.connecting - 1;
        match made {
            Some((connection, endpoint)) => {
                if contains(endpoints, endpoint) {
                    self.idle.push_back(IdleConnection { connection, endpoint, since: now });
                    (self.total() < self.options.min_connections, None)
                } else {
                    (true, Some(connection))
                }
            },
            None => (false, None),
        }
    }
}

/// Whether a connection has waited at least so long.
fn is_expired<C>(idle: &IdleConnection<C>, now: Instant, timeout: u128) -> (is: bool)
    requires
        timeout > 0,
    ensures
        is == expired(*idle, now.nanos, timeout),
{
    now.nanos >= idle.since.nanos && now.nanos - idle.since.nanos >= timeout
}

proof fn lemma_reachable_shrinks<C>(idle: Seq<IdleConnection<C>>, endpoints: Seq<Endpoint>)
    ensures
        reachable(idle, endpoints).len() <= idle.len(),
    decreases idle.len(),
{
    if idle.len() > 0 {
        lemma_reachable_shrinks(idle.drop_last(), endpoints);
    }
}

/// Where one search for a reachable address stands.
pub struct EndpointRotation {
    start: usize,
    tried: usize,
    count: usize,
}

/// The address that the `offset`th try uses.
pub open spec fn rotation_index(start: int, offset: int, count: int) -> int {
    (start + offset) % count
}

impl EndpointRotation {
    /// The number of the first try; later tries go on from it.
    pub closed spec fn start(&self) -> int {
        self.start as int
    }

    /// How many addresses have been tried.
    pub closed spec fn tried(&self) -> int {
        self.tried as int
    }

    /// How many addresses there are.
    pub closed spec fn count(&self) -> int {
        self.count as int
    }

    /// The start is an address, and no address is tried twice.
    pub closed spec fn wf(&self) -> bool {
        self.tried <= self.count && (self.count > 0 ==> self.start < self.count)
    }

    /// Starts one try for each of `count` addresses. `counter` moves on, so that the next
    /// search starts one address later.
    pub fn begin(counter: &mut usize, count: usize) -> (rotation: Self)
        ensures
            rotation.wf(),
            rotation.tried() == 0,
            rotation.count() == count,
            count > 0 ==> rotation.start() == *old(counter) as int % (count as int),
            *final(counter) == if *old(counter) == usize::MAX {
                0
            } else {
                *old(counter) + 1
            },
    {
        let number = *counter;
        *counter = number.wrapping_add(1);
        EndpointRotation {
            start: if count > 0 {
                number % count
            } else {
                0
            },
            tried: 0,
            count,
        }
    }

    /// The address to try next, until each has been tried.
    pub fn next(&mut self) -> (index: Option<usize>)
        requires
            old(self).wf(),
        ensures
            final(self).wf(),
            final(self).start() == old(self).start(),
            final(self).count() == old(self).count(),
            match index {
                Some(index) => {
                    &&& old(self).tried() < old(self).count()
                    &&& index == rotation_index(old(self).start(), old(self).tried(), old(self).count())
                    &&& index < old(self).count()
                    &&& final(self).tried() == old(self).tried() + 1
                },
                None => old(self).tried() == old(self).count() && final(self).tried()
                    == old(self).tried(),
            },
    {
        if self.tried >= self.count {
            return None;
        }
        let (start, tried, count) = (self.start, self.tried, self.count);
        self.tried = tried + 1;
        if tried < count - start {
            assert((start + tried) % (count as int) == start + tried) by (nonlinear_arith)
                requires
                    0 <= start + tried < count,
            ;
            Some(start + tried)
        } else {
            assert((start + tried) % (count as int) == start + tried - count) by (nonlinear_arith)
                requires
                    count <= start + tried < 2 * count,
            ;
            Some(tried - (count - start))
        }
    }

    /// The error when no address could be reached: that of the last try.
    pub fn exhausted(last: Option<NetError>) -> (error: NetError)
        ensures
            match last {
                Some(last) => error == last,
                None => error is NoEndpoints,
            },
    {
        match last {
            Some(last) => last,
            None => NetError::NoEndpoints,
        }
    }
}

/// Law: a request never opens a connection while one waits, and reuses the connection that
/// was used last.
pub proof fn law_waiting_connections_are_reused<C>(pool: PoolView<C>)
    requires
        pool.valid(),
        pool.idle.len() > 0,
    ensures
        pool.action(true) == AcquireAction::Reuse(pool.idle.last()),
        pool.acquired(true).connecting == pool.connecting,
        pool.acquired(true).total() == pool.total(),
{
}

/// Law: a node that may have no more connections refuses at once, and changes nothing.
pub proof fn law_exhausted_nodes_fail_fast<C>(pool: PoolView<C>)
    requires
        pool.valid(),
        pool.idle.len() == 0,
        pool.total() == pool.options.max_connections,
    ensures
        pool.action(true) is Exhausted,
        pool.acquired(true) == pool,
{
}

/// Law: housekeeping keeps only connections to current addresses, and closes no connection
/// that the minimum needs and that leads to a current address.
pub proof fn law_housekeeping_preserves_the_minimum<C>(
    pool: PoolView<C>,
    endpoints: Seq<Endpoint>,
    now: u128,
)
    ensures
        forall|i: int|
            0 <= i < pool.tidied(endpoints, now).idle.len() ==> endpoints.contains(
                (#[trigger] pool.tidied(endpoints, now).idle[i]).endpoint,
            ),
        pool.tidied(endpoints, now).idle.len() >= if reachable(pool.idle, endpoints).len()
            < pool.idle_needed() {
            reachable(pool.idle, endpoints).len()
        } else {
            pool.idle_needed()
        },
{
    let kept = reachable(pool.idle, endpoints);
    lemma_reachable_endpoints(pool.idle, endpoints);
    lemma_surplus(kept, pool.idle_needed(), now, pool.options.idle_timeout.nanos);
    let closed = surplus(kept, pool.idle_needed(), now, pool.options.idle_timeout.nanos);
    assert forall|i: int| 0 <= i < pool.tidied(endpoints, now).idle.len() implies endpoints
        .contains((#[trigger] pool.tidied(endpoints, now).idle[i]).endpoint) by {
        assert(pool.tidied(endpoints, now).idle[i] == kept[i + closed]);
    }
}

proof fn lemma_reachable_endpoints<C>(idle: Seq<IdleConnection<C>>, endpoints: Seq<Endpoint>)
    ensures
        forall|i: int|
            0 <= i < reachable(idle, endpoints).len() ==> endpoints.contains(
                (#[trigger] reachable(idle, endpoints)[i]).endpoint,
            ),
    decreases idle.len(),
{
    if idle.len() > 0 {
        let rest = reachable(idle.drop_last(), endpoints);
        lemma_reachable_endpoints(idle.drop_last(), endpoints);
        assert forall|i: int| 0 <= i < reachable(idle, endpoints).len() implies endpoints.contains(
            (#[trigger] reachable(idle, endpoints)[i]).endpoint,
        ) by {
            if i < rest.len() {
                assert(reachable(idle, endpoints)[i] == rest[i]);
            }
        }
    }
}

proof fn lemma_surplus<C>(idle: Seq<IdleConnection<C>>, needed: nat, now: u128, timeout: u128)
    ensures
        surplus(idle, needed, now, timeout) <= idle.len(),
        idle.len() >= needed ==> idle.len() - surplus(idle, needed, now, timeout) >= needed,
        idle.len() < needed ==> surplus(idle, needed, now, timeout) == 0,
    decreases idle.len(),
{
    if idle.len() > needed && expired(idle[0], now, timeout) {
        lemma_surplus(idle.drop_first(), needed, now, timeout);
    }
}

/// Law: a search for a reachable address tries no address twice.
pub proof fn law_rotation_tries_each_address_once(start: int, i: int, j: int, count: int)
    requires
        0 <= start < count,
        0 <= i < j < count,
    ensures
        rotation_index(start, i, count) != rotation_index(start, j, count),
{
    assert((start + i) % count != (start + j) % count) by (nonlinear_arith)
        requires
            0 <= start < count,
            0 <= i < j < count,
    {
        assert((start + i) % count == if start + i < count {
            start + i
        } else {
            start + i - count
        });
        assert((start + j) % count == if start + j < count {
            start + j
        } else {
            start + j - count
        });
    }
}

/// The positions of the idle connections that lead to one of these endpoints.
spec fn leading<C>(idle: Seq<IdleConnection<C>>, endpoints: Seq<Endpoint>) -> Seq<int>
    decreases idle.len(),
{
    if idle.len() == 0 {
        Seq::empty()
    } else {
        let rest = leading(idle.drop_last(), endpoints);
        let last = idle.len() - 1;
        if endpoints.contains(idle[last].endpoint) {
            rest.push(last)
        } else {
            rest
        }
    }
}

proof fn lemma_leading<C>(idle: Seq<IdleConnection<C>>, endpoints: Seq<Endpoint>)
    ensures
        leading(idle, endpoints).len() == reachable(idle, endpoints).len(),
        forall|k: int|
            0 <= k < leading(idle, endpoints).len() ==> {
                &&& 0 <= #[trigger] leading(idle, endpoints)[k] < idle.len()
                &&& reachable(idle, endpoints)[k] == idle[leading(idle, endpoints)[k]]
                &&& endpoints.contains(idle[leading(idle, endpoints)[k]].endpoint)
            },
        forall|k: int, l: int|
            0 <= k < l < leading(idle, endpoints).len() ==> #[trigger] leading(idle, endpoints)[k]
                < #[trigger] leading(idle, endpoints)[l],
        forall|i: int|
            0 <= i < idle.len() && endpoints.contains((#[trigger] idle[i]).endpoint) ==> leading(
                idle,
                endpoints,
            ).contains(i),
    decreases idle.len(),
{
    if idle.len() > 0 {
        let less = idle.drop_last();
        let rest = leading(less, endpoints);
        let all = leading(idle, endpoints);
        lemma_leading(less, endpoints);
        assert forall|k: int| 0 <= k < all.len() implies {
            &&& 0 <= #[trigger] all[k] < idle.len()
            &&& reachable(idle, endpoints)[k] == idle[all[k]]
            &&& endpoints.contains(idle[all[k]].endpoint)
        } by {
            if k < rest.len() {
                assert(all[k] == rest[k]);
                assert(less[rest[k]] == idle[rest[k]]);
            }
        }
        assert forall|k: int, l: int| 0 <= k < l < all.len() implies #[trigger] all[k]
            < #[trigger] all[l] by {
            assert(all[k] == rest[k]);
            if l < rest.len() {
                assert(all[l] == rest[l]);
            }
        }
        assert forall|i: int|
            0 <= i < idle.len() && endpoints.contains(
                (#[trigger] idle[i]).endpoint,
            ) implies all.contains(i) by {
            if i < less.len() {
                assert(less[i] == idle[i]);
                let k = choose|k: int| 0 <= k < rest.len() && rest[k] == i;
                assert(all[k] == i);
            } else {
                assert(all[all.len() - 1] == i);
            }
        }
    }
}

proof fn lemma_surplus_waited<C>(idle: Seq<IdleConnection<C>>, needed: nat, now: u128, timeout: u128)
    ensures
        forall|k: int|
            0 <= k < surplus(idle, needed, now, timeout) ==> now - (
            #[trigger] idle[k]).since.nanos >= timeout,
        surplus(idle, needed, now, timeout) < idle.len() && idle.len() - surplus(
            idle,
            needed,
            now,
            timeout,
        ) > needed ==> now - idle[surplus(idle, needed, now, timeout) as int].since.nanos < timeout,
    decreases idle.len(),
{
    if idle.len() > needed && expired(idle[0], now, timeout) {
        let rest = idle.drop_first();
        lemma_surplus_waited(rest, needed, now, timeout);
        lemma_surplus(rest, needed, now, timeout);
        let closed = surplus(idle, needed, now, timeout);
        assert forall|k: int| 0 <= k < closed implies now - (#[trigger] idle[k]).since.nanos
            >= timeout by {
            if k > 0 {
                assert(idle[k] == rest[k - 1]);
            }
        }
        if closed < idle.len() {
            assert(idle[closed as int] == rest[closed - 1]);
        }
    }
}

/// Law: what housekeeping leaves. `kept` gives the positions of the connections that stay, in
/// their order. Each of them leads to a current address. A connection to a current address is
/// closed only when it has waited for the idle timeout and longer than every connection that
/// stays, and only if those that stay are as many as the minimum needs besides the
/// connections in use; and of more than that many, the longest waiting has not expired.
pub proof fn law_housekeeping_closes_the_stale_alone<C>(
    pool: PoolView<C>,
    endpoints: Seq<Endpoint>,
    now: u128,
) -> (kept: Seq<int>)
    ensures
        ({
            let after = pool.tidied(endpoints, now);
            let busy = pool.checked_out + pool.connecting;
            &&& after.options == pool.options
            &&& after.checked_out == pool.checked_out
            &&& after.connecting == pool.connecting
            &&& after.idle.len() == kept.len()
            &&& forall|k: int|
                0 <= k < kept.len() ==> {
                    &&& 0 <= #[trigger] kept[k] < pool.idle.len()
                    &&& after.idle[k] == pool.idle[kept[k]]
                    &&& endpoints.contains(pool.idle[kept[k]].endpoint)
                }
            &&& forall|k: int, l: int|
                0 <= k < l < kept.len() ==> #[trigger] kept[k] < #[trigger] kept[l]
            &&& forall|i: int|
                0 <= i < pool.idle.len() && endpoints.contains((#[trigger] pool.idle[i]).endpoint)
                    && !kept.contains(i) ==> {
                    &&& now - pool.idle[i].since.nanos >= pool.options.idle_timeout.nanos
                    &&& kept.len() + busy >= pool.options.min_connections
                    &&& forall|k: int| 0 <= k < kept.len() ==> i < #[trigger] kept[k]
                }
            &&& kept.len() > 0 && kept.len() + busy > pool.options.min_connections ==> now
                - pool.idle[kept[0]].since.nanos < pool.options.idle_timeout.nanos
        }),
{
    let timeout = pool.options.idle_timeout.nanos;
    let needed = pool.idle_needed();
    let all = leading(pool.idle, endpoints);
    let survivors = reachable(pool.idle, endpoints);
    let closed = surplus(survivors, needed, now, timeout) as int;
    lemma_leading(pool.idle, endpoints);
    lemma_surplus(survivors, needed, now, timeout);
    lemma_surplus_waited(survivors, needed, now, timeout);
    let kept = all.skip(closed);
    let after = pool.tidied(endpoints, now);
    assert forall|k: int| 0 <= k < kept.len() implies {
        &&& 0 <= #[trigger] kept[k] < pool.idle.len()
        &&& after.idle[k] == pool.idle[kept[k]]
        &&& endpoints.contains(pool.idle[kept[k]].endpoint)
    } by {
        assert(kept[k] == all[k + closed]);
    }
    assert forall|k: int, l: int| 0 <= k < l < kept.len() implies #[trigger] kept[k]
        < #[trigger] kept[l] by {
        assert(kept[k] == all[k + closed] && kept[l] == all[l + closed]);
    }
    assert forall|i: int|
        0 <= i < pool.idle.len() && endpoints.contains((#[trigger] pool.idle[i]).endpoint)
            && !kept.contains(i) implies {
        &&& now - pool.idle[i].since.nanos >= timeout
        &&& kept.len() + pool.checked_out + pool.connecting >= pool.options.min_connections
        &&& forall|k: int| 0 <= k < kept.len() ==> i < #[trigger] kept[k]
    } by {
        let at = choose|k: int| 0 <= k < all.len() && all[k] == i;
        if at >= closed {
            assert(kept[at - closed] == i);
        }
        assert(survivors[at] == pool.idle[all[at]]);
        assert forall|k: int| 0 <= k < kept.len() implies i < #[trigger] kept[k] by {
            assert(kept[k] == all[k + closed]);
        }
    }
    if kept.len() > 0 {
        assert(kept[0] == all[closed]);
        assert(survivors[closed] == pool.idle[all[closed]]);
    }
    kept
}

/// Law: housekeeping closes no connection that leads to any current address and has waited
/// less than the idle timeout, when idle connections are listed oldest first.
pub proof fn law_fresh_connections_stay<C>(pool: PoolView<C>, endpoints: Seq<Endpoint>, now: u128)
    requires
        forall|i: int, j: int|
            0 <= i < j < pool.idle.len() ==> (#[trigger] pool.idle[i]).since.nanos <= (
            #[trigger] pool.idle[j]).since.nanos,
    ensures
        forall|i: int|
            0 <= i < pool.idle.len() && endpoints.contains((#[trigger] pool.idle[i]).endpoint)
                && now - pool.idle[i].since.nanos < pool.options.idle_timeout.nanos
                ==> pool.tidied(endpoints, now).idle.contains(pool.idle[i]),
{
    let kept = law_housekeeping_closes_the_stale_alone(pool, endpoints, now);
    let after = pool.tidied(endpoints, now);
    assert forall|i: int|
        0 <= i < pool.idle.len() && endpoints.contains((#[trigger] pool.idle[i]).endpoint) && now
            - pool.idle[i].since.nanos < pool.options.idle_timeout.nanos implies after.idle.contains(
        pool.idle[i],
    ) by {
        let k = choose|k: int| 0 <= k < kept.len() && kept[k] == i;
        assert(after.idle[k] == pool.idle[kept[k]]);
    }
}

/// Law: the minimum is measured in connections that lead somewhere: after housekeeping at
/// least as many are left as the minimum needs besides the connections in use, or all of
/// those that lead to a current address, if they are fewer.
pub proof fn law_the_minimum_counts_reachable_connections<C>(
    pool: PoolView<C>,
    endpoints: Seq<Endpoint>,
    now: u128,
)
    ensures
        ({
            let leads = vstd::set_lib::set_int_range(0, pool.idle.len() as int).filter(
                |i: int| endpoints.contains(pool.idle[i].endpoint),
            );
            let after = pool.tidied(endpoints, now);
            &&& leads.len() >= after.idle.len()
            &&& after.idle.len() == leads.len() || after.idle.len() + pool.checked_out
                + pool.connecting >= pool.options.min_connections
        }),
{
    let count = pool.idle.len() as int;
    let leads = vstd::set_lib::set_int_range(0, count).filter(
        |i: int| endpoints.contains(pool.idle[i].endpoint),
    );
    vstd::set_lib::lemma_int_range(0, count);
    let kept = law_housekeeping_closes_the_stale_alone(pool, endpoints, now);
    assert(kept.no_duplicates()) by {
        assert forall|k: int, l: int|
            0 <= k < kept.len() && 0 <= l < kept.len() && k != l implies kept[k] != kept[l] by {
            if k < l {
                assert(kept[k] < kept[l]);
            } else {
                assert(kept[l] < kept[k]);
            }
        }
    }
    kept.unique_seq_to_set();
    assert(kept.to_set().subset_of(leads)) by {
        assert forall|i: int| kept.to_set().contains(i) implies leads.contains(i) by {
            let k = choose|k: int| 0 <= k < kept.len() && kept[k] == i;
            assert(0 <= kept[k] < count);
        }
    }
    vstd::set_lib::lemma_len_subset(kept.to_set(), leads);
    if exists|i: int| leads.contains(i) && !kept.contains(i) {
        let i = choose|i: int| leads.contains(i) && !kept.contains(i);
        assert(endpoints.contains(pool.idle[i].endpoint));
    } else {
        assert(leads =~= kept.to_set());
    }
}

/// Law: what a request for a connection comes to. Without an address there is none. While
/// connections wait, the one that was used last is leased. Otherwise a place for a new one is
/// set aside as long as fewer exist, in any state, than may; and then no more.
pub proof fn law_requests_get_what_there_is<C>(pool: PoolView<C>)
    requires
        pool.valid(),
    ensures
        pool.action(false) is NoEndpoints,
        pool.acquired(false) == pool,
        pool.idle.len() > 0 ==> {
            let last = pool.idle[pool.idle.len() - 1];
            &&& pool.action(true) == AcquireAction::Reuse(last)
            &&& pool.idle == pool.acquired(true).idle.push(last)
            &&& pool.acquired(true).checked_out == pool.checked_out + 1
            &&& pool.acquired(true).connecting == pool.connecting
        },
        pool.idle.len() == 0 && pool.checked_out + pool.connecting < pool.options.max_connections
            ==> {
            &&& pool.action(true) is Connect
            &&& pool.acquired(true).idle.len() == 0
            &&& pool.acquired(true).checked_out == pool.checked_out
            &&& pool.acquired(true).connecting == pool.connecting + 1
        },
        pool.idle.len() == 0 && pool.checked_out + pool.connecting >= pool.options.max_connections
            ==> pool.action(true) is Exhausted && pool.acquired(true) == pool,
        pool.acquired(true).options == pool.options,
{
    if pool.idle.len() > 0 {
        assert(pool.idle =~= pool.acquired(true).idle.push(pool.idle.last()));
    }
}

/// Law: connections are counted: idle, leased and being made together are the total; a place
/// set aside counts until it is given back, which leaves the node as it was; a connection that
/// becomes idle waits behind all others.
pub proof fn law_connections_are_counted<C>(pool: PoolView<C>, idle: IdleConnection<C>)
    ensures
        pool.total() == pool.idle.len() + pool.checked_out + pool.connecting,
        pool.wanting() <==> pool.idle.len() + pool.checked_out + pool.connecting
            < pool.options.min_connections,
        pool.reserved().total() == pool.total() + 1,
        pool.reserved().idle == pool.idle,
        pool.reserved().checked_out == pool.checked_out,
        pool.reserved().released() == pool,
        pool.with_idle(idle).idle == pool.idle.push(idle),
        pool.with_idle(idle).checked_out == pool.checked_out,
        pool.with_idle(idle).connecting == pool.connecting,
        pool.with_idle(idle).options == pool.options,
        pool.idle_needed() + pool.checked_out + pool.connecting >= pool.options.min_connections,
        pool.idle_needed() > 0 ==> pool.idle_needed() + pool.checked_out + pool.connecting
            == pool.options.min_connections,
{
}

/// Law: the tries of one search go round the addresses from its start on.
pub proof fn law_rotation_goes_round(start: int, offset: int, count: int)
    requires
        0 <= start < count,
        0 <= offset < count,
    ensures
        start + offset < count ==> rotation_index(start, offset, count) == start + offset,
        start + offset >= count ==> rotation_index(start, offset, count) == start + offset - count,
{
    if start + offset < count {
        assert((start + offset) % count == start + offset) by (nonlinear_arith)
            requires
                0 <= start + offset < count,
        ;
    } else {
        assert((start + offset) % count == start + offset - count) by (nonlinear_arith)
            requires
                count <= start + offset < 2 * count,
        ;
    }
}

/// Law: a new node has no connections, and options are usable just when at least one connection
/// may exist, the minimum is no more than the maximum and idle connections may wait.
pub proof fn law_new_nodes_have_no_connections<C>(options: NodePoolOptions)
    ensures
        PoolView::<C>::unconnected(options).idle.len() == 0,
        PoolView::<C>::unconnected(options).checked_out == 0,
        PoolView::<C>::unconnected(options).connecting == 0,
        PoolView::<C>::unconnected(options).options == options,
        options.complaint() is None <==> options.max_connections > 0 && options.min_connections
            <= options.max_connections && options.idle_timeout.nanos > 0,
{
}

/// Law: a connection that comes back waits behind all others, from that moment on and for the
/// address it leads to, and the next request gets just this one.
pub proof fn law_connections_that_come_back_are_leased_first<C>(
    before: ConnectionState<C>,
    after: ConnectionState<C>,
    connection: C,
    endpoint: Endpoint,
    now: Instant,
)
    requires
        exists|state: &mut ConnectionState<C>|
            *state == before && *final(state) == after && #[trigger] call_ensures(
                ConnectionState::<C>::recycle,
                (state, connection, endpoint, now),
                (),
            ),
        before@.valid(),
        before@.checked_out > 0,
    ensures
        after@.idle == before@.idle.push(IdleConnection { connection, endpoint, since: now }),
        after@.checked_out + 1 == before@.checked_out,
        after@.connecting == before@.connecting,
        after@.options == before@.options,
        after@.total() == before@.total(),
        after@.action(true) == AcquireAction::Reuse(
            IdleConnection { connection, endpoint, since: now },
        ),
{
}

/// Law: a leased connection that is closed makes room for another and changes nothing else.
pub proof fn law_closed_connections_make_room<C>(
    before: ConnectionState<C>,
    after: ConnectionState<C>,
)
    requires
        exists|state: &mut ConnectionState<C>|
            *state == before && *final(state) == after && #[trigger] call_ensures(
                ConnectionState::<C>::discard_connection,
                (state,),
                (),
            ),
        before@.valid(),
        before@.checked_out > 0,
    ensures
        after@.idle == before@.idle,
        after@.checked_out + 1 == before@.checked_out,
        after@.connecting == before@.connecting,
        after@.options == before@.options,
        after@.total() + 1 == before@.total(),
        after@.idle.len() == 0 ==> after@.action(true) is Connect,
{
}

/// Law: a background connection ends its reservation. One that leads to a current address waits
/// for use from then on, and another is tried at once just when the minimum still lacks one; one
/// that leads elsewhere is handed back and another is tried at once; without a connection
/// nothing is tried at once.
pub proof fn law_background_connections_are_kept_when_they_lead_somewhere<C>(
    before: ConnectionState<C>,
    after: ConnectionState<C>,
    made: Option<(C, Endpoint)>,
    endpoints: Vec<Endpoint>,
    now: Instant,
    finished: (bool, Option<C>),
)
    requires
        exists|state: &mut ConnectionState<C>|
            *state == before && *final(state) == after && #[trigger] call_ensures(
                ConnectionState::<C>::finish_background_connection,
                (state, made, &endpoints, now),
                finished,
            ),
        before@.valid(),
        before@.connecting > 0,
    ensures
        after@.connecting + 1 == before@.connecting,
        after@.checked_out == before@.checked_out,
        after@.options == before@.options,
        made is None ==> after@.idle == before@.idle && !finished.0 && finished.1 is None,
        made matches Some((connection, endpoint)) ==> {
            let leads = exists|i: int| 0 <= i < endpoints@.len() && #[trigger] endpoints@[i] == endpoint;
            &&& leads ==> {
                &&& after@.idle == before@.idle.push(
                    IdleConnection { connection, endpoint, since: now },
                )
                &&& finished.1 is None
                &&& finished.0 <==> after@.idle.len() + after@.checked_out + after@.connecting
                    < before@.options.min_connections
            }
            &&& !leads ==> {
                &&& after@.idle == before@.idle
                &&& finished.1 == Some(connection)
                &&& finished.0
            }
        },
{
    if let Some((connection, endpoint)) = made {
        if exists|i: int| 0 <= i < endpoints@.len() && #[trigger] endpoints@[i] == endpoint {
            let i = choose|i: int| 0 <= i < endpoints@.len() && #[trigger] endpoints@[i] == endpoint;
            assert(endpoints@.contains(endpoints@[i]));
        }
    }
}

/// Law: one search after the other starts one address later, so that all addresses share the
/// load; a search offers each address once and then ends.
pub proof fn law_searches_start_one_later(
    count: usize,
    first: usize,
    second: usize,
    third: usize,
    one: EndpointRotation,
    two: EndpointRotation,
)
    requires
        count > 0,
        first < usize::MAX,
        exists|counter: &mut usize|
            *counter == first && *final(counter) == second && #[trigger] call_ensures(
                EndpointRotation::begin,
                (counter, count),
                one,
            ),
        exists|counter: &mut usize|
            *counter == second && *final(counter) == third && #[trigger] call_ensures(
                EndpointRotation::begin,
                (counter, count),
                two,
            ),
    ensures
        one.count() == count,
        two.count() == count,
        one.tried() == 0,
        two.tried() == 0,
        0 <= one.start() < count,
        one.start() + 1 < count ==> two.start() == one.start() + 1,
        one.start() + 1 == count ==> two.start() == 0,
{
    let n = count as int;
    let a = first as int;
    assert(0 <= a % n < n && (a % n + 1 < n ==> (a + 1) % n == a % n + 1) && (a % n + 1 == n ==> (a
        + 1) % n == 0)) by (nonlinear_arith)
        requires
            n > 0,
            a >= 0,
    ;
}

/// Law: a round of housekeeping on a node whose idle connections are listed oldest first. Every
/// connection that leads to any of the current addresses and has waited less than the idle
/// timeout is still there, and each that is still there leads to one of them; the connections
/// in use are left alone, and more are wanted just when the minimum lacks some and there is an
/// address.
pub proof fn law_rounds_leave_what_leads_somewhere<C>(
    before: ConnectionState<C>,
    after: ConnectionState<C>,
    endpoints: Vec<Endpoint>,
    now: Instant,
    wanting: bool,
)
    requires
        forall|i: int, j: int|
            0 <= i < j < before@.idle.len() ==> (#[trigger] before@.idle[i]).since.nanos <= (
            #[trigger] before@.idle[j]).since.nanos,
        exists|state: &mut ConnectionState<C>|
            *state == before && *final(state) == after && #[trigger] call_ensures(
                ConnectionState::<C>::maintenance_tick,
                (state, &endpoints, now),
                wanting,
            ),
    ensures
        forall|i: int, e: int|
            0 <= i < before@.idle.len() && 0 <= e < endpoints@.len() && (
            #[trigger] before@.idle[i]).endpoint == #[trigger] endpoints@[e] && now.nanos
                - before@.idle[i].since.nanos < before@.options.idle_timeout.nanos
                ==> after@.idle.contains(before@.idle[i]),
        forall|k: int|
            0 <= k < after@.idle.len() ==> before@.idle.contains(#[trigger] after@.idle[k])
                && endpoints@.contains(after@.idle[k].endpoint),
        after@.checked_out == before@.checked_out,
        after@.connecting == before@.connecting,
        after@.options == before@.options,
        wanting <==> endpoints@.len() > 0 && after@.idle.len() + after@.checked_out
            + after@.connecting < after@.options.min_connections,
{
    law_fresh_connections_stay(before@, endpoints@, now.nanos);
    let kept = law_housekeeping_closes_the_stale_alone(before@, endpoints@, now.nanos);
    assert forall|i: int, e: int|
        0 <= i < before@.idle.len() && 0 <= e < endpoints@.len() && (
        #[trigger] before@.idle[i]).endpoint == #[trigger] endpoints@[e] && now.nanos
            - before@.idle[i].since.nanos
            < before@.options.idle_timeout.nanos implies after@.idle.contains(before@.idle[i]) by {
        assert(endpoints@.contains(endpoints@[e]));
    }
    assert forall|k: int| 0 <= k < after@.idle.len() implies before@.idle.contains(
        #[trigger] after@.idle[k],
    ) && endpoints@.contains(after@.idle[k].endpoint) by {
        assert(after@.idle[k] == before@.idle[kept[k]]);
    }
}

/// Law: the place of a connection that is being made is given up once, when the connection is
/// leased or not made after all; nothing else changes.
pub proof fn law_reservations_end_once<C>(
    before: ConnectionState<C>,
    leased: ConnectionState<C>,
    released: ConnectionState<C>,
)
    requires
        before@.valid(),
        before@.connecting > 0,
        exists|state: &mut ConnectionState<C>|
            *state == before && *final(state) == leased && #[trigger] call_ensures(
                ConnectionState::<C>::finish_request_connection,
                (state,),
                (),
            ),
        exists|state: &mut ConnectionState<C>|
            *state == before && *final(state) == released && #[trigger] call_ensures(
                ConnectionState::<C>::release_reservation,
                (state,),
                (),
            ),
    ensures
        leased@.connecting + 1 == before@.connecting,
        leased@.checked_out == before@.checked_out + 1,
        leased@.idle == before@.idle,
        leased@.options == before@.options,
        released@.connecting + 1 == before@.connecting,
        released@.checked_out == before@.checked_out,
        released@.idle == before@.idle,
        released@.options == before@.options,
{
}

/// Law: after an address the one behind it is tried, and after the last the first; a search
/// ends when as many addresses have been tried as there are.
pub proof fn law_searches_go_on_to_the_next_address(
    start: EndpointRotation,
    once: EndpointRotation,
    twice: EndpointRotation,
    first: Option<usize>,
    second: Option<usize>,
)
    requires
        start.wf(),
        exists|rotation: &mut EndpointRotation|
            *rotation == start && *final(rotation) == once && #[trigger] call_ensures(
                EndpointRotation::next,
                (rotation,),
                first,
            ),
        exists|rotation: &mut EndpointRotation|
            *rotation == once && *final(rotation) == twice && #[trigger] call_ensures(
                EndpointRotation::next,
                (rotation,),
                second,
            ),
    ensures
        first is None <==> start.tried() == start.count(),
        start.tried() == 0 && first is Some ==> first->0 == start.start(),
        first is None ==> second is None,
        second is Some ==> first is Some && second->0 == if first->0 + 1 < start.count() {
            first->0 + 1
        } else {
            0
        },
{
    if first is Some {
        let n = start.count();
        let a = start.start() + start.tried();
        assert(0 <= a % n < n && (a % n + 1 < n ==> (a + 1) % n == a % n + 1) && (a % n + 1 == n
            ==> (a + 1) % n == 0)) by (nonlinear_arith)
            requires
                n > 0,
                a >= 0,
        ;
        assert(start.tried() == 0 ==> a % n == a) by (nonlinear_arith)
            requires
                n > 0,
                start.tried() == 0 ==> 0 <= a < n,
        ;
        assert(start.start() + (start.tried() + 1) == a + 1);
    }
}

} // verus!
