//! What request handles and the connection share.
use crate::completion::{CompletionTable, RequestToken, ResponseFuture, MAX_IN_FLIGHT};
use crate::error::SessionError;
use crate::session::options::NodeStats;
use vstd::prelude::*;

#[allow(unused_imports)]
use crate::completion::{
    law_active_counts_the_reserved_slots, law_capacity_is_strictly_bounded, lemma_reserving_counts, raw_of, slot_of, SlotState, TableView,
};

verus! {

/// Whether the bounded request queue of a connection has room.
#[derive(Clone, Copy, Debug, PartialEq, Eq, Structural)]
pub enum Capacity {
    /// A place was set aside.
    Granted,
    /// Every place is taken.
    Full,
    /// The connection task is gone.
    Closed,
}

/// What comes back for one request.
pub type Outcome<R, E> = Result<R, SessionError<E>>;

/// The state that request handles and the connection share, as contracts see it.
#[verifier::ext_equal]
pub struct SharedView<R, E> {
    pub table: TableView<Outcome<R, E>>,
    pub connected: bool,
    /// Number of the connection; requests of an earlier one never reach a later one.
    pub generation: u64,
    pub successful: u64,
    pub disconnects: u64,
}

/// The count after `n`, starting over after the largest.
pub open spec fn counted_up(n: u64) -> u64 {
    if n == u64::MAX {
        0
    } else {
        (n + 1) as u64
    }
}

impl<R, E> SharedView<R, E> {
    /// A node that was never connected.
    pub open spec fn unconnected() -> Self {
        SharedView {
            table: TableView::fresh(),
            connected: false,
            generation: 0,
            successful: 0,
            disconnects: 0,
        }
    }

    /// The state after the connection reports the outcome of one request.
    pub open spec fn completed(self, token: RequestToken, outcome: Outcome<R, E>) -> Self {
        SharedView { table: self.table.completed(token, outcome), ..self }
    }

    /// The state after a connection is established.
    pub open spec fn established(self) -> Self {
        SharedView {
            connected: true,
            generation: counted_up(self.generation),
            successful: counted_up(self.successful),
            ..self
        }
    }

    /// The state after the connection is lost.
    pub open spec fn lost(self) -> Self {
        SharedView { connected: false, ..self }
    }

    /// Whether a request of this generation can still be sent.
    pub open spec fn serves(self, generation: u64) -> bool {
        self.connected && self.generation == generation
    }

    /// Why a request is refused before it is built, if it is.
    pub open spec fn refusal(self, capacity: Capacity, count: nat) -> Option<SessionError<E>> {
        if !self.connected {
            Some(SessionError::Unavailable)
        } else if capacity == Capacity::Full {
            Some(SessionError::Busy)
        } else if capacity == Capacity::Closed {
            Some(SessionError::Closed)
        } else if self.table.active() + count > MAX_IN_FLIGHT {
            Some(SessionError::Busy)
        } else {
            None
        }
    }

    /// The state after one reserved request is given up before it was published.
    pub open spec fn given_up(self, token: RequestToken) -> Self {
        SharedView { table: self.table.with_state(slot_of(token.raw), SlotState::Free), ..self }
    }
}

/// The table after slots are reserved for these requests, one after the other.
pub open spec fn reserved_all<T>(table: TableView<T>, tokens: Seq<RequestToken>) -> TableView<T>
    decreases tokens.len(),
{
    if tokens.len() == 0 {
        table
    } else {
        reserved_all(table, tokens.drop_last()).reserved(slot_of(tokens.last().raw))
    }
}

/// Whether these are the identifiers that the table hands out next.
pub open spec fn next_tokens<T>(table: TableView<T>, tokens: Seq<RequestToken>) -> bool
    decreases tokens.len(),
{
    tokens.len() == 0 || {
        let before = reserved_all(table, tokens.drop_last());
        let index = slot_of(tokens.last().raw);
        &&& next_tokens(table, tokens.drop_last())
        &&& before.next_free(index)
        &&& tokens.last().raw == raw_of(before.next_generation(index), index)
    }
}

/// A response slot that is set aside for a request which the connection does not know yet.
pub struct Reservation<R, E> {
    future: ResponseFuture<Outcome<R, E>>,
    token: RequestToken,
    generation: u64,
}

impl<R, E> Reservation<R, E> {
    /// The identifier of the request.
    pub closed spec fn token(&self) -> RequestToken {
        self.token
    }

    /// The connection that the request is meant for.
    pub closed spec fn generation(&self) -> u64 {
        self.generation
    }

    /// The handle belongs to the identifier.
    pub closed spec fn wf(&self) -> bool {
        self.future.awaits(self.token)
    }

    /// The slot is reserved, and nobody but the holder of this value has used it.
    pub open spec fn untouched(&self, shared: SharedView<R, E>) -> bool {
        &&& self.wf()
        &&& shared.table.state(self.token()) is Waiting
    }
}

/// The identifiers of several reservations.
pub open spec fn tokens_of<R, E>(reservations: Seq<Reservation<R, E>>) -> Seq<RequestToken> {
    reservations.map_values(|reservation: Reservation<R, E>| reservation.token())
}

/// A request on its way to the connection.
pub struct Envelope<Q> {
    pub token: RequestToken,
    pub connection_generation: u64,
    pub request: Q,
}

/// The identifiers of requests that were submitted together.
pub open spec fn submitted_tokens<Q, R, E>(
    submitted: Seq<(Envelope<Q>, ResponseFuture<Outcome<R, E>>)>,
) -> Seq<RequestToken> {
    submitted.map_values(|pair: (Envelope<Q>, ResponseFuture<Outcome<R, E>>)| pair.0.token)
}

/// What request handles and the connection share.
pub struct Shared<R, E> {
    completions: CompletionTable<Outcome<R, E>>,
    connected: bool,
    connection_generation: u64,
    successful_connections: u64,
    disconnects: u64,
}

impl<R, E> View for Shared<R, E> {
    type V = SharedView<R, E>;

    closed spec fn view(&self) -> SharedView<R, E> {
        SharedView {
            table: self.completions@,
            connected: self.connected,
            generation: self.connection_generation,
            successful: self.successful_connections,
            disconnects: self.disconnects,
        }
    }
}

impl<R, E> Shared<R, E> {
    /// The completion table is consistent.
    pub closed spec fn wf(&self) -> bool {
        self.completions.wf()
    }

    /// Whether the response slot of `token` was given the waker that the next wake-up goes
    /// to.
    pub closed spec fn listens(&self, token: RequestToken, waker: std::task::Waker) -> bool {
        self.completions.listens(token, waker)
    }

    /// Whether the task that waits for `token` was woken.
    pub closed spec fn woken(&self, token: RequestToken) -> bool {
        self.completions.woken(token)
    }

    /// There is one response slot for each request that may be in flight.
    pub proof fn lemma_slots(&self)
        requires
            self.wf(),
        ensures
            self@.table.slots.len() == 256,
    {
        self.completions.lemma_slots();
    }

    /// A node that was never connected.
    pub fn new() -> (shared: Self)
        ensures
            shared.wf(),
            shared@ == SharedView::<R, E>::unconnected(),
    {
        Shared {
            completions: CompletionTable::new(),
            connected: false,
            connection_generation: 0,
            successful_connections: 0,
            disconnects: 0,
        }
    }

    /// Whether requests can be sent.
    pub fn is_connected(&self) -> (connected: bool)
        ensures
            connected == self@.connected,
    {
        self.connected
    }

    /// Number of the current connection.
    pub fn generation(&self) -> (generation: u64)
        ensures
            generation == self@.generation,
    {
        self.connection_generation
    }

    /// What is known of the node from outside.
    pub fn stats(&self) -> (stats: NodeStats)
        requires
            self.wf(),
        ensures
            stats.connected == self@.connected,
            stats.active_requests == self@.table.active(),
            stats.successful_connections == self@.successful,
            stats.disconnects == self@.disconnects,
    {
        NodeStats {
            connected: self.connected,
            active_requests: self.completions.active(),
            successful_connections: self.successful_connections,
            disconnects: self.disconnects,
        }
    }

    /// Sets a response slot aside, if the node is connected and has room.
    pub fn set_aside(&mut self, capacity: Capacity) -> (reserved: Result<
        Reservation<R, E>,
        SessionError<E>,
    >)
        requires
            old(self).wf(),
        ensures
            final(self).wf(),
            match reserved {
                Ok(reservation) => {
                    &&& old(self)@.refusal(capacity, 1) is None
                    &&& next_tokens(old(self)@.table, seq![reservation.token()])
                    &&& reservation.generation() == old(self)@.generation
                    &&& reservation.untouched(final(self)@)
                    &&& final(self)@ == (SharedView {
                        table: old(self)@.table.reserved(slot_of(reservation.token().raw)),
                        ..old(self)@
                    })
                },
                Err(error) => {
                    &&& old(self)@.refusal(capacity, 1) == Some(error)
                    &&& final(self)@ == if old(self)@.connected && capacity == Capacity::Granted {
                        SharedView { table: old(self)@.table.searched(), ..old(self)@ }
                    } else {
                        old(self)@
                    }
                },
            },
    {
        if !self.connected {
            return Err(SessionError::Unavailable);
        }
        match capacity {
            Capacity::Granted => {},
            Capacity::Full => {
                return Err(SessionError::Busy);
            },
            Capacity::Closed => {
                return Err(SessionError::Closed);
            },
        }
        let generation = self.connection_generation;
        proof {
            self.completions.lemma_slots();
            law_capacity_is_strictly_bounded(self@.table);
        }
        match self.completions.reserve() {
            Some((token, future)) => {
                proof {
                    let tokens = seq![token];
                    let none = Seq::<RequestToken>::empty();
                    assert(tokens.drop_last() =~= none);
                    assert(next_tokens(old(self)@.table, none));
                    assert(reserved_all(old(self)@.table, none) == old(self)@.table);
                }
                Ok(Reservation { future, token, generation })
            },
            None => Err(SessionError::Busy),
        }
    }

    /// Whether the connection that a reservation was made for can still send it; gives the
    /// slot back when it cannot.
    pub fn confirm(&mut self, reservation: Reservation<R, E>) -> (confirmed: Result<
        Reservation<R, E>,
        SessionError<E>,
    >)
        requires
            old(self).wf(),
            reservation.untouched(old(self)@),
        ensures
            final(self).wf(),
            match confirmed {
                Ok(kept) => {
                    &&& old(self)@.serves(reservation.generation())
                    &&& kept == reservation
                    &&& final(self)@ == old(self)@
                },
                Err(error) => {
                    &&& !old(self)@.serves(reservation.generation())
                    &&& error is Unavailable
                    &&& final(self)@ == old(self)@.given_up(reservation.token())
                },
            },
    {
        if self.connected && self.connection_generation == reservation.generation {
            Ok(reservation)
        } else {
            reservation.future.abort(&mut self.completions);
            Err(SessionError::Unavailable)
        }
    }

    /// Hands a built request over, unless its connection was lost in the meantime.
    pub fn publish<Q>(&mut self, reservation: Reservation<R, E>, request: Q) -> (published: Result<
        (Envelope<Q>, ResponseFuture<Outcome<R, E>>),
        SessionError<E>,
    >)
        requires
            old(self).wf(),
            reservation.untouched(old(self)@),
        ensures
            final(self).wf(),
            match published {
                Ok((envelope, future)) => {
                    &&& old(self)@.serves(reservation.generation())
                    &&& envelope == (Envelope {
                        token: reservation.token(),
                        connection_generation: reservation.generation(),
                        request,
                    })
                    &&& future.awaits(reservation.token())
                    &&& final(self)@ == old(self)@
                },
                Err(error) => {
                    &&& !old(self)@.serves(reservation.generation())
                    &&& error is Unavailable
                    &&& final(self)@ == old(self)@.given_up(reservation.token())
                },
            },
    {
        let reservation = match self.confirm(reservation) {
            Ok(reservation) => reservation,
            Err(error) => {
                return Err(error);
            },
        };
        let envelope = Envelope {
            token: reservation.token,
            connection_generation: reservation.generation,
            request,
        };
        Ok((envelope, reservation.future))
    }

    /// Submits a request without waiting. `build` runs only once the node is connected and
    /// a queue place and a response slot are set aside: a request that is refused is never
    /// built.
    pub fn request_with<Q, F: FnOnce() -> Q>(&mut self, capacity: Capacity, build: F) -> (submitted:
        Result<(Envelope<Q>, ResponseFuture<Outcome<R, E>>), SessionError<E>>)
        requires
            old(self).wf(),
            old(self)@.refusal(capacity, 1) is None ==> build.requires(()),
        ensures
            final(self).wf(),
            match submitted {
                Ok((envelope, future)) => {
                    &&& old(self)@.refusal(capacity, 1) is None
                    &&& next_tokens(old(self)@.table, seq![envelope.token])
                    &&& envelope.connection_generation == old(self)@.generation
                    &&& build.ensures((), envelope.request)
                    &&& future.awaits(envelope.token)
                    &&& final(self)@ == (SharedView {
                        table: old(self)@.table.reserved(slot_of(envelope.token.raw)),
                        ..old(self)@
                    })
                },
                Err(error) => {
                    &&& old(self)@.refusal(capacity, 1) == Some(error)
                    &&& final(self)@ == if old(self)@.connected && capacity == Capacity::Granted {
                        SharedView { table: old(self)@.table.searched(), ..old(self)@ }
                    } else {
                        old(self)@
                    }
                },
            },
    {
        let reservation = match self.set_aside(capacity) {
            Ok(reservation) => reservation,
            Err(error) => {
                return Err(error);
            },
        };
        let reservation = match self.confirm(reservation) {
            Ok(reservation) => reservation,
            Err(error) => {
                return Err(error);
            },
        };
        let request = build();
        self.publish(reservation, request)
    }

    /// Sets slots aside for several requests, or for none of them.
    pub fn set_aside_all(&mut self, capacity: Capacity, count: usize) -> (reserved: Result<
        Vec<Reservation<R, E>>,
        SessionError<E>,
    >)
        requires
            old(self).wf(),
        ensures
            final(self).wf(),
            match reserved {
                Ok(reservations) => {
                    &&& old(self)@.refusal(capacity, count as nat) is None
                    &&& reservations@.len() == count
                    &&& next_tokens(old(self)@.table, tokens_of(reservations@))
                    &&& forall|i: int|
                        0 <= i < count ==> (#[trigger] reservations@[i]).generation()
                            == old(self)@.generation && reservations@[i].untouched(final(self)@)
                    &&& final(self)@ == (SharedView {
                        table: reserved_all(old(self)@.table, tokens_of(reservations@)),
                        ..old(self)@
                    })
                },
                Err(error) => {
                    &&& old(self)@.refusal(capacity, count as nat) == Some(error)
                    &&& final(self)@ == old(self)@
                },
            },
    {
        if !self.connected {
            return Err(SessionError::Unavailable);
        }
        match capacity {
            Capacity::Granted => {},
            Capacity::Full => {
                return Err(SessionError::Busy);
            },
            Capacity::Closed => {
                return Err(SessionError::Closed);
            },
        }
        if count > MAX_IN_FLIGHT - self.completions.active() {
            return Err(SessionError::Busy);
        }
        let generation = self.connection_generation;
        let mut reservations: Vec<Reservation<R, E>> = Vec::new();
        let ghost table = self@.table;
        assert(tokens_of(reservations@) =~= Seq::<RequestToken>::empty());
        while reservations.len() < count
            invariant
                self.wf(),
                reservations@.len() <= count,
                table == old(self)@.table,
                generation == old(self)@.generation,
                table.active() + count <= 256,
                self@.table.active() == table.active() + reservations@.len(),
                next_tokens(table, tokens_of(reservations@)),
                forall|i: int|
                    0 <= i < reservations@.len() ==> (#[trigger] reservations@[i]).generation()
                        == generation && reservations@[i].untouched(self@),
                self@ == (SharedView {
                    table: reserved_all(table, tokens_of(reservations@)),
                    ..old(self)@
                }),
            decreases count - reservations@.len(),
        {
            let ghost before = self@.table;
            let ghost listed = reservations@;
            proof {
                self.completions.lemma_slots();
            }
            match self.completions.reserve() {
                Some((token, future)) => {
                    reservations.push(Reservation { future, token, generation });
                    proof {
                        let tokens = tokens_of(reservations@);
                        assert(tokens =~= tokens_of(listed).push(token));
                        assert(tokens.drop_last() =~= tokens_of(listed));
                        lemma_reserving_counts(before, slot_of(token.raw));
                    }
                },
                None => {
                    assert(false);
                    return Err(SessionError::Busy);
                },
            }
        }
        Ok(reservations)
    }

    /// Submits all of several requests without waiting, or none of them. Handles come in the
    /// order of the requests.
    pub fn request_batch<Q>(&mut self, capacity: Capacity, requests: Vec<Q>) -> (submitted: Result<
        Vec<(Envelope<Q>, ResponseFuture<Outcome<R, E>>)>,
        SessionError<E>,
    >)
        requires
            old(self).wf(),
        ensures
            final(self).wf(),
            match submitted {
                Ok(submitted) => {
                    &&& old(self)@.refusal(capacity, requests@.len()) is None
                    &&& submitted@.len() == requests@.len()
                    &&& next_tokens(old(self)@.table, submitted_tokens(submitted@))
                    &&& forall|i: int|
                        0 <= i < requests@.len() ==> {
                            &&& (#[trigger] submitted@[i]).0.request == requests@[i]
                            &&& submitted@[i].0.connection_generation == old(self)@.generation
                            &&& submitted@[i].1.awaits(submitted@[i].0.token)
                        }
                    &&& final(self)@ == (SharedView {
                        table: reserved_all(old(self)@.table, submitted_tokens(submitted@)),
                        ..old(self)@
                    })
                },
                Err(error) => {
                    &&& old(self)@.refusal(capacity, requests@.len()) == Some(error)
                    &&& final(self)@ == old(self)@
                },
            },
    {
        let mut reservations = match self.set_aside_all(capacity, requests.len()) {
            Ok(reservations) => reservations,
            Err(error) => {
                return Err(error);
            },
        };
        let ghost reserved = reservations@;
        let ghost all = requests@;
        let mut rest = requests;
        let mut submitted: Vec<(Envelope<Q>, ResponseFuture<Outcome<R, E>>)> = Vec::new();
        while rest.len() > 0
            invariant
                submitted@.len() + rest@.len() == all.len() == reserved.len(),
                rest@ == all.skip(submitted@.len() as int),
                reservations@ == reserved.skip(submitted@.len() as int),
                forall|i: int| 0 <= i < reserved.len() ==> (#[trigger] reserved[i]).wf(),
                forall|i: int|
                    0 <= i < submitted@.len() ==> {
                        &&& (#[trigger] submitted@[i]).0.request == all[i]
                        &&& submitted@[i].0.token == reserved[i].token()
                        &&& submitted@[i].0.connection_generation == reserved[i].generation()
                        &&& submitted@[i].1.awaits(submitted@[i].0.token)
                    },
            decreases rest@.len(),
        {
            let ghost at = submitted@.len() as int;
            let request = rest.remove(0);
            let reservation = reservations.remove(0);
            assert(reservation == reserved[at]);
            let envelope = Envelope {
                token: reservation.token,
                connection_generation: reservation.generation,
                request,
            };
            submitted.push((envelope, reservation.future));
        }
        assert(submitted_tokens(submitted@) =~= tokens_of(reserved));
        Ok(submitted)
    }

    /// Gives the slot of an unpublished request back.
    pub fn give_up(&mut self, reservation: Reservation<R, E>)
        requires
            old(self).wf(),
            reservation.untouched(old(self)@),
        ensures
            final(self).wf(),
            final(self)@ == old(self)@.given_up(reservation.token()),
    {
        reservation.future.abort(&mut self.completions);
    }

    /// Reports the outcome of one request; returns whether the request was still owed one.
    pub fn complete(&mut self, token: RequestToken, outcome: Outcome<R, E>) -> (accepted: bool)
        requires
            old(self).wf(),
        ensures
            final(self).wf(),
            accepted == old(self)@.table.owed(token),
            final(self)@ == old(self)@.completed(token, outcome),
            accepted && old(self)@.table.state(token) is Waiting ==> final(self).woken(token),
    {
        self.completions.complete(token, outcome)
    }

    /// Takes the response of a request, if it has arrived.
    pub fn poll(
        &mut self,
        future: &mut ResponseFuture<Outcome<R, E>>,
        waker: &std::task::Waker,
    ) -> (response: Option<Outcome<R, E>>)
        requires
            old(self).wf(),
            !old(future).finished(),
            old(self)@.table.current(old(future).token()),
        ensures
            final(self).wf(),
            final(future).token() == old(future).token(),
            response == old(self)@.table.response(old(future).token()),
            final(future).finished() == (response is Some),
            final(self)@ == (SharedView {
                table: old(self)@.table.received(old(future).token()),
                ..old(self)@
            }),
            final(self).listens(old(future).token(), *waker),
    {
        future.poll(&mut self.completions, waker)
    }

    /// Drops the receiver of a request.
    pub fn cancel(&mut self, future: ResponseFuture<Outcome<R, E>>)
        requires
            old(self).wf(),
        ensures
            final(self).wf(),
            final(self)@ == if future.finished() {
                old(self)@
            } else {
                SharedView { table: old(self)@.table.receiver_gone(future.token()), ..old(self)@ }
            },
    {
        future.cancel(&mut self.completions);
    }

    /// Notes that a connection is established.
    pub(crate) fn establish(&mut self)
        requires
            old(self).wf(),
        ensures
            final(self).wf(),
            final(self)@ == old(self)@.established(),
    {
        self.connection_generation = self.connection_generation.wrapping_add(1);
        self.successful_connections = self.successful_connections.wrapping_add(1);
        self.connected = true;
    }

    /// Notes that the connection is lost.
    pub fn lose(&mut self)
        requires
            old(self).wf(),
        ensures
            final(self).wf(),
            final(self)@ == old(self)@.lost(),
    {
        self.connected = false;
    }

    /// Counts a disconnect.
    pub fn count_disconnect(&mut self)
        requires
            old(self).wf(),
        ensures
            final(self).wf(),
            final(self)@ == (SharedView {
                disconnects: counted_up(old(self)@.disconnects),
                ..old(self)@
            }),
    {
        self.disconnects = self.disconnects.wrapping_add(1);
    }
}

/// The state after so many more connections were established.
pub open spec fn reconnected<R, E>(shared: SharedView<R, E>, connections: nat) -> SharedView<R, E>
    decreases connections,
{
    if connections == 0 {
        shared
    } else {
        reconnected(shared, (connections - 1) as nat).lost().established()
    }
}

/// Law: every connection has a number of its own, until 2^64 of them were established.
pub proof fn law_connections_are_told_apart<R, E>(shared: SharedView<R, E>, connections: nat)
    ensures
        reconnected(shared, connections).generation == (shared.generation + connections)
            % 0x1_0000_0000_0000_0000,
        0 < connections < 0x1_0000_0000_0000_0000 ==> reconnected(shared, connections).generation
            != shared.generation,
    decreases connections,
{
    if connections > 0 {
        law_connections_are_told_apart(shared, (connections - 1) as nat);
    }
}

/// Law: when a request is refused. It is admitted just when the node is connected, a queue
/// place was set aside and the slots suffice; otherwise the first of these that fails decides
/// the error.
pub proof fn law_requests_are_refused_for_a_reason<R, E>(
    shared: SharedView<R, E>,
    capacity: Capacity,
    count: nat,
)
    ensures
        shared.refusal(capacity, count) is None <==> shared.connected && capacity
            == Capacity::Granted && shared.table.active() + count <= 256,
        !shared.connected ==> shared.refusal(capacity, count) == Some(
            SessionError::<E>::Unavailable,
        ),
        shared.connected && capacity == Capacity::Closed ==> shared.refusal(capacity, count)
            == Some(SessionError::<E>::Closed),
        shared.connected && (capacity == Capacity::Full || (capacity == Capacity::Granted
            && shared.table.active() + count > 256)) ==> shared.refusal(capacity, count) == Some(
            SessionError::<E>::Busy,
        ),
{
}

/// Law: several requests that are admitted together hold slots of their own: each slot was
/// free, each waits for its response, as many more are in flight, and no other slot is touched.
pub proof fn law_batches_hold_slots_of_their_own<T>(
    table: TableView<T>,
    tokens: Seq<RequestToken>,
)
    requires
        table.slots.len() == 256,
        next_tokens(table, tokens),
    ensures
        ({
            let after = reserved_all(table, tokens);
            &&& after.slots.len() == 256
            &&& after.active() == table.active() + tokens.len()
            &&& forall|i: int|
                0 <= i < tokens.len() ==> {
                    &&& table.slots[slot_of((#[trigger] tokens[i]).raw)].state is Free
                    &&& after.slots[slot_of(tokens[i].raw)].state is Waiting
                }
            &&& forall|i: int, j: int|
                0 <= i < j < tokens.len() ==> slot_of((#[trigger] tokens[i]).raw) != slot_of(
                    (#[trigger] tokens[j]).raw,
                )
            &&& forall|slot: int|
                0 <= slot < 256 && (forall|i: int|
                    0 <= i < tokens.len() ==> slot_of((#[trigger] tokens[i]).raw) != slot)
                    ==> #[trigger] after.slots[slot] == table.slots[slot]
        }),
    decreases tokens.len(),
{
    if tokens.len() > 0 {
        let less = tokens.drop_last();
        let last = slot_of(tokens.last().raw);
        let before = reserved_all(table, less);
        let after = reserved_all(table, tokens);
        law_batches_hold_slots_of_their_own(table, less);
        assert(before.slots[last].state is Free);
        assert(0 <= last < 256);
        lemma_reserving_counts(before, last);
        assert forall|i: int| 0 <= i < less.len() implies slot_of((#[trigger] tokens[i]).raw)
            != last by {
            assert(less[i] == tokens[i]);
            assert(before.slots[slot_of(less[i].raw)].state is Waiting);
        }
        assert forall|i: int| 0 <= i < less.len() implies #[trigger] less[i] == tokens[i] by {}
        assert(before.slots[last] == table.slots[last]);
        assert forall|i: int| 0 <= i < tokens.len() implies {
            &&& table.slots[slot_of((#[trigger] tokens[i]).raw)].state is Free
            &&& after.slots[slot_of(tokens[i].raw)].state is Waiting
        } by {
            if i < less.len() {
                assert(less[i] == tokens[i]);
                assert(slot_of(tokens[i].raw) != last);
            }
        }
        assert forall|i: int, j: int| 0 <= i < j < tokens.len() implies slot_of(
            (#[trigger] tokens[i]).raw,
        ) != slot_of((#[trigger] tokens[j]).raw) by {
            if j < less.len() {
                assert(less[i] == tokens[i] && less[j] == tokens[j]);
            }
        }
        assert forall|slot: int|
            0 <= slot < 256 && (forall|i: int|
                0 <= i < tokens.len() ==> slot_of((#[trigger] tokens[i]).raw)
                    != slot) implies #[trigger] after.slots[slot] == table.slots[slot] by {
            assert(slot_of(tokens[tokens.len() - 1].raw) != slot);
            assert forall|i: int| 0 <= i < less.len() implies slot_of((#[trigger] less[i]).raw)
                != slot by {
                assert(slot_of(tokens[i].raw) != slot);
            }
            assert(before.slots[slot] == table.slots[slot]);
        }
    }
}

/// Law: a request can be sent on just the connection that it was admitted to, while that one
/// lasts. Establishing a connection starts the next one and counts it; losing it and giving a
/// request up change nothing else than that.
pub proof fn law_connections_come_and_go<R, E>(
    shared: SharedView<R, E>,
    generation: u64,
    token: RequestToken,
)
    requires
        shared.table.slots.len() == 256,
    ensures
        shared.serves(generation) <==> shared.connected && generation == shared.generation,
        shared.established().connected,
        shared.established().generation != shared.generation,
        shared.generation < u64::MAX ==> shared.established().generation == shared.generation + 1,
        shared.successful < u64::MAX ==> shared.established().successful == shared.successful + 1,
        shared.established().table == shared.table,
        shared.established().disconnects == shared.disconnects,
        !shared.lost().connected,
        shared.lost().generation == shared.generation,
        shared.lost().table == shared.table,
        shared.lost().successful == shared.successful,
        shared.lost().disconnects == shared.disconnects,
        shared.given_up(token).table.slots[slot_of(token.raw)].state is Free,
        forall|slot: int|
            0 <= slot < 256 && slot != slot_of(token.raw) ==> #[trigger] shared.given_up(
                token,
            ).table.slots[slot] == shared.table.slots[slot],
        shared.given_up(token).connected == shared.connected,
        shared.given_up(token).generation == shared.generation,
{
}

/// Law: a node that was never connected refuses, has nothing in flight and has counted nothing.
pub proof fn law_new_nodes_are_unconnected<R, E>()
    ensures
        ({
            let shared = SharedView::<R, E>::unconnected();
            &&& !shared.connected
            &&& shared.generation == 0
            &&& shared.successful == 0
            &&& shared.disconnects == 0
            &&& shared.table.slots.len() == 256
            &&& shared.table.active() == 0
        }),
{
    law_active_counts_the_reserved_slots(SharedView::<R, E>::unconnected().table);
}

} // verus!
