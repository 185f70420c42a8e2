//! Equivalent replicas behind one selector.
use crate::balance::quota::{QuotaBalancerOptions, QuotaSelector, QuotaTicket, ReplicaSnapshot};
use crate::completion::{RequestToken, ResponseFuture};
use crate::error::{NetError, SessionError};
use crate::outside::{hash_number, random_state, swap_places};
use crate::target::RequestTarget;
use std::collections::hash_map::RandomState;
use vstd::prelude::*;

#[allow(unused_imports)]
use crate::balance::quota::{
    law_selection_moves_to_the_next_replica, options_complaint, SelectorView,
};

verus! {

/// One physical session target that can take part in replica selection.
pub trait SessionReplica: Sized {
    type Request;

    type Response;

    type Error;

    type Future;

    /// Submits a request without waiting.
    fn request(&self, request: Self::Request) -> (submitted: Result<
        Self::Future,
        SessionError<Self::Error>,
    >);

    /// Submits a request that is built only once it is admitted.
    fn request_with<F: FnOnce() -> Self::Request>(&self, build: F) -> (submitted: Result<
        Self::Future,
        SessionError<Self::Error>,
    >)
        requires
            build.requires(()),
    ;

    /// Submits all of several requests, or none of them.
    fn request_batch(&self, requests: Vec<Self::Request>) -> (submitted: Result<
        Vec<Self::Future>,
        SessionError<Self::Error>,
    >);
}

/// `values` with two places exchanged.
pub open spec fn exchanged<T>(values: Seq<T>, a: int, b: int) -> Seq<T> {
    values.update(a, values[b]).update(b, values[a])
}

/// `values` after the places from `upper` down to the second are each exchanged with the
/// place that `picks` gives for it.
pub open spec fn shuffled<T>(values: Seq<T>, picks: Seq<usize>, upper: nat) -> Seq<T>
    decreases upper,
{
    if upper == 0 {
        values
    } else {
        shuffled(
            exchanged(values, upper as int, picks[upper as int] as int),
            picks,
            (upper - 1) as nat,
        )
    }
}

/// Exchanges places as `picks` says: `picks[upper]` is exchanged with `upper`, from the last
/// place down to the second.
pub fn shuffle_with<T>(values: &mut Vec<T>, picks: &Vec<usize>)
    requires
        picks@.len() == old(values)@.len(),
        forall|i: int| 0 <= i < picks@.len() ==> #[trigger] picks@[i] <= i,
    ensures
        final(values)@ == shuffled(
            old(values)@,
            picks@,
            if old(values)@.len() == 0 {
                0
            } else {
                (old(values)@.len() - 1) as nat
            },
        ),
        final(values)@.to_multiset() == old(values)@.to_multiset(),
        final(values)@.len() == old(values)@.len(),
{
    if values.len() == 0 {
        return ;
    }
    let mut upper: usize = values.len() - 1;
    let ghost goal = shuffled(values@, picks@, upper as nat);
    while upper > 0
        invariant
            upper < values@.len() == picks@.len(),
            forall|i: int| 0 <= i < picks@.len() ==> #[trigger] picks@[i] <= i,
            shuffled(values@, picks@, upper as nat) == goal,
            values@.to_multiset() == old(values)@.to_multiset(),
            values@.len() == old(values)@.len(),
        decreases upper,
    {
        let ghost before = values@;
        let pick = picks[upper];
        swap_places(values, upper, pick);
        proof {
            lemma_exchange_keeps_items(before, upper as int, pick as int);
        }
        upper = upper - 1;
    }
}

/// Exchanging two places keeps what a list holds.
proof fn lemma_exchange_keeps_items<T>(values: Seq<T>, a: int, b: int)
    requires
        0 <= a < values.len(),
        0 <= b < values.len(),
    ensures
        exchanged(values, a, b).to_multiset() == values.to_multiset(),
{
    broadcast use vstd::seq_lib::group_to_multiset_ensures;

    let once = values.update(a, values[b]);
    vstd::seq_lib::to_multiset_update(values, a, values[b]);
    vstd::seq_lib::to_multiset_update(once, b, values[a]);
    assert(once[b] == values[b]);
    assert(values.to_multiset().contains(values[a]));
    assert(exchanged(values, a, b).to_multiset() =~= values.to_multiset());
}

/// The place that a hash picks among those up to `upper`.
pub open spec fn pick_of(hash: u64, upper: int) -> int {
    (hash as usize) as int % (upper + 1)
}

/// The place that a hash picks among those up to `upper`.
pub fn pick(hash: u64, upper: usize) -> (place: usize)
    requires
        upper < usize::MAX,
    ensures
        place == pick_of(hash, upper as int),
        place <= upper,
        place as int == (hash as usize) as int % (upper + 1),
{
    (hash as usize) % (upper + 1)
}

/// Whether a seed may be drawn.
pub closed spec fn may_seed(state: RandomState) -> bool {
    call_ensures(random_state, (), state)
}

/// Whether `hash` may be the hash of a number under a seed.
pub closed spec fn may_hash(state: RandomState, number: usize, hash: u64) -> bool {
    call_ensures(hash_number, (&state, number), hash)
}

/// Whether a hash of the place `upper` picks `place`.
pub open spec fn may_pick(state: RandomState, upper: usize, place: usize) -> bool {
    exists|hash: u64|
        (#[trigger] may_hash(state, upper, hash)) && place == pick_of(hash, upper as int)
}

/// Whether all places but the first are picked under one seed, each by a hash of its own.
pub open spec fn may_draw(state: RandomState, picks: Seq<usize>) -> bool {
    &&& may_seed(state)
    &&& forall|i: int| 0 < i < picks.len() ==> may_pick(state, i as usize, #[trigger] picks[i])
}

/// Puts a list in random order: as [`shuffle_with`] does for places that hashes under a
/// fresh seed pick.
pub fn shuffle<T>(values: &mut Vec<T>)
    ensures
        exists|state: RandomState, picks: Seq<usize>|
            ({
                &&& #[trigger] may_draw(state, picks)
                &&& picks.len() == old(values)@.len()
                &&& final(values)@ == shuffled(
                    old(values)@,
                    picks,
                    if old(values)@.len() == 0 {
                        0
                    } else {
                        (old(values)@.len() - 1) as nat
                    },
                )
            }),
        final(values)@.to_multiset() == old(values)@.to_multiset(),
        final(values)@.len() == old(values)@.len(),
{
    let state = random_state();
    assert(may_seed(state));
    let mut picks: Vec<usize> = Vec::new();
    if values.len() > 0 {
        picks.push(0);
    }
    while picks.len() < values.len()
        invariant
            picks@.len() <= values@.len(),
            values@.len() > 0 ==> picks@.len() > 0,
            *values == *old(values),
            forall|i: int| 0 <= i < picks@.len() ==> #[trigger] picks@[i] <= i,
            may_draw(state, picks@),
        decreases values@.len() - picks@.len(),
    {
        let upper = picks.len();
        let hash = hash_number(&state, upper);
        assert(may_hash(state, upper, hash));
        let place = pick(hash, upper);
        assert(may_pick(state, upper, place));
        picks.push(place);
    }
    shuffle_with(values, &picks);
}

/// Response handle that charges elapsed time to the selected replica.
pub struct ReplicaResponseFuture<F> {
    response: F,
    guard: Option<QuotaTicket>,
}

impl<F> ReplicaResponseFuture<F> {
    /// The replica's own response handle.
    pub closed spec fn response(&self) -> F {
        self.response
    }

    /// The ticket that is charged once the response arrives, if it has not.
    pub closed spec fn ticket(&self) -> Option<QuotaTicket> {
        self.guard
    }

    /// The handle is the replica's own, and a ticket that was issued for this replica waits
    /// to be charged.
    pub open spec fn awaits(&self, response: F, index: int) -> bool {
        &&& self.response() == response
        &&& self.ticket() matches Some(ticket) && ticket.issued_for(index)
    }

    /// The replica's own response handle, to be polled.
    pub fn inner(&mut self) -> (response: &mut F)
        ensures
            *response == old(self).response(),
            final(self).response() == *final(response),
            final(self).ticket() == old(self).ticket(),
    {
        &mut self.response
    }

    /// The response arrived: charges the replica.
    pub fn settle(&mut self, selector: &mut QuotaSelector, succeeded: bool)
        requires
            old(selector)@.valid(),
            old(self).ticket() matches Some(ticket) && ticket.position()
                < old(selector)@.used.len(),
        ensures
            final(self).response() == old(self).response(),
            final(self).ticket() is None,
            final(selector)@.valid(),
            old(self).ticket()->0.may_charge(old(selector)@, succeeded, final(selector)@),
    {
        if let Some(guard) = self.guard.take() {
            if succeeded {
                guard.success(selector);
            } else {
                guard.failure(selector);
            }
        }
    }

    /// Gives the request up: one whose response has not arrived counts as a failure.
    pub fn abandon(self, selector: &mut QuotaSelector)
        requires
            old(selector)@.valid(),
            self.ticket() matches Some(ticket) ==> ticket.position() < old(selector)@.used.len(),
        ensures
            final(selector)@.valid(),
            match self.ticket() {
                Some(ticket) => ticket.may_charge(old(selector)@, false, final(selector)@),
                None => final(selector)@ == old(selector)@,
            },
    {
        if let Some(guard) = self.guard {
            guard.give_up(selector);
        }
    }
}

impl<T> ReplicaResponseFuture<ResponseFuture<T>> {
    /// The identifier of the awaited request.
    pub fn request_token(&self) -> (token: RequestToken)
        ensures
            token == self.response().token(),
    {
        self.response.request_token()
    }
}

/// Equivalent physical nodes selected by consumed request-time quota.
pub struct ReplicaSet<N> {
    replicas: Vec<N>,
    balancer: QuotaSelector,
}

impl<N> ReplicaSet<N> {
    /// The replicas, in selection order.
    pub closed spec fn replicas(&self) -> Seq<N> {
        self.replicas@
    }

    /// The state of the selector.
    pub closed spec fn selector(&self) -> SelectorView {
        self.balancer@
    }

    /// The selector counts just these replicas.
    pub open spec fn wf(&self) -> bool {
        &&& self.selector().valid()
        &&& self.selector().used.len() == self.replicas().len()
    }

    /// Replicas in random order, with default limits.
    pub fn new(replicas: Vec<N>) -> (set: Result<Self, NetError>)
        ensures
            match set {
                Ok(set) => {
                    &&& set.wf()
                    &&& exists|state: RandomState, picks: Seq<usize>|
                        ({
                            &&& #[trigger] may_draw(state, picks)
                            &&& picks.len() == replicas@.len()
                            &&& set.replicas() == shuffled(
                                replicas@,
                                picks,
                                (replicas@.len() - 1) as nat,
                            )
                        })
                    &&& set.replicas().to_multiset() == replicas@.to_multiset()
                    &&& set.replicas().len() == replicas@.len()
                    &&& set.selector().current == 0
                    &&& set.selector().quota == 2_000_000
                    &&& set.selector().penalty == 500_000
                    &&& forall|i: int|
                        0 <= i < replicas@.len() ==> #[trigger] set.selector().used[i] == 0
                },
                Err(error) => replicas@.len() == 0 && error is NoReplicas,
            },
    {
        Self::with_options(replicas, QuotaBalancerOptions::default())
    }

    /// Replicas in random order.
    pub fn with_options(replicas: Vec<N>, options: QuotaBalancerOptions) -> (set: Result<
        Self,
        NetError,
    >)
        ensures
            match set {
                Ok(set) => {
                    &&& replicas@.len() > 0
                    &&& options_complaint(options) is None
                    &&& set.wf()
                    &&& exists|state: RandomState, picks: Seq<usize>|
                        ({
                            &&& #[trigger] may_draw(state, picks)
                            &&& picks.len() == replicas@.len()
                            &&& set.replicas() == shuffled(
                                replicas@,
                                picks,
                                (replicas@.len() - 1) as nat,
                            )
                        })
                    &&& set.replicas().to_multiset() == replicas@.to_multiset()
                    &&& set.replicas().len() == replicas@.len()
                    &&& set.selector() == SelectorView::fresh(replicas@.len(), options, 0)
                },
                Err(error) => if replicas@.len() == 0 {
                    error is NoReplicas
                } else {
                    options_complaint(options) matches Some(message) && error.rejects(message)
                },
            },
    {
        let mut replicas = replicas;
        if replicas.len() == 0 {
            return Err(NetError::NoReplicas);
        }
        shuffle(&mut replicas);
        match QuotaSelector::new(replicas.len(), options) {
            Ok(balancer) => Ok(ReplicaSet { replicas, balancer }),
            Err(error) => Err(error),
        }
    }

    /// How many replicas there are.
    pub fn len(&self) -> (count: usize)
        ensures
            count == self.replicas().len(),
    {
        self.replicas.len()
    }

    /// Whether there is no replica.
    pub fn is_empty(&self) -> (empty: bool)
        ensures
            empty == (self.replicas().len() == 0),
    {
        self.replicas.len() == 0
    }

    /// What each replica has consumed.
    pub fn snapshots(&self) -> (snapshots: Vec<ReplicaSnapshot>)
        ensures
            snapshots@.len() == self.selector().used.len(),
            forall|i: int|
                0 <= i < snapshots@.len() ==> (#[trigger] snapshots@[i]).used_quota.nanos
                    == self.selector().used[i] * 1_000 && snapshots@[i].current == (i
                    == self.selector().current),
    {
        self.balancer.snapshots()
    }

    /// One replica.
    pub fn replica(&self, index: usize) -> (replica: &N)
        requires
            index < self.replicas().len(),
        ensures
            *replica == self.replicas()[index as int],
    {
        &self.replicas[index]
    }

    /// Takes in what a replica made of a request: charges a refusal as a failure, and lets the
    /// response of an admitted request wait for its charge.
    pub fn conclude<F, E>(
        &mut self,
        ticket: QuotaTicket,
        submitted: Result<F, SessionError<E>>,
    ) -> (concluded: Result<ReplicaResponseFuture<F>, SessionError<E>>)
        requires
            old(self).wf(),
            ticket.position() < old(self).replicas().len(),
        ensures
            final(self).wf(),
            final(self).replicas() == old(self).replicas(),
            match submitted {
                Ok(response) => {
                    &&& concluded matches Ok(future) && future.response() == response
                        && future.ticket() == Some(ticket)
                    &&& final(self).selector() == old(self).selector()
                },
                Err(error) => {
                    &&& concluded == Err::<ReplicaResponseFuture<F>, SessionError<E>>(error)
                    &&& ticket.may_charge(old(self).selector(), false, final(self).selector())
                },
            },
    {
        match submitted {
            Ok(response) => Ok(ReplicaResponseFuture { response, guard: Some(ticket) }),
            Err(error) => {
                ticket.failure(&mut self.balancer);
                Err(error)
            },
        }
    }

    /// The selector, to be charged when responses arrive.
    pub fn balancer(&mut self) -> (selector: &mut QuotaSelector)
        ensures
            selector@ == old(self).selector(),
            final(self).selector() == final(selector)@,
            final(self).replicas() == old(self).replicas(),
    {
        &mut self.balancer
    }
}

impl<R: SessionReplica> ReplicaSet<R> {
    /// Selects one replica and submits to it. A request that it refuses is charged as a
    /// failure.
    pub fn request(&mut self, request: R::Request) -> (submitted: Result<
        ReplicaResponseFuture<R::Future>,
        SessionError<R::Error>,
    >)
        requires
            old(self).wf(),
        ensures
            final(self).wf(),
            final(self).replicas() == old(self).replicas(),
            ({
                let selected = old(self).selector().selected();
                let replica = old(self).replicas()[selected.current];
                match submitted {
                    Ok(future) => {
                        &&& call_ensures(R::request, (&replica, request), Ok(future.response()))
                        &&& future.awaits(future.response(), selected.current)
                        &&& final(self).selector() == selected
                    },
                    Err(error) => {
                        &&& call_ensures(R::request, (&replica, request), Err(error))
                        &&& selected.may_refuse(final(self).selector())
                    },
                }
            }),
    {
        let guard = self.balancer.select();
        let index = guard.index();
        let submitted = self.replicas[index].request(request);
        self.conclude(guard, submitted)
    }

    /// Selects one replica and submits a request that is built only once that replica has
    /// room for it.
    pub fn request_with<F: FnOnce() -> R::Request>(&mut self, build: F) -> (submitted: Result<
        ReplicaResponseFuture<R::Future>,
        SessionError<R::Error>,
    >)
        requires
            old(self).wf(),
            build.requires(()),
        ensures
            final(self).wf(),
            final(self).replicas() == old(self).replicas(),
            ({
                let selected = old(self).selector().selected();
                let replica = old(self).replicas()[selected.current];
                match submitted {
                    Ok(future) => {
                        &&& call_ensures(
                            R::request_with::<F>,
                            (&replica, build),
                            Ok(future.response()),
                        )
                        &&& future.awaits(future.response(), selected.current)
                        &&& final(self).selector() == selected
                    },
                    Err(error) => {
                        &&& call_ensures(R::request_with::<F>, (&replica, build), Err(error))
                        &&& selected.may_refuse(final(self).selector())
                    },
                }
            }),
    {
        let guard = self.balancer.select();
        let index = guard.index();
        let submitted = self.replicas[index].request_with(build);
        self.conclude(guard, submitted)
    }

    /// Selects one replica for a finite pipeline and submits all of its requests to it, or
    /// none. Every response keeps a timer of its own.
    pub fn request_batch(&mut self, requests: Vec<R::Request>) -> (submitted: Result<
        Vec<ReplicaResponseFuture<R::Future>>,
        SessionError<R::Error>,
    >)
        requires
            old(self).wf(),
        ensures
            final(self).wf(),
            final(self).replicas() == old(self).replicas(),
            requests@.len() == 0 ==> (submitted matches Ok(futures) && futures@.len() == 0
                && final(self).selector() == old(self).selector()),
            requests@.len() > 0 ==> ({
                let selected = old(self).selector().selected();
                let replica = old(self).replicas()[selected.current];
                match submitted {
                    Ok(futures) => exists|responses: Vec<R::Future>|
                        {
                            &&& #[trigger] call_ensures(
                                R::request_batch,
                                (&replica, requests),
                                Ok(responses),
                            )
                            &&& futures@.len() == responses@.len()
                            &&& forall|i: int|
                                0 <= i < futures@.len() ==> (#[trigger] futures@[i]).awaits(
                                    responses@[i],
                                    selected.current,
                                )
                            &&& if responses@.len() > 0 {
                                final(self).selector() == selected
                            } else {
                                selected.may_refuse(final(self).selector())
                            }
                        },
                    Err(error) => {
                        &&& call_ensures(R::request_batch, (&replica, requests), Err(error))
                        &&& selected.may_refuse(final(self).selector())
                    },
                }
            }),
    {
        if requests.len() == 0 {
            return Ok(Vec::new());
        }
        let guard = self.balancer.select();
        let index = guard.index();
        let responses = match self.replicas[index].request_batch(requests) {
            Ok(responses) => responses,
            Err(error) => {
                guard.failure(&mut self.balancer);
                return Err(error);
            },
        };
        let ghost all = responses;
        let mut rest = responses;
        let mut futures: Vec<ReplicaResponseFuture<R::Future>> = Vec::new();
        if rest.len() == 0 {
            guard.failure(&mut self.balancer);
            return Ok(futures);
        }
        while rest.len() > 1
            invariant
                rest@.len() >= 1,
                futures@.len() + rest@.len() == all@.len(),
                rest@ == all@.skip(futures@.len() as int),
                forall|i: int|
                    0 <= i < futures@.len() ==> (#[trigger] futures@[i]).awaits(
                        all@[i],
                        guard.position(),
                    ),
            decreases rest@.len(),
        {
            let response = rest.remove(0);
            futures.push(ReplicaResponseFuture { response, guard: Some(guard.sibling()) });
        }
        let response = rest.remove(0);
        futures.push(ReplicaResponseFuture { response, guard: Some(guard) });
        Ok(futures)
    }
}

impl<K: ?Sized, C: RequestTarget<K>> RequestTarget<K> for ReplicaSet<C> {
    type Request = C::Request;

    type Response = C::Response;

    type Error = C::Error;

    type Future = ReplicaResponseFuture<C::Future>;

    open spec fn reachable(&self, key: &K) -> bool {
        &&& self.wf()
        &&& forall|i: int|
            0 <= i < self.replicas().len() ==> (#[trigger] self.replicas()[i]).reachable(key)
    }

    open spec fn may_submit(
        &self,
        after: Self,
        key: &K,
        request: C::Request,
        submitted: Result<ReplicaResponseFuture<C::Future>, SessionError<C::Error>>,
    ) -> bool {
        let selected = self.selector().selected();
        let replica = self.replicas()[selected.current];
        let replica_after = after.replicas()[selected.current];
        &&& after.wf()
        &&& after.replicas().len() == self.replicas().len()
        &&& forall|i: int|
            0 <= i < self.replicas().len() && i != selected.current
                ==> #[trigger] after.replicas()[i] == self.replicas()[i]
        &&& match submitted {
            Ok(future) => {
                &&& replica.may_submit(replica_after, key, request, Ok(future.response()))
                &&& future.awaits(future.response(), selected.current)
                &&& after.selector() == selected
            },
            Err(error) => {
                &&& replica.may_submit(replica_after, key, request, Err(error))
                &&& selected.may_refuse(after.selector())
            },
        }
    }

    fn request_for(&mut self, key: &K, request: C::Request) -> (submitted: Result<
        ReplicaResponseFuture<C::Future>,
        SessionError<C::Error>,
    >)
    {
        let guard = self.balancer.select();
        let index = guard.index();
        let submitted = self.replicas[index].request_for(key, request);
        self.conclude(guard, submitted)
    }
}

/// Law: exchanging two places moves just the items of those two.
pub proof fn law_exchanges_touch_two_places<T>(values: Seq<T>, a: int, b: int)
    requires
        0 <= a < values.len(),
        0 <= b < values.len(),
    ensures
        exchanged(values, a, b).len() == values.len(),
        exchanged(values, a, b)[a] == values[b],
        exchanged(values, a, b)[b] == values[a],
        forall|i: int|
            0 <= i < values.len() && i != a && i != b ==> #[trigger] exchanged(values, a, b)[i]
                == values[i],
{
}

/// Law: a shuffle fills the last place with the item that was picked for it, the place before
/// with the one picked among the rest, and so on; places behind the ones shuffled stay.
pub proof fn law_shuffles_follow_their_picks<T>(values: Seq<T>, picks: Seq<usize>, upper: nat)
    requires
        upper < values.len() == picks.len(),
        forall|i: int| 0 <= i < picks.len() ==> #[trigger] picks[i] <= i,
    ensures
        shuffled(values, picks, upper).len() == values.len(),
        upper > 0 ==> shuffled(values, picks, upper)[upper as int] == values[picks[upper as int] as int],
        upper > 0 ==> shuffled(values, picks, upper) == shuffled(
            exchanged(values, upper as int, picks[upper as int] as int),
            picks,
            (upper - 1) as nat,
        ),
        upper == 0 ==> shuffled(values, picks, upper) == values,
        forall|i: int|
            upper < i < values.len() ==> #[trigger] shuffled(values, picks, upper)[i] == values[i],
    decreases upper,
{
    if upper > 0 {
        let next = exchanged(values, upper as int, picks[upper as int] as int);
        law_exchanges_touch_two_places(values, upper as int, picks[upper as int] as int);
        law_shuffles_follow_their_picks(next, picks, (upper - 1) as nat);
        assert(shuffled(values, picks, upper)[upper as int] == next[upper as int]);
        assert forall|i: int| upper < i < values.len() implies #[trigger] shuffled(
            values,
            picks,
            upper,
        )[i] == values[i] by {
            assert(shuffled(next, picks, (upper - 1) as nat)[i] == next[i]);
        }
    }
}

/// Places are picked by hashes under one random seed, and by nothing else.
proof fn lemma_picks_are_hashes(state: RandomState, number: usize, hash: u64)
    ensures
        may_seed(state) <==> call_ensures(random_state, (), state),
        may_hash(state, number, hash) <==> call_ensures(hash_number, (&state, number), hash),
{
}

/// Law: all places but the first are picked, each by a hash of its own number under the one
/// seed, from among the places up to its own.
pub proof fn law_every_place_is_picked(state: RandomState, picks: Seq<usize>, i: int)
    requires
        may_draw(state, picks),
        0 < i < picks.len() <= usize::MAX,
    ensures
        may_seed(state),
        picks[i] <= i,
        exists|hash: u64|
            (#[trigger] may_hash(state, i as usize, hash)) && picks[i] as int == (
            hash as usize) as int % (i + 1),
{
    assert(may_pick(state, i as usize, picks[i]));
    let hash = choose|hash: u64|
        (#[trigger] may_hash(state, i as usize, hash)) && picks[i] == pick_of(hash, i);
    assert(0 <= (hash as usize) as int % (i + 1) < i + 1);
}

/// Law: a handle that awaits a response is that of the replica, and keeps the ticket of the
/// replica that was selected.
pub proof fn law_handles_keep_their_ticket<F>(
    future: ReplicaResponseFuture<F>,
    response: F,
    index: int,
)
    requires
        future.awaits(response, index),
    ensures
        future.response() == response,
        future.ticket() is Some,
        (future.ticket()->0).position() == index,
        (future.ticket()->0).may_begin(),
{
}

/// Law: a keyed request goes to the replica that is selected, and no other replica sees it. If
/// that one admits it, its response waits for the charge of that replica; if it refuses, the
/// refusal is handed on and charged.
pub proof fn law_keyed_requests_go_to_the_selected_replica<K: ?Sized, C: RequestTarget<K>>(
    set: ReplicaSet<C>,
    after: ReplicaSet<C>,
    key: &K,
    request: C::Request,
    submitted: Result<ReplicaResponseFuture<C::Future>, SessionError<C::Error>>,
)
    requires
        set.wf(),
        set.may_submit(after, key, request, submitted),
    ensures
        ({
            let selector = set.selector();
            let moves = selector.used.len() > 1 && selector.used[selector.current]
                >= selector.quota;
            let at = if !moves {
                selector.current
            } else if selector.current + 1 < selector.used.len() {
                selector.current + 1
            } else {
                0
            };
            &&& after.replicas().len() == set.replicas().len()
            &&& forall|i: int|
                0 <= i < set.replicas().len() && i != at ==> #[trigger] after.replicas()[i]
                    == set.replicas()[i]
            &&& match submitted {
                Ok(future) => {
                    &&& set.replicas()[at].may_submit(
                        after.replicas()[at],
                        key,
                        request,
                        Ok(future.response()),
                    )
                    &&& future.ticket() is Some
                    &&& (future.ticket()->0).position() == at
                    &&& after.selector() == selector.selected()
                },
                Err(error) => {
                    &&& set.replicas()[at].may_submit(
                        after.replicas()[at],
                        key,
                        request,
                        Err(error),
                    )
                    &&& selector.selected().may_refuse(after.selector())
                },
            }
        }),
{
    law_selection_moves_to_the_next_replica(set.selector());
}

} // verus!
