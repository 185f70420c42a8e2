//! The state of the resolver as contracts see it.
use vstd::prelude::*;

#[allow(unused_imports)]
use crate::dns::actor::Publication;
#[allow(unused_imports)]
use crate::dns::record::{
    ids, others, AnswerView, FailureView, InitialError, RecordView, SubscriberView,
};
#[allow(unused_imports)]
use crate::lists::{joined, joined_all, parted, parted_all};
#[allow(unused_imports)]
use crate::ranked::normal_form;
#[allow(unused_imports)]
use crate::source::Endpoint;
#[allow(unused_imports)]
use crate::text::{digits_of, text_precedes};
#[allow(unused_imports)]
use crate::time::later;

verus! {

/// A planned lookup: when it is due, the schedule version it belongs to, and the host.
pub type Planned = (u128, u64, Seq<char>);

/// Order of planned lookups.
pub open spec fn planned_before(a: Planned, b: Planned) -> bool {
    a.0 < b.0 || (a.0 == b.0 && (a.1 < b.1 || (a.1 == b.1 && text_precedes(a.2, b.2))))
}

/// Planned lookups with one more, which goes after all that do not come later.
pub open spec fn planned_with(planned: Seq<Planned>, entry: Planned) -> Seq<Planned>
    decreases planned.len(),
{
    if planned.len() == 0 || !planned_before(entry, planned.last()) {
        planned.push(entry)
    } else {
        planned_with(planned.drop_last(), entry).push(planned.last())
    }
}

/// How many of the first planned lookups are due.
pub open spec fn due_count(planned: Seq<Planned>, now: u128) -> nat
    decreases planned.len(),
{
    if planned.len() == 0 || planned[0].0 > now {
        0
    } else {
        1 + due_count(planned.drop_first(), now)
    }
}

/// The identifier after `id`; zero is never used.
pub open spec fn next_id(id: u64) -> u64 {
    if id == u64::MAX {
        1
    } else {
        (id + 1) as u64
    }
}

/// Whether one of the authorities is on this host.
pub open spec fn names_host(authorities: Seq<(Seq<char>, u16)>, host: Seq<char>) -> bool {
    exists|i: int| 0 <= i < authorities.len() && (#[trigger] authorities[i]).0 == host
}

/// Hosts of the first authorities, one more at a time.
pub proof fn lemma_names_host_step(authorities: Seq<(Seq<char>, u16)>, at: int)
    requires
        0 <= at < authorities.len(),
    ensures
        forall|host: Seq<char>| #[trigger]
            names_host(authorities.take(at + 1), host) <==> names_host(authorities.take(at), host)
                || host == authorities[at].0,
{
    assert forall|host: Seq<char>| #[trigger]
        names_host(authorities.take(at + 1), host) <==> names_host(authorities.take(at), host)
            || host == authorities[at].0 by {
        let more = authorities.take(at + 1);
        let less = authorities.take(at);
        if names_host(less, host) {
            let i = choose|i: int| 0 <= i < less.len() && (#[trigger] less[i]).0 == host;
            assert(more[i].0 == host);
        }
        if names_host(more, host) {
            let i = choose|i: int| 0 <= i < more.len() && (#[trigger] more[i]).0 == host;
            if i < at {
                assert(less[i].0 == host);
            }
        }
        if host == authorities[at].0 {
            assert(more[at].0 == host);
        }
    }
}

/// The record of a host, fresh for one that is not known.
pub open spec fn record_of(hosts: Map<Seq<char>, RecordView>, host: Seq<char>) -> RecordView {
    if hosts.contains_key(host) {
        hosts[host]
    } else {
        RecordView::fresh()
    }
}

/// The hosts of the authorities of which no lookup has finished, each once.
pub open spec fn unattempted(
    hosts: Map<Seq<char>, RecordView>,
    authorities: Seq<(Seq<char>, u16)>,
) -> Seq<Seq<char>>
    decreases authorities.len(),
{
    if authorities.len() == 0 {
        Seq::empty()
    } else {
        let rest = unattempted(hosts, authorities.drop_last());
        let host = authorities.last().0;
        if record_of(hosts, host).attempted {
            rest
        } else {
            joined(rest, host)
        }
    }
}

/// The hosts with a subscriber added to those that the authorities name.
pub open spec fn subscribed_hosts(
    hosts: Map<Seq<char>, RecordView>,
    authorities: Seq<(Seq<char>, u16)>,
    id: u64,
    interval: u128,
) -> Map<Seq<char>, RecordView> {
    Map::new(
        |host: Seq<char>| hosts.contains_key(host) || names_host(authorities, host),
        |host: Seq<char>|
            if names_host(authorities, host) {
                record_of(hosts, host).subscribed(id, interval)
            } else {
                hosts[host]
            },
    )
}

/// The refreshes that a new subscriber brings forward.
pub open spec fn advanced(
    hosts: Map<Seq<char>, RecordView>,
    authorities: Seq<(Seq<char>, u16)>,
    due: u128,
) -> Seq<(Seq<char>, u128)>
    decreases authorities.len(),
{
    if authorities.len() == 0 {
        Seq::empty()
    } else {
        let rest = advanced(hosts, authorities.drop_last(), due);
        let host = authorities.last().0;
        let record = record_of(hosts, host);
        if record.attempted && record.inflight is None && record.sooner(due) {
            rest.push((host, due))
        } else {
            rest
        }
    }
}

/// Whether a host loses its last subscriber when `id` leaves.
pub open spec fn abandoned(hosts: Map<Seq<char>, RecordView>, host: Seq<char>, id: u64) -> bool {
    hosts.contains_key(host) && others(hosts[host].subscribers, id).len() == 0
}

/// The hosts that nobody follows once `id` leaves.
pub open spec fn abandoned_hosts(
    hosts: Map<Seq<char>, RecordView>,
    authorities: Seq<(Seq<char>, u16)>,
    id: u64,
) -> Seq<Seq<char>>
    decreases authorities.len(),
{
    if authorities.len() == 0 {
        Seq::empty()
    } else {
        let rest = abandoned_hosts(hosts, authorities.drop_last(), id);
        let host = authorities.last().0;
        if abandoned(hosts, host, id) {
            rest.push(host)
        } else {
            rest
        }
    }
}

/// The list of abandoned hosts holds just those that are named and abandoned.
pub proof fn lemma_abandoned_hosts(
    hosts: Map<Seq<char>, RecordView>,
    authorities: Seq<(Seq<char>, u16)>,
    id: u64,
)
    ensures
        forall|host: Seq<char>| #[trigger]
            abandoned_hosts(hosts, authorities, id).contains(host) <==> names_host(
                authorities,
                host,
            ) && abandoned(hosts, host, id),
    decreases authorities.len(),
{
    let list = abandoned_hosts(hosts, authorities, id);
    if authorities.len() > 0 {
        let at = authorities.len() - 1;
        let less = authorities.drop_last();
        let rest = abandoned_hosts(hosts, less, id);
        let last = authorities.last().0;
        lemma_abandoned_hosts(hosts, less, id);
        lemma_names_host_step(authorities, at);
        assert(authorities.take(at + 1) =~= authorities);
        assert(authorities.take(at) =~= less);
        assert forall|host: Seq<char>| #[trigger] list.contains(host) <==> names_host(
            authorities,
            host,
        ) && abandoned(hosts, host, id) by {
            assert(rest.contains(host) <==> names_host(less, host) && abandoned(hosts, host, id));
            if rest.contains(host) {
                let i = choose|i: int| 0 <= i < rest.len() && rest[i] == host;
                assert(list[i] == host);
            }
            if list.contains(host) {
                let i = choose|i: int| 0 <= i < list.len() && list[i] == host;
                if i < rest.len() {
                    assert(rest[i] == host);
                }
            }
            if host == last && abandoned(hosts, host, id) {
                assert(list[rest.len() as int] == host);
            }
        }
    }
}

/// The hosts once `id` has left those that the authorities name.
pub open spec fn left_hosts(
    hosts: Map<Seq<char>, RecordView>,
    authorities: Seq<(Seq<char>, u16)>,
    id: u64,
) -> Map<Seq<char>, RecordView> {
    Map::new(
        |host: Seq<char>|
            hosts.contains_key(host) && !(names_host(authorities, host) && abandoned(
                hosts,
                host,
                id,
            )),
        |host: Seq<char>|
            if names_host(authorities, host) {
                hosts[host].unsubscribed(id)
            } else {
                hosts[host]
            },
    )
}

/// The refreshes that come earlier than planned once `id` leaves.
pub open spec fn replanned(
    hosts: Map<Seq<char>, RecordView>,
    authorities: Seq<(Seq<char>, u16)>,
    id: u64,
    now: u128,
) -> Seq<(Seq<char>, u128)>
    decreases authorities.len(),
{
    if authorities.len() == 0 {
        Seq::empty()
    } else {
        let rest = replanned(hosts, authorities.drop_last(), id, now);
        let host = authorities.last().0;
        if hosts.contains_key(host) && !abandoned(hosts, host, id) {
            let due = later(now, hosts[host].unsubscribed(id).interval());
            if hosts[host].sooner(due) {
                rest.push((host, due))
            } else {
                rest
            }
        } else {
            rest
        }
    }
}

/// The endpoints of one authority.
pub open spec fn endpoints_of(
    hosts: Map<Seq<char>, RecordView>,
    authority: (Seq<char>, u16),
) -> Seq<Endpoint> {
    if hosts.contains_key(authority.0) && hosts[authority.0].snapshot is Some {
        hosts[authority.0].snapshot->0.map_values(
            |ip: u32| Endpoint::V4 { ip, port: authority.1 },
        )
    } else {
        Seq::empty()
    }
}

/// The endpoints of all the authorities, in their order.
pub open spec fn gathered(
    hosts: Map<Seq<char>, RecordView>,
    authorities: Seq<(Seq<char>, u16)>,
) -> Seq<Endpoint>
    decreases authorities.len(),
{
    if authorities.len() == 0 {
        Seq::empty()
    } else {
        gathered(hosts, authorities.drop_last()) + endpoints_of(hosts, authorities.last())
    }
}

/// The failure of one authority that never had an answer.
pub open spec fn failure_of(
    hosts: Map<Seq<char>, RecordView>,
    authority: (Seq<char>, u16),
) -> Option<FailureView> {
    if hosts.contains_key(authority.0) && hosts[authority.0].snapshot is None {
        hosts[authority.0].last_error
    } else {
        None
    }
}

/// The first authority that failed without ever having an answer.
pub open spec fn first_failure(
    hosts: Map<Seq<char>, RecordView>,
    authorities: Seq<(Seq<char>, u16)>,
) -> Option<((Seq<char>, u16), FailureView)>
    decreases authorities.len(),
{
    if authorities.len() == 0 {
        None
    } else {
        match first_failure(hosts, authorities.drop_last()) {
            Some(found) => Some(found),
            None => match failure_of(hosts, authorities.last()) {
                Some(failure) => Some((authorities.last(), failure)),
                None => None,
            },
        }
    }
}

/// The state of the resolver.
#[verifier::ext_equal]
pub struct ActorView {
    /// Lookups that may run at once.
    pub max_lookups: nat,
    /// Hosts that somebody follows.
    pub hosts: Map<Seq<char>, RecordView>,
    /// Those who follow them.
    pub subscribers: Map<u64, SubscriberView>,
    /// Planned refreshes, earliest first.
    pub planned: Seq<Planned>,
    /// New hosts that wait for their first lookup.
    pub initial_ready: Seq<Seq<char>>,
    /// Hosts that wait for a refresh.
    pub ready: Seq<Seq<char>>,
    /// Hosts that were named since the last tick.
    pub pending: Seq<Seq<char>>,
    /// Subscribers whose addresses changed since the last tick.
    pub dirty: Seq<u64>,
    pub next_subscriber: u64,
    pub next_query: u64,
    /// Lookups that are running.
    pub inflight: nat,
}

impl ActorView {
    /// A resolver that knows no host.
    pub open spec fn idle(max_lookups: nat) -> Self {
        ActorView {
            max_lookups,
            hosts: Map::empty(),
            subscribers: Map::empty(),
            planned: Seq::empty(),
            initial_ready: Seq::empty(),
            ready: Seq::empty(),
            pending: Seq::empty(),
            dirty: Seq::empty(),
            next_subscriber: 1,
            next_query: 1,
            inflight: 0,
        }
    }

    /// The state with another record of one host.
    pub open spec fn with_record(self, host: Seq<char>, record: RecordView) -> Self {
        ActorView { hosts: self.hosts.insert(host, record), ..self }
    }

    /// The state after one host is put in the refresh queue, if it can be.
    pub open spec fn enqueued(self, host: Seq<char>) -> Self {
        if self.hosts.contains_key(host) && self.hosts[host].idle() {
            ActorView {
                ready: self.ready.push(host),
                ..self.with_record(host, self.hosts[host].enqueued())
            }
        } else {
            self
        }
    }

    /// The state after several hosts are put in the refresh queue.
    pub open spec fn enqueued_all(self, hosts: Seq<Seq<char>>) -> Self
        decreases hosts.len(),
    {
        if hosts.len() == 0 {
            self
        } else {
            self.enqueued_all(hosts.drop_last()).enqueued(hosts.last())
        }
    }

    /// The state after a new host is put in the queue of first lookups, if it can be.
    pub open spec fn activated(self, host: Seq<char>) -> Self {
        if self.hosts.contains_key(host) && self.hosts[host].idle() {
            ActorView {
                initial_ready: self.initial_ready.push(host),
                ..self.with_record(host, self.hosts[host].enqueued())
            }
        } else {
            self
        }
    }

    /// The state after several new hosts are put in the queue of first lookups.
    pub open spec fn activated_all(self, hosts: Seq<Seq<char>>) -> Self
        decreases hosts.len(),
    {
        if hosts.len() == 0 {
            self
        } else {
            self.activated_all(hosts.drop_last()).activated(hosts.last())
        }
    }

    /// The state after all new hosts are put in the queue of first lookups.
    pub open spec fn awake(self) -> Self {
        ActorView { pending: Seq::empty(), ..self }.activated_all(self.pending)
    }

    /// The state after the next refresh of a host is planned.
    pub open spec fn scheduled(self, host: Seq<char>, due: u128) -> Self {
        if self.hosts.contains_key(host) && self.hosts[host].subscribers.len() > 0 {
            let record = self.hosts[host].scheduled(due);
            ActorView {
                planned: planned_with(self.planned, (due, record.version, host)),
                ..self.with_record(host, record)
            }
        } else {
            self
        }
    }

    /// The state after several refreshes are planned.
    pub open spec fn scheduled_all(self, plans: Seq<(Seq<char>, u128)>) -> Self
        decreases plans.len(),
    {
        if plans.len() == 0 {
            self
        } else {
            self.scheduled_all(plans.drop_last()).scheduled(plans.last().0, plans.last().1)
        }
    }

    /// Whether a planned lookup is the current plan of its host.
    pub open spec fn current(self, plan: Planned) -> bool {
        self.hosts.contains_key(plan.2) && self.hosts[plan.2].version == plan.1
            && self.hosts[plan.2].next_due == Some(plan.0)
    }

    /// The hosts of those plans that are current.
    pub open spec fn current_hosts(self, plans: Seq<Planned>) -> Seq<Seq<char>>
        decreases plans.len(),
    {
        if plans.len() == 0 {
            Seq::empty()
        } else {
            let rest = self.current_hosts(plans.drop_last());
            if self.current(plans.last()) {
                rest.push(plans.last().2)
            } else {
                rest
            }
        }
    }

    /// The state after what is due is put in the refresh queue.
    pub open spec fn due_taken(self, now: u128) -> Self {
        let count = due_count(self.planned, now) as int;
        let hosts = self.current_hosts(self.planned.take(count));
        ActorView { planned: self.planned.skip(count), ..self }.enqueued_all(hosts)
    }

    /// Whether a queued host is left.
    pub open spec fn has_ready(self) -> bool {
        self.initial_ready.len() > 0 || self.ready.len() > 0
    }

    /// The host whose turn it is: new hosts come first.
    pub open spec fn next_ready(self) -> Seq<char> {
        if self.initial_ready.len() > 0 {
            self.initial_ready[0]
        } else {
            self.ready[0]
        }
    }

    /// The state after the host whose turn it is leaves its queue.
    pub open spec fn popped(self) -> Self {
        if self.initial_ready.len() > 0 {
            ActorView { initial_ready: self.initial_ready.drop_first(), ..self }
        } else {
            ActorView { ready: self.ready.drop_first(), ..self }
        }
    }

    /// Whether a lookup of the host may start.
    pub open spec fn launchable(self, host: Seq<char>) -> bool {
        self.hosts.contains_key(host) && self.hosts[host].launchable()
    }

    /// The state after a lookup of the host starts.
    pub open spec fn launched(self, host: Seq<char>) -> Self {
        ActorView {
            next_query: next_id(self.next_query),
            inflight: self.inflight + 1,
            ..self.with_record(host, self.hosts[host].launched(self.next_query))
        }
    }

    /// The state after as many lookups start as may run, and those lookups.
    pub open spec fn dispatched(self) -> (Self, Seq<(Seq<char>, u64)>)
        decreases self.initial_ready.len() + self.ready.len(),
    {
        if self.inflight >= self.max_lookups || !self.has_ready() {
            (self, Seq::empty())
        } else {
            let host = self.next_ready();
            let rest = self.popped();
            if rest.launchable(host) {
                let (last, lookups) = rest.launched(host).dispatched();
                (last, seq![(host, self.next_query)] + lookups)
            } else {
                rest.dispatched()
            }
        }
    }

    /// Whether this is what a subscriber is told now.
    pub open spec fn publishes(self, id: u64, publication: Publication) -> bool {
        let authorities = self.subscribers[id].authorities;
        &&& publication.id == id
        &&& normal_form(gathered(self.hosts, authorities), publication.endpoints@)
        &&& if self.subscribers[id].awaiting {
            publication.initial is Some && match publication.initial->0 {
                Ok(_) => publication.endpoints@.len() > 0,
                Err(InitialError::NoEndpoints) => publication.endpoints@.len() == 0
                    && first_failure(self.hosts, authorities) is None,
                Err(InitialError::Resolve { name, failure }) => {
                    &&& publication.endpoints@.len() == 0
                    &&& first_failure(self.hosts, authorities) matches Some(found)
                        && name@ == found.0.0 + ":"@ + digits_of(found.0.1 as nat) && failure@
                        == found.1
                },
            }
        } else {
            publication.initial is None
        }
    }

    /// The state after a subscriber was told its endpoints.
    pub open spec fn told(self, id: u64) -> Self {
        if self.subscribers.contains_key(id) {
            ActorView {
                subscribers: self.subscribers.insert(
                    id,
                    SubscriberView { awaiting: false, ..self.subscribers[id] },
                ),
                ..self
            }
        } else {
            self
        }
    }

    /// The state after several subscribers were told their endpoints.
    pub open spec fn told_all(self, ids: Seq<u64>) -> Self
        decreases ids.len(),
    {
        if ids.len() == 0 {
            self
        } else {
            self.told_all(ids.drop_last()).told(ids.last())
        }
    }

    /// The state once a subscriber has joined, before it is told anything.
    pub open spec fn joined_by(
        self,
        authorities: Seq<(Seq<char>, u16)>,
        interval: u128,
        now: u128,
    ) -> Self {
        let id = self.next_subscriber;
        let fresh = unattempted(self.hosts, authorities);
        ActorView {
            hosts: subscribed_hosts(self.hosts, authorities, id, interval),
            subscribers: self.subscribers.insert(
                id,
                SubscriberView { authorities, awaiting: true, pending: fresh.len() },
            ),
            pending: joined_all(self.pending, fresh),
            next_subscriber: next_id(id),
            ..self
        }.scheduled_all(advanced(self.hosts, authorities, later(now, interval)))
    }

    /// The state after a subscriber registers. It is told its endpoints at once when all
    /// its hosts have been looked up before.
    pub open spec fn registered(
        self,
        authorities: Seq<(Seq<char>, u16)>,
        interval: u128,
        now: u128,
    ) -> Self {
        let joined = self.joined_by(authorities, interval, now);
        if joined.subscribers[self.next_subscriber].pending == 0 {
            joined.told(self.next_subscriber)
        } else {
            joined
        }
    }

    /// The state after a subscriber leaves.
    pub open spec fn unregistered(self, id: u64, now: u128) -> Self {
        if self.subscribers.contains_key(id) {
            let authorities = self.subscribers[id].authorities;
            ActorView {
                subscribers: self.subscribers.remove(id),
                dirty: parted(self.dirty, id),
                hosts: left_hosts(self.hosts, authorities, id),
                pending: parted_all(
                    self.pending,
                    abandoned_hosts(self.hosts, authorities, id),
                ),
                ..self
            }.scheduled_all(replanned(self.hosts, authorities, id, now))
        } else {
            self
        }
    }

    /// The state after one of a subscriber's hosts has its first answer.
    pub open spec fn counted(self, id: u64) -> Self {
        if self.subscribers.contains_key(id) {
            let subscriber = self.subscribers[id];
            let pending: nat = if subscriber.pending == 0 {
                0
            } else {
                (subscriber.pending - 1) as nat
            };
            ActorView {
                subscribers: self.subscribers.insert(
                    id,
                    SubscriberView { pending, ..subscriber },
                ),
                ..self
            }
        } else {
            self
        }
    }

    /// The state after one host of several subscribers has its first answer.
    pub open spec fn counted_all(self, ids: Seq<u64>) -> Self
        decreases ids.len(),
    {
        if ids.len() == 0 {
            self
        } else {
            self.counted_all(ids.drop_last()).counted(ids.last())
        }
    }

    /// Those of the subscribers that wait for no further host after each is counted.
    pub open spec fn complete(self, ids: Seq<u64>) -> Seq<u64>
        decreases ids.len(),
    {
        if ids.len() == 0 {
            Seq::empty()
        } else {
            let rest = self.complete(ids.drop_last());
            let id = ids.last();
            let after = self.counted_all(ids);
            if after.subscribers.contains_key(id) && after.subscribers[id].pending == 0 {
                rest.push(id)
            } else {
                rest
            }
        }
    }

    /// Whether an answer belongs to the running lookup of its host.
    pub open spec fn expects(self, host: Seq<char>, query: u64) -> bool {
        self.hosts.contains_key(host) && self.hosts[host].inflight == Some(query)
    }

    /// The state once the end of a lookup is taken in, before anybody is told: the count
    /// of running lookups drops, the record and the subscribers are brought up to date.
    pub open spec fn settled(self, host: Seq<char>, query: u64, answer: AnswerView) -> Self {
        let landed = ActorView {
            inflight: if self.inflight == 0 {
                0
            } else {
                (self.inflight - 1) as nat
            },
            ..self
        };
        if self.expects(host, query) {
            let record = self.hosts[host];
            let dirty = if record.attempted && record.changed_by(answer) {
                joined_all(self.dirty, ids(record.subscribers))
            } else {
                self.dirty
            };
            ActorView { dirty, ..landed.with_record(host, record.answered(answer)) }.counted_all(
                self.waiting(host),
            )
        } else {
            landed
        }
    }

    /// The subscribers that wait for the first answer of a host.
    pub open spec fn waiting(self, host: Seq<char>) -> Seq<u64> {
        if self.hosts[host].attempted {
            Seq::empty()
        } else {
            ids(self.hosts[host].subscribers)
        }
    }

    /// The subscribers that are told their endpoints for the first time by an answer.
    pub open spec fn introduced(self, host: Seq<char>, query: u64) -> Seq<u64> {
        if self.expects(host, query) {
            self.complete(self.waiting(host))
        } else {
            Seq::empty()
        }
    }

    /// The state after the end of a lookup, when the next one comes after `delay`.
    pub open spec fn answered(
        self,
        host: Seq<char>,
        query: u64,
        answer: AnswerView,
        now: u128,
        delay: u128,
    ) -> Self {
        let settled = self.settled(host, query, answer);
        if self.expects(host, query) {
            let told = self.introduced(host, query);
            ActorView { dirty: parted_all(settled.dirty, told), ..settled }.told_all(
                told,
            ).scheduled(host, later(now, delay))
        } else {
            settled
        }
    }

    /// The changed subscribers that wait for no first answer.
    pub open spec fn publishable(self, ids: Seq<u64>) -> Seq<u64>
        decreases ids.len(),
    {
        if ids.len() == 0 {
            Seq::empty()
        } else {
            let rest = self.publishable(ids.drop_last());
            let id = ids.last();
            if self.subscribers.contains_key(id) && self.subscribers[id].pending == 0 {
                rest.push(id)
            } else {
                rest
            }
        }
    }

    /// The state after the changed subscribers are told.
    pub open spec fn flushed(self) -> Self {
        ActorView { dirty: Seq::empty(), ..self }.told_all(self.publishable(self.dirty))
    }
}

/// Telling subscribers changes nothing but that they have been told.
pub proof fn lemma_telling_keeps_the_rest(state: ActorView, ids: Seq<u64>)
    ensures
        ({
            let after = state.told_all(ids);
            &&& after == (ActorView { subscribers: after.subscribers, ..state })
            &&& after.subscribers.dom() == state.subscribers.dom()
            &&& forall|id: u64|
                state.subscribers.contains_key(id) ==> (#[trigger] after.subscribers[id]).authorities
                    == state.subscribers[id].authorities && after.subscribers[id].pending
                    == state.subscribers[id].pending
        }),
    decreases ids.len(),
{
    if ids.len() > 0 {
        lemma_telling_keeps_the_rest(state, ids.drop_last());
        let before = state.told_all(ids.drop_last());
        assert(before.told(ids.last()).subscribers.dom() =~= state.subscribers.dom());
    }
}

/// Who has been told does not depend on whose addresses changed.
pub proof fn lemma_telling_ignores_dirty(state: ActorView, dirty: Seq<u64>, ids: Seq<u64>)
    ensures
        (ActorView { dirty, ..state }).told_all(ids) == (ActorView { dirty, ..state.told_all(ids) }),
    decreases ids.len(),
{
    if ids.len() > 0 {
        lemma_telling_ignores_dirty(state, dirty, ids.drop_last());
    }
}

/// Counting depends on the subscribers alone, and who is complete is known.
pub proof fn lemma_complete_depends_on_subscribers(a: ActorView, b: ActorView, ids: Seq<u64>)
    requires
        a.subscribers == b.subscribers,
    ensures
        a.complete(ids) == b.complete(ids),
        a.counted_all(ids).subscribers == b.counted_all(ids).subscribers,
        a.counted_all(ids).subscribers.dom() == a.subscribers.dom(),
        forall|i: int|
            0 <= i < a.complete(ids).len() ==> a.subscribers.contains_key(
                #[trigger] a.complete(ids)[i],
            ),
    decreases ids.len(),
{
    if ids.len() > 0 {
        lemma_complete_depends_on_subscribers(a, b, ids.drop_last());
        assert(a.counted_all(ids).subscribers.dom() =~= a.subscribers.dom());
    }
}

/// Planning refreshes changes nothing for the subscribers.
pub proof fn lemma_scheduling_keeps_subscribers(state: ActorView, plans: Seq<(Seq<char>, u128)>)
    ensures
        state.scheduled_all(plans).subscribers == state.subscribers,
    decreases plans.len(),
{
    if plans.len() > 0 {
        lemma_scheduling_keeps_subscribers(state, plans.drop_last());
    }
}

/// Whether the publications are what these subscribers are told, one after the other.
pub open spec fn told_each(
    state: ActorView,
    ids: Seq<u64>,
    publications: Seq<Publication>,
) -> bool {
    &&& publications.len() == ids.len()
    &&& forall|i: int|
        0 <= i < ids.len() ==> state.told_all(ids.take(i)).publishes(
            ids[i],
            #[trigger] publications[i],
        )
}

} // verus!
