//! The registry and the schedule of the resolver.
use crate::dns::addresses::Ipv4Snapshot;
use crate::dns::authority::Authority;
use crate::dns::record::{host_hash, jittered_with, HostRecord, InitialError, Subscriber};
use crate::error::LookupFailure;
use crate::lists::{join_id, part_id, NameList};
use crate::maps::{IdMap, NameMap};
use crate::source::{normalize, Endpoint};
use crate::text::is_text_before;
use crate::time::{Duration, Instant};
use std::collections::VecDeque;
use vstd::prelude::*;

#[allow(unused_imports)]
use crate::dns::model::{
    abandoned_hosts, advanced, due_count, endpoints_of, first_failure, gathered, left_hosts,
    lemma_abandoned_hosts, lemma_complete_depends_on_subscribers, lemma_names_host_step,
    lemma_scheduling_keeps_subscribers, lemma_telling_ignores_dirty, lemma_telling_keeps_the_rest,
    names_host, next_id, planned_before, planned_with, record_of, replanned, subscribed_hosts,
    told_each, unattempted, ActorView, Planned,
};
#[allow(unused_imports)]
use crate::dns::outcomes::law_publications_hold_every_address;
#[allow(unused_imports)]
use crate::dns::record::{
    answer_view, feeds, ids, jittered_by, lemma_others_settle, lemma_subscribed_settles, names,
    FailureView, RecordView,
};
#[allow(unused_imports)]
use crate::lists::{joined_all, parted, parted_all, texts};
#[allow(unused_imports)]
use crate::text::digits_of;
#[allow(unused_imports)]
use crate::time::later;
#[allow(unused_imports)]
use std::collections::hash_map::DefaultHasher;
#[allow(unused_imports)]
use vstd::std_specs::hash::DefaultHasherAdditionalSpecFns;

verus! {

/// The identifier after `id`.
fn following(id: u64) -> (next: u64)
    ensures
        next == next_id(id),
{
    if id == u64::MAX {
        1
    } else {
        id + 1
    }
}

/// A planned lookup.
pub struct ScheduledLookup {
    pub due: Instant,
    pub version: u64,
    pub host: String,
}

impl View for ScheduledLookup {
    type V = Planned;

    open spec fn view(&self) -> Planned {
        (self.due.nanos, self.version, self.host@)
    }
}

impl ScheduledLookup {
    /// Whether this lookup comes before another.
    pub fn is_before(&self, other: &Self) -> (before: bool)
        ensures
            before == planned_before(self@, other@),
    {
        if self.due.nanos != other.due.nanos {
            self.due.nanos < other.due.nanos
        } else if self.version != other.version {
            self.version < other.version
        } else {
            is_text_before(self.host.as_str(), other.host.as_str())
        }
    }
}

/// The plans of a list of lookups.
pub open spec fn plans(lookups: Seq<ScheduledLookup>) -> Seq<Planned> {
    lookups.map_values(|lookup: ScheduledLookup| lookup@)
}

/// A lookup that starts now.
pub struct Lookup {
    pub host: String,
    pub query_id: u64,
}

/// Hosts and queries of a list of lookups.
pub open spec fn queries(lookups: Seq<Lookup>) -> Seq<(Seq<char>, u64)> {
    lookups.map_values(|lookup: Lookup| (lookup.host@, lookup.query_id))
}

/// The end of a lookup.
pub struct LookupResult {
    pub host: String,
    pub query_id: u64,
    pub result: Result<Ipv4Snapshot, LookupFailure>,
}

/// What one subscriber is told: its endpoints, and with the first ones whether there are
/// any.
pub struct Publication {
    pub id: u64,
    pub endpoints: Vec<Endpoint>,
    pub initial: Option<Result<(), InitialError>>,
}

/// Whether these are the hosts of plans that are all due at one time.
pub open spec fn planned_for(
    hosts: Seq<String>,
    due: u128,
    plans: Seq<(Seq<char>, u128)>,
) -> bool {
    &&& hosts.len() == plans.len()
    &&& forall|i: int| 0 <= i < hosts.len() ==> #[trigger] plans[i] == (hosts[i]@, due)
}

/// The identifiers of a host's subscribers.
fn follower_ids(record: &HostRecord) -> (followers: Vec<u64>)
    ensures
        followers@ == ids(record@.subscribers),
{
    let mut followers: Vec<u64> = Vec::new();
    let mut at: usize = 0;
    while at < record.subscribers.len()
        invariant
            at <= record.subscribers@.len(),
            followers@ =~= ids(record@.subscribers).take(at as int),
        decreases record.subscribers@.len() - at,
    {
        followers.push(record.subscribers[at].0);
        at = at + 1;
    }
    assert(followers@ =~= ids(record@.subscribers));
    followers
}

/// The plans of a list of hosts and times.
pub open spec fn due_plans(list: Seq<(String, Instant)>) -> Seq<(Seq<char>, u128)> {
    list.map_values(|plan: (String, Instant)| (plan.0@, plan.1.nanos))
}

/// The hosts with one subscriber taken out of those that the authorities name.
pub open spec fn thinned_hosts(
    hosts: Map<Seq<char>, RecordView>,
    authorities: Seq<(Seq<char>, u16)>,
    id: u64,
) -> Map<Seq<char>, RecordView> {
    Map::new(
        |host: Seq<char>| hosts.contains_key(host),
        |host: Seq<char>|
            if names_host(authorities, host) {
                hosts[host].unsubscribed(id)
            } else {
                hosts[host]
            },
    )
}

/// Whether an error about a name is the failure found for it.
pub open spec fn named_failure(
    error: Option<(String, LookupFailure)>,
    found: Option<((Seq<char>, u16), FailureView)>,
) -> bool {
    match (error, found) {
        (Some((name, failure)), Some(((host, port), found))) => name@ == host + ":"@ + digits_of(
            port as nat,
        ) && failure@ == found,
        (None, None) => true,
        _ => false,
    }
}

/// The registry of hosts and subscribers, and the schedule of lookups.
pub struct ResolverActor {
    max_lookups: usize,
    hosts: NameMap<HostRecord>,
    subscribers: IdMap<Subscriber>,
    planned: VecDeque<ScheduledLookup>,
    initial_ready: VecDeque<String>,
    ready: VecDeque<String>,
    pending_initial_hosts: NameList,
    dirty_subscribers: Vec<u64>,
    next_subscriber_id: u64,
    next_query_id: u64,
    inflight: usize,
}

impl View for ResolverActor {
    type V = ActorView;

    closed spec fn view(&self) -> ActorView {
        ActorView {
            max_lookups: self.max_lookups as nat,
            hosts: self.hosts@,
            subscribers: self.subscribers@,
            planned: plans(self.planned@),
            initial_ready: texts(self.initial_ready@),
            ready: texts(self.ready@),
            pending: self.pending_initial_hosts@,
            dirty: self.dirty_subscribers@,
            next_subscriber: self.next_subscriber_id,
            next_query: self.next_query_id,
            inflight: self.inflight as nat,
        }
    }
}

impl ResolverActor {
    /// The host table and the list of new hosts are consistent.
    pub closed spec fn wf(&self) -> bool {
        self.hosts.wf() && self.pending_initial_hosts.wf()
    }

    /// A resolver that knows no host.
    pub fn new(max_lookups: usize) -> (actor: Self)
        ensures
            actor.wf(),
            actor@ == ActorView::idle(max_lookups as nat),
    {
        let actor = ResolverActor {
            max_lookups,
            hosts: NameMap::new(),
            subscribers: IdMap::new(),
            planned: VecDeque::new(),
            initial_ready: VecDeque::new(),
            ready: VecDeque::new(),
            pending_initial_hosts: NameList::new(),
            dirty_subscribers: Vec::new(),
            next_subscriber_id: 1,
            next_query_id: 1,
            inflight: 0,
        };
        assert(actor@ =~= ActorView::idle(max_lookups as nat));
        actor
    }

    /// Puts a host in the refresh queue, unless it waits already or is being looked up.
    pub fn enqueue(&mut self, host: String)
        requires
            old(self).wf(),
        ensures
            final(self).wf(),
            final(self)@ == old(self)@.enqueued(host@),
    {
        let known = match self.hosts.get(host.as_str()) {
            Some(record) => !record.queued && record.inflight.is_none()
                && record.subscribers.len() > 0,
            None => false,
        };
        if !known {
            return ;
        }
        if let Some(mut record) = self.hosts.take(host.as_str()) {
            record.queued = true;
            record.next_due = None;
            record.schedule_version = record.schedule_version.wrapping_add(1);
            self.hosts.put(host.clone(), record);
            let ghost before = self.ready@;
            self.ready.push_back(host);
            assert(texts(self.ready@) =~= texts(before).push(host@));
            assert(self@ =~= old(self)@.enqueued(host@));
        }
    }

    /// Plans the next refresh of a host.
    pub fn schedule(&mut self, host: &str, due: Instant)
        requires
            old(self).wf(),
        ensures
            final(self).wf(),
            final(self)@ == old(self)@.scheduled(host@, due.nanos),
    {
        let known = match self.hosts.get(host) {
            Some(record) => record.subscribers.len() > 0,
            None => false,
        };
        if !known {
            return ;
        }
        if let Some(mut record) = self.hosts.take(host) {
            let version = record.schedule_version.wrapping_add(1);
            record.schedule_version = version;
            record.next_due = Some(due);
            self.hosts.put(host.to_owned(), record);
            self.plan(ScheduledLookup { due, version, host: host.to_owned() });
            assert(self@ =~= old(self)@.scheduled(host@, due.nanos));
        }
    }

    /// Inserts a planned lookup at its place.
    fn plan(&mut self, lookup: ScheduledLookup)
        requires
            old(self).wf(),
        ensures
            final(self).wf(),
            final(self)@ == (ActorView {
                planned: planned_with(old(self)@.planned, lookup@),
                ..old(self)@
            }),
    {
        let mut at: usize = self.planned.len();
        let ghost all = plans(self.planned@);
        let ghost entry = lookup@;
        assert(all.take(at as int) =~= all);
        assert(planned_with(all, entry) =~= planned_with(all.take(at as int), entry) + all.skip(
            at as int,
        ));
        while at > 0 && lookup.is_before(&self.planned[at - 1])
            invariant
                at <= all.len(),
                all == plans(self.planned@),
                entry == lookup@,
                *self == *old(self),
                planned_with(all, entry) == planned_with(all.take(at as int), entry) + all.skip(
                    at as int,
                ),
            decreases at,
        {
            let ghost prefix = all.take(at as int);
            assert(prefix.drop_last() =~= all.take(at - 1));
            assert(prefix.last() == self.planned@[at - 1]@);
            assert(planned_with(prefix, entry) == planned_with(all.take(at - 1), entry).push(
                all[at - 1],
            ));
            assert(planned_with(all.take(at - 1), entry).push(all[at - 1]) + all.skip(at as int)
                =~= planned_with(all.take(at - 1), entry) + all.skip(at - 1));
            at = at - 1;
        }
        assert(planned_with(all.take(at as int), entry) =~= all.take(at as int).push(entry)) by {
            if at > 0 {
                assert(all.take(at as int).last() == self.planned@[at - 1]@);
            }
        }
        self.planned.insert(at, lookup);
        assert(plans(self.planned@) =~= all.take(at as int).push(entry) + all.skip(at as int));
    }

    /// Puts the hosts that were named since the last tick in the queue of first lookups.
    pub fn activate_new_hosts(&mut self)
        requires
            old(self).wf(),
        ensures
            final(self).wf(),
            final(self)@ == old(self)@.awake(),
    {
        let hosts = self.pending_initial_hosts.drain();
        let ghost start = self@;
        let ghost all = texts(hosts@);
        assert(start =~= (ActorView { pending: Seq::empty(), ..old(self)@ }));
        let mut at: usize = 0;
        while at < hosts.len()
            invariant
                at <= hosts@.len(),
                all == texts(hosts@),
                self.wf(),
                self@ == start.activated_all(all.take(at as int)),
            decreases hosts@.len() - at,
        {
            assert(all.take(at + 1).drop_last() =~= all.take(at as int));
            let ghost before = self@;
            let host = hosts[at].clone();
            let known = match self.hosts.get(host.as_str()) {
                Some(record) => !record.queued && record.inflight.is_none()
                    && record.subscribers.len() > 0,
                None => false,
            };
            if known {
                if let Some(mut record) = self.hosts.take(host.as_str()) {
                    record.queued = true;
                    record.next_due = None;
                    record.schedule_version = record.schedule_version.wrapping_add(1);
                    self.hosts.put(host.clone(), record);
                    let ghost queue = self.initial_ready@;
                    self.initial_ready.push_back(host);
                    assert(texts(self.initial_ready@) =~= texts(queue).push(host@));
                    assert(self@ =~= before.activated(host@));
                }
            }
            at = at + 1;
        }
        assert(all.take(at as int) =~= all);
    }

    /// Puts the hosts whose refresh is due in the refresh queue.
    pub fn dispatch_due(&mut self, now: Instant)
        requires
            old(self).wf(),
        ensures
            final(self).wf(),
            final(self)@ == old(self)@.due_taken(now.nanos),
    {
        let mut due_hosts: Vec<String> = Vec::new();
        let ghost all = self@.planned;
        let ghost count = due_count(all, now.nanos) as int;
        let ghost mut taken: int = 0;
        assert(all.skip(0) =~= all);
        assert(all.take(0) =~= Seq::<Planned>::empty());
        assert(texts(due_hosts@) =~= Seq::<Seq<char>>::empty());
        while self.planned.len() > 0 && self.planned[0].due.nanos <= now.nanos
            invariant
                self.wf(),
                0 <= taken <= all.len(),
                all == old(self)@.planned,
                count == due_count(all, now.nanos),
                self@ == (ActorView { planned: all.skip(taken), ..old(self)@ }),
                count == taken + due_count(all.skip(taken), now.nanos),
                texts(due_hosts@) == old(self)@.current_hosts(all.take(taken)),
            decreases self.planned@.len(),
        {
            assert(self@.planned[0] == self.planned@[0]@);
            assert(all.skip(taken).drop_first() =~= all.skip(taken + 1));
            assert(all.take(taken + 1).drop_last() =~= all.take(taken));
            let ghost queue = self.planned@;
            if let Some(lookup) = self.planned.pop_front() {
                assert(plans(self.planned@) =~= plans(queue).drop_first());
                assert(lookup@ == all[taken]);
                let valid = match self.hosts.get(lookup.host.as_str()) {
                    Some(record) => record.schedule_version == lookup.version && (
                    match record.next_due {
                        Some(due) => due.nanos == lookup.due.nanos,
                        None => false,
                    }),
                    None => false,
                };
                assert(valid == old(self)@.current(all[taken]));
                let ghost before = due_hosts@;
                if valid {
                    due_hosts.push(lookup.host);
                    assert(texts(due_hosts@) =~= texts(before).push(all[taken].2));
                }
                proof {
                    taken = taken + 1;
                }
                assert(self@ =~= (ActorView { planned: all.skip(taken), ..old(self)@ }));
            }
        }
        assert(count == taken) by {
            if all.skip(taken).len() > 0 {
                assert(self@.planned[0] == self.planned@[0]@);
            }
        }
        let ghost start = self@;
        let ghost hosts = texts(due_hosts@);
        let mut at: usize = 0;
        while at < due_hosts.len()
            invariant
                at <= due_hosts@.len(),
                hosts == texts(due_hosts@),
                self.wf(),
                self@ == start.enqueued_all(hosts.take(at as int)),
            decreases due_hosts@.len() - at,
        {
            assert(hosts.take(at + 1).drop_last() =~= hosts.take(at as int));
            self.enqueue(due_hosts[at].clone());
            at = at + 1;
        }
        assert(hosts.take(at as int) =~= hosts);
    }

    /// Starts lookups of queued hosts, new hosts first, as long as more may run.
    pub fn dispatch_ready(&mut self) -> (lookups: Vec<Lookup>)
        requires
            old(self).wf(),
        ensures
            final(self).wf(),
            (final(self)@, queries(lookups@)) == old(self)@.dispatched(),
    {
        let mut lookups: Vec<Lookup> = Vec::new();
        let ghost goal = old(self)@.dispatched();
        assert(queries(lookups@) + self@.dispatched().1 =~= self@.dispatched().1);
        while self.inflight < self.max_lookups
            invariant
                self.wf(),
                goal == old(self)@.dispatched(),
                self@.dispatched().0 == goal.0,
                queries(lookups@) + self@.dispatched().1 == goal.1,
            decreases self.initial_ready@.len() + self.ready@.len(),
        {
            let ghost before = self@;
            let ghost initial = self.initial_ready@;
            let ghost refresh = self.ready@;
            let host = match self.initial_ready.pop_front() {
                Some(host) => {
                    assert(texts(self.initial_ready@) =~= texts(initial).drop_first());
                    host
                },
                None => match self.ready.pop_front() {
                    Some(host) => {
                        assert(texts(self.ready@) =~= texts(refresh).drop_first());
                        host
                    },
                    None => {
                        assert(self@ =~= before);
                        assert(queries(lookups@) + self@.dispatched().1 =~= queries(lookups@));
                        return lookups;
                    },
                },
            };
            assert(host@ == before.next_ready());
            assert(self@ =~= before.popped());
            let ghost rest = self@;
            let known = match self.hosts.get(host.as_str()) {
                Some(record) => record.queued && record.inflight.is_none()
                    && record.subscribers.len() > 0,
                None => false,
            };
            assert(known == rest.launchable(host@));
            if known {
                if let Some(mut record) = self.hosts.take(host.as_str()) {
                    let query_id = self.next_query_id;
                    self.next_query_id = following(query_id);
                    record.queued = false;
                    record.inflight = Some(query_id);
                    self.hosts.put(host.clone(), record);
                    self.inflight = self.inflight + 1;
                    let ghost started = lookups@;
                    lookups.push(Lookup { host, query_id });
                    assert(self@ =~= rest.launched(host@));
                    assert(queries(lookups@) =~= queries(started).push((host@, query_id)));
                    assert(queries(lookups@) + self@.dispatched().1 =~= queries(started) + (seq![
                        (host@, query_id),
                    ] + self@.dispatched().1));
                }
            }
        }
        assert(queries(lookups@) + self@.dispatched().1 =~= queries(lookups@));
        lookups
    }

    /// What is to be looked up now.
    pub fn prepare(&mut self, now: Instant) -> (lookups: Vec<Lookup>)
        requires
            old(self).wf(),
        ensures
            final(self).wf(),
            (final(self)@, queries(lookups@)) == old(self)@.due_taken(now.nanos).dispatched(),
    {
        self.dispatch_due(now);
        self.dispatch_ready()
    }

    /// The endpoints of one subscriber now.
    pub fn publish_subscriber(&mut self, id: u64) -> (publication: Option<Publication>)
        requires
            old(self).wf(),
        ensures
            final(self).wf(),
            final(self)@ == old(self)@.told(id),
            match publication {
                Some(publication) => old(self)@.subscribers.contains_key(id)
                    && old(self)@.publishes(id, publication),
                None => !old(self)@.subscribers.contains_key(id),
            },
            publication matches Some(publication) ==> {
                let hosts = old(self)@.hosts;
                let authorities = old(self)@.subscribers[id].authorities;
                &&& forall|a: int, i: int|
                    0 <= a < authorities.len() && hosts.contains_key(authorities[a].0)
                        && hosts[authorities[a].0].snapshot is Some && 0 <= i
                        < hosts[authorities[a].0].snapshot->0.len()
                        ==> publication.endpoints@.contains(
                        Endpoint::V4 {
                            ip: #[trigger] hosts[authorities[a].0].snapshot->0[i],
                            port: authorities[a].1,
                        },
                    )
                &&& forall|k: int|
                    0 <= k < publication.endpoints@.len() ==> (
                    #[trigger] publication.endpoints@[k]) is V4 && exists|a: int, i: int|
                        {
                            &&& 0 <= a < authorities.len()
                            &&& hosts.contains_key(authorities[a].0)
                            &&& hosts[authorities[a].0].snapshot is Some
                            &&& 0 <= i < hosts[authorities[a].0].snapshot->0.len()
                            &&& publication.endpoints@[k] == (Endpoint::V4 {
                                ip: #[trigger] hosts[authorities[a].0].snapshot->0[i],
                                port: authorities[a].1,
                            })
                        }
            },
    {
        let mut subscriber = match self.subscribers.take(id) {
            Some(subscriber) => subscriber,
            None => {
                assert(self@ =~= old(self)@);
                return None;
            },
        };
        let mut endpoints: Vec<Endpoint> = Vec::new();
        let mut first_error: Option<(String, LookupFailure)> = None;
        let ghost hosts = self.hosts@;
        let ghost all = names(subscriber.authorities@);
        let mut at: usize = 0;
        while at < subscriber.authorities.len()
            invariant
                at <= subscriber.authorities@.len(),
                self.wf(),
                hosts == self.hosts@,
                all == names(subscriber.authorities@),
                endpoints@ == gathered(hosts, all.take(at as int)),
                named_failure(first_error, first_failure(hosts, all.take(at as int))),
            decreases subscriber.authorities@.len() - at,
        {
            let authority = &subscriber.authorities[at];
            assert(all.take(at + 1).drop_last() =~= all.take(at as int));
            assert(all.take(at + 1).last() == authority@);
            let ghost before = endpoints@;
            match self.hosts.get(authority.host.as_str()) {
                Some(record) => {
                    match &record.snapshot {
                        Some(snapshot) => {
                            let addresses = snapshot.addresses();
                            let ghost expected = endpoints_of(hosts, authority@);
                            let mut next: usize = 0;
                            while next < addresses.len()
                                invariant
                                    next <= addresses@.len(),
                                    expected == addresses@.map_values(
                                        |ip: u32| Endpoint::V4 { ip, port: authority.port },
                                    ),
                                    endpoints@ == before + expected.take(next as int),
                                decreases addresses@.len() - next,
                            {
                                endpoints.push(
                                    Endpoint::V4 { ip: addresses[next], port: authority.port },
                                );
                                assert(endpoints@ =~= before + expected.take(next + 1));
                                next = next + 1;
                            }
                            assert(expected.take(next as int) =~= expected);
                        },
                        None => {
                            assert(before + endpoints_of(hosts, authority@) =~= before);
                            if first_error.is_none() {
                                if let Some(failure) = &record.last_error {
                                    first_error = Some((authority.name(), failure.clone()));
                                }
                            }
                        },
                    }
                },
                None => {
                    assert(before + endpoints_of(hosts, authority@) =~= before);
                },
            }
            at = at + 1;
        }
        assert(all.take(at as int) =~= all);
        let endpoints = normalize(endpoints);
        let initial: Option<Result<(), InitialError>> = if subscriber.awaiting {
            if endpoints.len() == 0 {
                match first_error {
                    Some((name, failure)) => Some(Err(InitialError::Resolve { name, failure })),
                    None => Some(Err(InitialError::NoEndpoints)),
                }
            } else {
                Some(Ok(()))
            }
        } else {
            None
        };
        subscriber.awaiting = false;
        self.subscribers.put(id, subscriber);
        assert(self@ =~= old(self)@.told(id));
        let publication = Publication { id, endpoints, initial };
        proof {
            assert(old(self)@.publishes(id, publication));
            law_publications_hold_every_address(old(self)@, id, publication);
        }
        Some(publication)
    }

    /// Adds a subscriber of these names; returns its identifier, and what it is told at
    /// once when all its hosts have been looked up before.
    pub fn register(
        &mut self,
        authorities: Vec<Authority>,
        refresh_interval: Duration,
        now: Instant,
    ) -> (registered: (u64, Option<Publication>))
        requires
            old(self).wf(),
        ensures
            final(self).wf(),
            final(self)@ == old(self)@.registered(
                names(authorities@),
                refresh_interval.nanos,
                now.nanos,
            ),
            registered.0 == old(self)@.next_subscriber,
            match registered.1 {
                Some(publication) => {
                    &&& unattempted(old(self)@.hosts, names(authorities@)).len() == 0
                    &&& old(self)@.joined_by(
                        names(authorities@),
                        refresh_interval.nanos,
                        now.nanos,
                    ).publishes(registered.0, publication)
                },
                None => unattempted(old(self)@.hosts, names(authorities@)).len() > 0,
            },
    {
        let id = self.next_subscriber_id;
        self.next_subscriber_id = following(id);
        let due = now.plus(refresh_interval);
        let mut fresh = NameList::new();
        let mut reschedule: Vec<String> = Vec::new();
        let ghost known = old(self)@.hosts;
        let ghost all = names(authorities@);
        let ghost mut plans: Seq<(Seq<char>, u128)> = Seq::empty();
        let mut at: usize = 0;
        assert(self.hosts@ =~= subscribed_hosts(known, all.take(0), id, refresh_interval.nanos));
        while at < authorities.len()
            invariant
                at <= authorities@.len(),
                self.wf(),
                all == names(authorities@),
                due.nanos == later(now.nanos, refresh_interval.nanos),
                self@ == (ActorView {
                    hosts: subscribed_hosts(
                        known,
                        all.take(at as int),
                        id,
                        refresh_interval.nanos,
                    ),
                    next_subscriber: next_id(id),
                    ..old(self)@
                }),
                fresh.wf(),
                fresh@ == unattempted(known, all.take(at as int)),
                plans == advanced(known, all.take(at as int), due.nanos),
                planned_for(reschedule@, due.nanos, plans),
            decreases authorities@.len() - at,
        {
            let authority = &authorities[at];
            let ghost host = authority.host@;
            let ghost before = self.hosts@;
            proof {
                assert(all.take(at + 1).drop_last() =~= all.take(at as int));
                assert(all.take(at + 1).last() == authority@);
                lemma_names_host_step(all, at as int);
                lemma_subscribed_settles(
                    record_of(known, host),
                    id,
                    refresh_interval.nanos,
                );
            }
            let mut record = match self.hosts.take(authority.host.as_str()) {
                Some(record) => record,
                None => HostRecord::new(),
            };
            record.subscribe(id, refresh_interval);
            assert(record@ == record_of(known, host).subscribed(id, refresh_interval.nanos));
            let sooner = match record.next_due {
                Some(planned) => due.nanos < planned.nanos,
                None => true,
            };
            if !record.attempted {
                fresh.join(authority.host.as_str());
            } else if record.inflight.is_none() && sooner {
                let ghost listed = reschedule@;
                reschedule.push(authority.host.clone());
                proof {
                    plans = plans.push((host, due.nanos));
                }
            }
            self.hosts.put(authority.host.clone(), record);
            assert(self.hosts@ =~= subscribed_hosts(
                known,
                all.take(at + 1),
                id,
                refresh_interval.nanos,
            ));
            assert(self@ =~= (ActorView {
                hosts: subscribed_hosts(known, all.take(at + 1), id, refresh_interval.nanos),
                next_subscriber: next_id(id),
                ..old(self)@
            }));
            at = at + 1;
        }
        assert(all.take(at as int) =~= all);
        let fresh = fresh.drain();
        let pending_initial_hosts = fresh.len();
        self.subscribers.put(id, Subscriber { authorities, awaiting: true, pending_initial_hosts });
        self.join_pending(&fresh);
        let ghost start = self@;
        let mut next: usize = 0;
        assert(plans.take(0) =~= Seq::<(Seq<char>, u128)>::empty());
        while next < reschedule.len()
            invariant
                next <= reschedule@.len(),
                self.wf(),
                planned_for(reschedule@, due.nanos, plans),
                self@ == start.scheduled_all(plans.take(next as int)),
            decreases reschedule@.len() - next,
        {
            assert(plans.take(next + 1).drop_last() =~= plans.take(next as int));
            assert(plans[next as int] == (reschedule@[next as int]@, due.nanos));
            self.schedule(reschedule[next].as_str(), due);
            next = next + 1;
        }
        assert(plans.take(next as int) =~= plans);
        assert(self@ == old(self)@.joined_by(all, refresh_interval.nanos, now.nanos));
        proof {
            lemma_scheduling_keeps_subscribers(start, plans);
        }
        if pending_initial_hosts == 0 {
            let publication = self.publish_subscriber(id);
            (id, publication)
        } else {
            (id, None)
        }
    }

    /// Adds hosts to those that were named since the last tick.
    fn join_pending(&mut self, hosts: &Vec<String>)
        requires
            old(self).wf(),
        ensures
            final(self).wf(),
            final(self)@ == (ActorView {
                pending: joined_all(old(self)@.pending, texts(hosts@)),
                ..old(self)@
            }),
    {
        let ghost all = texts(hosts@);
        let mut at: usize = 0;
        assert(all.take(0) =~= Seq::<Seq<char>>::empty());
        while at < hosts.len()
            invariant
                at <= hosts@.len(),
                all == texts(hosts@),
                self.wf(),
                self@ == (ActorView {
                    pending: joined_all(old(self)@.pending, all.take(at as int)),
                    ..old(self)@
                }),
            decreases hosts@.len() - at,
        {
            assert(all.take(at + 1).drop_last() =~= all.take(at as int));
            self.pending_initial_hosts.join(hosts[at].as_str());
            assert(self@ =~= (ActorView {
                pending: joined_all(old(self)@.pending, all.take(at + 1)),
                ..old(self)@
            }));
            at = at + 1;
        }
        assert(all.take(at as int) =~= all);
    }

    /// Removes a subscriber, and the hosts that nobody else follows.
    pub fn unregister(&mut self, id: u64, now: Instant)
        requires
            old(self).wf(),
        ensures
            final(self).wf(),
            final(self)@ == old(self)@.unregistered(id, now.nanos),
    {
        let subscriber = match self.subscribers.take(id) {
            Some(subscriber) => subscriber,
            None => {
                assert(self@ =~= old(self)@);
                return ;
            },
        };
        part_id(&mut self.dirty_subscribers, id);
        let mut gone: Vec<String> = Vec::new();
        let mut reschedule: Vec<(String, Instant)> = Vec::new();
        let ghost known = old(self)@.hosts;
        let ghost all = names(subscriber.authorities@);
        let mut at: usize = 0;
        assert(self.hosts@ =~= thinned_hosts(known, all.take(0), id));
        assert(texts(gone@) =~= abandoned_hosts(known, all.take(0), id));
        assert(due_plans(reschedule@) =~= replanned(known, all.take(0), id, now.nanos));
        while at < subscriber.authorities.len()
            invariant
                at <= subscriber.authorities@.len(),
                self.wf(),
                all == names(subscriber.authorities@),
                self@ == (ActorView {
                    subscribers: old(self)@.subscribers.remove(id),
                    dirty: parted(old(self)@.dirty, id),
                    hosts: thinned_hosts(known, all.take(at as int), id),
                    pending: parted_all(
                        old(self)@.pending,
                        abandoned_hosts(known, all.take(at as int), id),
                    ),
                    ..old(self)@
                }),
                texts(gone@) == abandoned_hosts(known, all.take(at as int), id),
                due_plans(reschedule@) == replanned(known, all.take(at as int), id, now.nanos),
            decreases subscriber.authorities@.len() - at,
        {
            let authority = &subscriber.authorities[at];
            let ghost host = authority.host@;
            let ghost before = gone@;
            let ghost listed = reschedule@;
            proof {
                assert(all.take(at + 1).drop_last() =~= all.take(at as int));
                assert(all.take(at + 1).last() == authority@);
                lemma_names_host_step(all, at as int);
                lemma_others_settle(known[host].subscribers, id);
            }
            match self.hosts.take(authority.host.as_str()) {
                Some(mut record) => {
                    record.unsubscribe(id);
                    assert(record@ == known[host].unsubscribed(id));
                    match record.refresh_interval() {
                        Some(interval) => {
                            let due = now.plus(interval);
                            let sooner = match record.next_due {
                                Some(planned) => due.nanos < planned.nanos,
                                None => true,
                            };
                            if sooner {
                                reschedule.push((authority.host.clone(), due));
                                assert(due_plans(reschedule@) =~= due_plans(listed).push(
                                    (host, due.nanos),
                                ));
                            }
                        },
                        None => {
                            self.pending_initial_hosts.part(authority.host.as_str());
                            gone.push(authority.host.clone());
                            assert(texts(gone@) =~= texts(before).push(host));
                            assert(abandoned_hosts(known, all.take(at + 1), id).drop_last()
                                =~= abandoned_hosts(known, all.take(at as int), id));
                        },
                    }
                    self.hosts.put(authority.host.clone(), record);
                },
                None => {},
            }
            assert(self.hosts@ =~= thinned_hosts(known, all.take(at + 1), id));
            assert(self@ =~= (ActorView {
                subscribers: old(self)@.subscribers.remove(id),
                dirty: parted(old(self)@.dirty, id),
                hosts: thinned_hosts(known, all.take(at + 1), id),
                pending: parted_all(
                    old(self)@.pending,
                    abandoned_hosts(known, all.take(at + 1), id),
                ),
                ..old(self)@
            }));
            at = at + 1;
        }
        assert(all.take(at as int) =~= all);
        let ghost thinned = self@;
        let mut next: usize = 0;
        while next < gone.len()
            invariant
                next <= gone@.len(),
                self.wf(),
                self@ == (ActorView { hosts: self.hosts@, ..thinned }),
                forall|host: Seq<char>| #[trigger]
                    self.hosts@.contains_key(host) <==> thinned.hosts.contains_key(host)
                        && !texts(gone@).take(next as int).contains(host),
                forall|host: Seq<char>|
                    self.hosts@.contains_key(host) ==> #[trigger] self.hosts@[host]
                        == thinned.hosts[host],
            decreases gone@.len() - next,
        {
            let ghost hosts = self.hosts@;
            let _ = self.hosts.take(gone[next].as_str());
            proof {
                let more = texts(gone@).take(next + 1);
                let less = texts(gone@).take(next as int);
                assert(more =~= less.push(gone@[next as int]@));
                assert forall|host: Seq<char>| #[trigger] self.hosts@.contains_key(
                    host,
                ) <==> thinned.hosts.contains_key(host) && !more.contains(host) by {
                    assert(hosts.contains_key(host) <==> thinned.hosts.contains_key(host)
                        && !less.contains(host));
                    if more.contains(host) && host != gone@[next as int]@ {
                        let i = choose|i: int| 0 <= i < more.len() && more[i] == host;
                        assert(less[i] == host);
                    }
                    if less.contains(host) {
                        let i = choose|i: int| 0 <= i < less.len() && less[i] == host;
                        assert(more[i] == host);
                    }
                    assert(more[next as int] == gone@[next as int]@);
                }
            }
            next = next + 1;
        }
        proof {
            assert(texts(gone@).take(next as int) =~= texts(gone@));
            lemma_abandoned_hosts(known, all, id);
            assert(self.hosts@ =~= left_hosts(known, all, id));
        }
        let ghost start = self@;
        let ghost plans = due_plans(reschedule@);
        let mut turn: usize = 0;
        assert(plans.take(0) =~= Seq::<(Seq<char>, u128)>::empty());
        while turn < reschedule.len()
            invariant
                turn <= reschedule@.len(),
                self.wf(),
                plans == due_plans(reschedule@),
                self@ == start.scheduled_all(plans.take(turn as int)),
            decreases reschedule@.len() - turn,
        {
            assert(plans.take(turn + 1).drop_last() =~= plans.take(turn as int));
            assert(plans[turn as int] == (
                reschedule@[turn as int].0@,
                reschedule@[turn as int].1.nanos,
            ));
            self.schedule(reschedule[turn].0.as_str(), reschedule[turn].1);
            turn = turn + 1;
        }
        assert(plans.take(turn as int) =~= plans);
    }

    /// Takes in the end of a lookup; returns what subscribers are told at once. `hash`
    /// chooses the jitter of the next lookup.
    pub fn handle_result_at(&mut self, result: LookupResult, now: Instant, hash: u64) -> (told: Vec<
        Publication,
    >)
        requires
            old(self).wf(),
        ensures
            final(self).wf(),
            final(self)@ == old(self)@.answered(
                result.host@,
                result.query_id,
                answer_view(result.result),
                now.nanos,
                jittered_by(
                    old(self)@.hosts[result.host@].delay_after(answer_view(result.result)),
                    hash,
                ),
            ),
            told_each(
                old(self)@.settled(result.host@, result.query_id, answer_view(result.result)),
                old(self)@.introduced(result.host@, result.query_id),
                told@,
            ),
    {
        let host = result.host;
        let ghost answer = answer_view(result.result);
        let ghost query = result.query_id;
        if self.inflight > 0 {
            self.inflight = self.inflight - 1;
        }
        let expected = match self.hosts.get(host.as_str()) {
            Some(record) => match record.inflight {
                Some(query) => query == result.query_id,
                None => false,
            },
            None => false,
        };
        let mut told: Vec<Publication> = Vec::new();
        if !expected {
            return told;
        }
        let mut record = match self.hosts.take(host.as_str()) {
            Some(record) => record,
            None => {
                return told;
            },
        };
        let first = !record.attempted;
        let ghost known = record@;
        let (changed, delay) = record.answer(result.result);
        let followers = follower_ids(&record);
        self.hosts.put(host.clone(), record);
        if changed && !first {
            self.mark_dirty(&followers);
        }
        let ghost base = self@;
        assert(base.hosts =~= old(self)@.hosts.insert(host@, known.answered(answer)));
        let ghost waiting = old(self)@.waiting(host@);
        let mut complete: Vec<u64> = Vec::new();
        if first {
            let mut at: usize = 0;
            assert(waiting == followers@);
            assert(waiting.take(0) =~= Seq::<u64>::empty());
            while at < followers.len()
                invariant
                    at <= followers@.len(),
                    self.wf(),
                    waiting == followers@,
                    self@ == base.counted_all(waiting.take(at as int)),
                    complete@ == base.complete(waiting.take(at as int)),
                decreases followers@.len() - at,
            {
                assert(waiting.take(at + 1).drop_last() =~= waiting.take(at as int));
                if self.count(followers[at]) {
                    complete.push(followers[at]);
                }
                at = at + 1;
            }
            assert(waiting.take(at as int) =~= waiting);
        } else {
            assert(waiting =~= Seq::<u64>::empty());
        }
        let ghost settled = self@;
        assert(settled =~= old(self)@.settled(host@, query, answer));
        proof {
            lemma_complete_depends_on_subscribers(base, old(self)@, waiting);
        }
        let ghost finished = complete@;
        let mut turn: usize = 0;
        assert(finished.take(0) =~= Seq::<u64>::empty());
        while turn < complete.len()
            invariant
                turn <= complete@.len(),
                self.wf(),
                finished == complete@,
                told@.len() == turn,
                self@ == (ActorView {
                    dirty: parted_all(settled.dirty, finished.take(turn as int)),
                    ..settled.told_all(finished.take(turn as int))
                }),
                forall|i: int|
                    0 <= i < turn ==> settled.told_all(finished.take(i)).publishes(
                        finished[i],
                        #[trigger] told@[i],
                    ),
                forall|i: int|
                    0 <= i < finished.len() ==> settled.subscribers.contains_key(
                        #[trigger] finished[i],
                    ),
            decreases complete@.len() - turn,
        {
            assert(finished.take(turn + 1).drop_last() =~= finished.take(turn as int));
            proof {
                lemma_telling_keeps_the_rest(settled, finished.take(turn as int));
            }
            let id = complete[turn];
            part_id(&mut self.dirty_subscribers, id);
            if let Some(publication) = self.publish_subscriber(id) {
                told.push(publication);
            }
            assert(self@ =~= (ActorView {
                dirty: parted_all(settled.dirty, finished.take(turn + 1)),
                ..settled.told_all(finished.take(turn + 1))
            }));
            turn = turn + 1;
        }
        assert(finished.take(turn as int) =~= finished);
        proof {
            lemma_telling_ignores_dirty(settled, parted_all(settled.dirty, finished), finished);
        }
        self.schedule(host.as_str(), now.plus(jittered_with(delay, hash)));
        told
    }

    /// Takes in the end of a lookup; returns what subscribers are told at once.
    pub fn handle_result(&mut self, result: LookupResult, now: Instant) -> (told: Vec<Publication>)
        requires
            old(self).wf(),
        ensures
            final(self).wf(),
            exists|host: &str, hasher: &mut DefaultHasher|
                ({
                    &&& #[trigger] feeds(host, hasher)
                    &&& host@ == result.host@
                    &&& hasher@ == Seq::<Seq<u8>>::empty()
                    &&& final(self)@ == old(self)@.answered(
                        result.host@,
                        result.query_id,
                        answer_view(result.result),
                        now.nanos,
                        jittered_by(
                            old(self)@.hosts[result.host@].delay_after(answer_view(result.result)),
                            DefaultHasher::spec_finish(final(hasher)@),
                        ),
                    )
                }),
            told_each(
                old(self)@.settled(result.host@, result.query_id, answer_view(result.result)),
                old(self)@.introduced(result.host@, result.query_id),
                told@,
            ),
    {
        let hash = host_hash(result.host.as_str());
        self.handle_result_at(result, now, hash)
    }

    /// Marks subscribers whose addresses changed.
    fn mark_dirty(&mut self, ids: &Vec<u64>)
        requires
            old(self).wf(),
        ensures
            final(self).wf(),
            final(self)@ == (ActorView { dirty: joined_all(old(self)@.dirty, ids@), ..old(self)@ }),
    {
        let mut at: usize = 0;
        assert(ids@.take(0) =~= Seq::<u64>::empty());
        while at < ids.len()
            invariant
                at <= ids@.len(),
                self.wf(),
                self@ == (ActorView {
                    dirty: joined_all(old(self)@.dirty, ids@.take(at as int)),
                    ..old(self)@
                }),
            decreases ids@.len() - at,
        {
            assert(ids@.take(at + 1).drop_last() =~= ids@.take(at as int));
            join_id(&mut self.dirty_subscribers, ids[at]);
            at = at + 1;
        }
        assert(ids@.take(at as int) =~= ids@);
    }

    /// Counts the first answer of one of a subscriber's hosts; returns whether it waits for
    /// no other.
    fn count(&mut self, id: u64) -> (complete: bool)
        requires
            old(self).wf(),
        ensures
            final(self).wf(),
            final(self)@ == old(self)@.counted(id),
            complete == (old(self)@.subscribers.contains_key(id)
                && old(self)@.counted(id).subscribers[id].pending == 0),
    {
        match self.subscribers.take(id) {
            Some(mut subscriber) => {
                if subscriber.pending_initial_hosts > 0 {
                    subscriber.pending_initial_hosts = subscriber.pending_initial_hosts - 1;
                }
                let complete = subscriber.pending_initial_hosts == 0;
                self.subscribers.put(id, subscriber);
                assert(self@ =~= old(self)@.counted(id));
                complete
            },
            None => {
                assert(self@ =~= old(self)@);
                false
            },
        }
    }

    /// Tells the subscribers whose addresses changed since the last tick.
    pub fn publish_dirty(&mut self) -> (told: Vec<Publication>)
        requires
            old(self).wf(),
        ensures
            final(self).wf(),
            final(self)@ == old(self)@.flushed(),
            told_each(
                (ActorView { dirty: Seq::empty(), ..old(self)@ }),
                old(self)@.publishable(old(self)@.dirty),
                told@,
            ),
    {
        let mut dirty: Vec<u64> = Vec::new();
        std::mem::swap(&mut dirty, &mut self.dirty_subscribers);
        let ghost start = self@;
        assert(start =~= (ActorView { dirty: Seq::empty(), ..old(self)@ }));
        let ghost mut done: Seq<u64> = Seq::empty();
        let mut told: Vec<Publication> = Vec::new();
        let mut at: usize = 0;
        assert(dirty@.take(0) =~= Seq::<u64>::empty());
        while at < dirty.len()
            invariant
                at <= dirty@.len(),
                self.wf(),
                start == (ActorView { dirty: Seq::empty(), ..old(self)@ }),
                done == old(self)@.publishable(dirty@.take(at as int)),
                self@ == start.told_all(done),
                told_each(start, done, told@),
            decreases dirty@.len() - at,
        {
            assert(dirty@.take(at + 1).drop_last() =~= dirty@.take(at as int));
            proof {
                lemma_telling_keeps_the_rest(start, done);
            }
            let id = dirty[at];
            let waits = match self.subscribers.get(id) {
                Some(subscriber) => subscriber.pending_initial_hosts > 0,
                None => true,
            };
            assert(self.subscribers@ == self@.subscribers);
            if !waits {
                let ghost before = done;
                let ghost earlier = told@;
                if let Some(publication) = self.publish_subscriber(id) {
                    told.push(publication);
                }
                proof {
                    done = done.push(id);
                    assert(done.drop_last() =~= before);
                    assert(done.take(before.len() as int) =~= before);
                    assert forall|i: int| 0 <= i < done.len() implies start.told_all(
                        done.take(i),
                    ).publishes(done[i], #[trigger] told@[i]) by {
                        if i < before.len() {
                            assert(done.take(i) =~= before.take(i));
                            assert(told@[i] == earlier[i]);
                        }
                    }
                }
            }
            at = at + 1;
        }
        assert(dirty@.take(at as int) =~= dirty@);
        told
    }

    /// One tick of the scheduler: new hosts are queued, and changes are published.
    pub fn tick(&mut self) -> (told: Vec<Publication>)
        requires
            old(self).wf(),
        ensures
            final(self).wf(),
            final(self)@ == old(self)@.awake().flushed(),
            told_each(
                (ActorView { dirty: Seq::empty(), ..old(self)@.awake() }),
                old(self)@.awake().publishable(old(self)@.awake().dirty),
                told@,
            ),
    {
        self.activate_new_hosts();
        self.publish_dirty()
    }
}

} // verus!
