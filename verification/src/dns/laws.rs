//! What holds of the resolver in every state that it can reach.
use vstd::prelude::*;

#[allow(unused_imports)]
use crate::dns::model::{
    abandoned, abandoned_hosts, advanced, due_count, left_hosts, lemma_abandoned_hosts,
    lemma_names_host_step, lemma_telling_keeps_the_rest, names_host, next_id, planned_before,
    planned_with, record_of, replanned, subscribed_hosts, unattempted, ActorView, Planned,
};
#[allow(unused_imports)]
use crate::dns::record::{ids, AnswerView, RecordView, SubscriberView};
#[allow(unused_imports)]
use crate::lists::{joined_all, lemma_parted, lemma_push_contains, parted, parted_all};
#[allow(unused_imports)]
use crate::time::later;

verus! {

/// Whether planned lookups stand earliest first.
pub open spec fn in_order(planned: Seq<Planned>) -> bool {
    forall|i: int, j: int|
        #![trigger planned[i], planned[j]]
        0 <= i < j < planned.len() ==> planned[i].0 <= planned[j].0
}

impl ActorView {
    /// Somebody follows the host, it does not wait for a lookup while one is running, and
    /// when it waits it stands in a queue.
    pub open spec fn sound(self, host: Seq<char>) -> bool {
        self.hosts.contains_key(host) ==> {
            let record = self.hosts[host];
            &&& record.subscribers.len() > 0
            &&& !(record.queued && record.inflight is Some)
            &&& record.queued ==> self.initial_ready.contains(host) || self.ready.contains(host)
        }
    }

    /// The host is going to be looked up: it waits for the next tick or for its turn, a
    /// lookup is running, or its next refresh is planned.
    pub open spec fn tended(self, host: Seq<char>) -> bool {
        self.hosts.contains_key(host) ==> {
            let record = self.hosts[host];
            ||| self.pending.contains(host)
            ||| record.queued
            ||| record.inflight is Some
            ||| record.next_due matches Some(due) && self.planned.contains(
                (due, record.version, host),
            )
        }
    }

    /// Every host is sound.
    pub open spec fn all_sound(self) -> bool {
        forall|host: Seq<char>| #[trigger] self.sound(host)
    }

    /// Every host but these is going to be looked up.
    pub open spec fn tended_but(self, except: Set<Seq<char>>) -> bool {
        forall|host: Seq<char>| except.contains(host) || #[trigger] self.tended(host)
    }

    /// No host is forgotten: each is sound and going to be looked up.
    pub open spec fn none_forgotten(self) -> bool {
        self.all_sound() && self.tended_but(Set::empty())
    }
}

/// What a list holds once others have joined.
pub proof fn lemma_joined_all<T>(items: Seq<T>, more: Seq<T>)
    ensures
        forall|item: T| #[trigger]
            joined_all(items, more).contains(item) <==> items.contains(item) || more.contains(item),
    decreases more.len(),
{
    if more.len() > 0 {
        let less = more.drop_last();
        let rest = joined_all(items, less);
        lemma_joined_all(items, less);
        assert forall|item: T| #[trigger]
            joined_all(items, more).contains(item) <==> items.contains(item) || more.contains(
            item,
        ) by {
            assert(rest.contains(item) <==> items.contains(item) || less.contains(item));
            lemma_push_contains(rest, more.last(), item);
            lemma_push_contains(less, more.last(), item);
            assert(less.push(more.last()) =~= more);
        }
    }
}

/// What a list holds once some are taken out.
pub proof fn lemma_parted_all<T>(items: Seq<T>, gone: Seq<T>)
    ensures
        forall|item: T| #[trigger]
            parted_all(items, gone).contains(item) <==> items.contains(item) && !gone.contains(item),
    decreases gone.len(),
{
    if gone.len() > 0 {
        let less = gone.drop_last();
        lemma_parted_all(items, less);
        lemma_parted(parted_all(items, less), gone.last());
        assert forall|item: T| #[trigger]
            parted_all(items, gone).contains(item) <==> items.contains(item) && !gone.contains(
            item,
        ) by {
            assert(parted_all(items, less).contains(item) <==> items.contains(item)
                && !less.contains(item));
            lemma_push_contains(less, gone.last(), item);
            assert(less.push(gone.last()) =~= gone);
        }
    }
}

/// A plan that is added is there, and no other plan is lost.
pub proof fn lemma_planned_with(planned: Seq<Planned>, entry: Planned)
    ensures
        forall|plan: Planned| #[trigger]
            planned_with(planned, entry).contains(plan) <==> planned.contains(plan) || plan == entry,
        in_order(planned) ==> in_order(planned_with(planned, entry)),
    decreases planned.len(),
{
    let all = planned_with(planned, entry);
    if planned.len() == 0 || !planned_before(entry, planned.last()) {
        assert forall|plan: Planned| #[trigger] all.contains(plan) <==> planned.contains(plan)
            || plan == entry by {
            lemma_push_contains(planned, entry, plan);
        }
        if in_order(planned) {
            assert forall|i: int, j: int|
                #![trigger all[i], all[j]]
                0 <= i < j < all.len() implies all[i].0 <= all[j].0 by {
                if j == planned.len() {
                    assert(planned[i].0 <= planned.last().0);
                    assert(all[i] == planned[i]);
                }
            }
        }
    } else {
        let less = planned.drop_last();
        let rest = planned_with(less, entry);
        lemma_planned_with(less, entry);
        assert forall|plan: Planned| #[trigger] all.contains(plan) <==> planned.contains(plan)
            || plan == entry by {
            assert(rest.contains(plan) <==> less.contains(plan) || plan == entry);
            lemma_push_contains(rest, planned.last(), plan);
            lemma_push_contains(less, planned.last(), plan);
            assert(less.push(planned.last()) =~= planned);
        }
        if in_order(planned) {
            assert(in_order(less)) by {
                assert forall|i: int, j: int|
                    #![trigger less[i], less[j]]
                    0 <= i < j < less.len() implies less[i].0 <= less[j].0 by {
                    assert(less[i] == planned[i] && less[j] == planned[j]);
                }
            }
            assert forall|i: int, j: int|
                #![trigger all[i], all[j]]
                0 <= i < j < all.len() implies all[i].0 <= all[j].0 by {
                if j == all.len() - 1 {
                    assert(rest.contains(all[i])) by {
                        assert(rest[i] == all[i]);
                    }
                    if all[i] != entry {
                        let k = choose|k: int| 0 <= k < less.len() && less[k] == all[i];
                        assert(planned[k].0 <= planned.last().0);
                    }
                } else {
                    assert(all[i] == rest[i] && all[j] == rest[j]);
                }
            }
        }
    }
}

proof fn lemma_enqueued(state: ActorView, host: Seq<char>, except: Set<Seq<char>>)
    requires
        state.all_sound(),
        state.tended_but(except.insert(host)),
    ensures
        state.enqueued(host).all_sound(),
        state.enqueued(host).tended_but(except),
{
    let after = state.enqueued(host);
    assert forall|other: Seq<char>| #[trigger] after.sound(other) by {
        assert(state.sound(other));
        lemma_push_contains(state.ready, host, other);
    }
    assert forall|other: Seq<char>| except.contains(other) || #[trigger] after.tended(other) by {
        assert(except.insert(host).contains(other) || state.tended(other));
        assert(state.sound(other));
    }
}

proof fn lemma_activated(state: ActorView, host: Seq<char>, except: Set<Seq<char>>)
    requires
        state.all_sound(),
        state.tended_but(except.insert(host)),
    ensures
        state.activated(host).all_sound(),
        state.activated(host).tended_but(except),
{
    let after = state.activated(host);
    assert forall|other: Seq<char>| #[trigger] after.sound(other) by {
        assert(state.sound(other));
        lemma_push_contains(state.initial_ready, host, other);
    }
    assert forall|other: Seq<char>| except.contains(other) || #[trigger] after.tended(other) by {
        assert(except.insert(host).contains(other) || state.tended(other));
        assert(state.sound(other));
    }
}

proof fn lemma_scheduled(state: ActorView, host: Seq<char>, due: u128, except: Set<Seq<char>>)
    requires
        state.all_sound(),
        state.tended_but(except.insert(host)),
    ensures
        state.scheduled(host, due).all_sound(),
        state.scheduled(host, due).tended_but(except),
        in_order(state.planned) ==> in_order(state.scheduled(host, due).planned),
{
    let after = state.scheduled(host, due);
    if state.hosts.contains_key(host) {
        assert(state.sound(host));
        lemma_planned_with(state.planned, (due, state.hosts[host].scheduled(due).version, host));
    }
    assert forall|other: Seq<char>| #[trigger] after.sound(other) by {
        assert(state.sound(other));
    }
    assert forall|other: Seq<char>| except.contains(other) || #[trigger] after.tended(other) by {
        assert(except.insert(host).contains(other) || state.tended(other));
    }
}

proof fn lemma_enqueued_all(state: ActorView, hosts: Seq<Seq<char>>, except: Set<Seq<char>>)
    requires
        state.all_sound(),
        state.tended_but(except.union(hosts.to_set())),
    ensures
        state.enqueued_all(hosts).all_sound(),
        state.enqueued_all(hosts).tended_but(except),
        state.enqueued_all(hosts).planned == state.planned,
    decreases hosts.len(),
{
    if hosts.len() == 0 {
        assert(except.union(hosts.to_set()) =~= except);
    } else {
        let less = hosts.drop_last();
        let wider = except.insert(hosts.last());
        assert(wider.union(less.to_set()) =~= except.union(hosts.to_set())) by {
            assert forall|host: Seq<char>| #[trigger] hosts.contains(host) <==> less.contains(host)
                || host == hosts.last() by {
                lemma_push_contains(less, hosts.last(), host);
                assert(less.push(hosts.last()) =~= hosts);
            }
        }
        lemma_enqueued_all(state, less, wider);
        lemma_enqueued(state.enqueued_all(less), hosts.last(), except);
    }
}

proof fn lemma_activated_all(state: ActorView, hosts: Seq<Seq<char>>, except: Set<Seq<char>>)
    requires
        state.all_sound(),
        state.tended_but(except.union(hosts.to_set())),
    ensures
        state.activated_all(hosts).all_sound(),
        state.activated_all(hosts).tended_but(except),
        state.activated_all(hosts).planned == state.planned,
    decreases hosts.len(),
{
    if hosts.len() == 0 {
        assert(except.union(hosts.to_set()) =~= except);
    } else {
        let less = hosts.drop_last();
        let wider = except.insert(hosts.last());
        assert(wider.union(less.to_set()) =~= except.union(hosts.to_set())) by {
            assert forall|host: Seq<char>| #[trigger] hosts.contains(host) <==> less.contains(host)
                || host == hosts.last() by {
                lemma_push_contains(less, hosts.last(), host);
                assert(less.push(hosts.last()) =~= hosts);
            }
        }
        lemma_activated_all(state, less, wider);
        lemma_activated(state.activated_all(less), hosts.last(), except);
    }
}

proof fn lemma_scheduled_all(state: ActorView, plans: Seq<(Seq<char>, u128)>)
    requires
        state.none_forgotten(),
    ensures
        state.scheduled_all(plans).none_forgotten(),
        in_order(state.planned) ==> in_order(state.scheduled_all(plans).planned),
    decreases plans.len(),
{
    if plans.len() > 0 {
        let before = state.scheduled_all(plans.drop_last());
        lemma_scheduled_all(state, plans.drop_last());
        let none = Set::<Seq<char>>::empty();
        assert(before.tended_but(none.insert(plans.last().0))) by {
            assert forall|host: Seq<char>|
                none.insert(plans.last().0).contains(host) || #[trigger] before.tended(host) by {
                assert(none.contains(host) || before.tended(host));
            }
        }
        lemma_scheduled(before, plans.last().0, plans.last().1, none);
    }
}

proof fn lemma_current_hosts(state: ActorView, plans: Seq<Planned>, plan: Planned)
    requires
        plans.contains(plan),
        state.current(plan),
    ensures
        state.current_hosts(plans).contains(plan.2),
    decreases plans.len(),
{
    let less = plans.drop_last();
    let rest = state.current_hosts(less);
    lemma_push_contains(less, plans.last(), plan);
    assert(less.push(plans.last()) =~= plans);
    if plan == plans.last() {
        lemma_push_contains(rest, plan.2, plan.2);
    } else {
        lemma_current_hosts(state, less, plan);
        lemma_push_contains(rest, plans.last().2, plan.2);
    }
}

/// The list of unattempted hosts holds just those that are named and unattempted.
pub proof fn lemma_unattempted(
    hosts: Map<Seq<char>, RecordView>,
    authorities: Seq<(Seq<char>, u16)>,
)
    ensures
        forall|host: Seq<char>| #[trigger]
            unattempted(hosts, authorities).contains(host) <==> names_host(authorities, host)
                && !record_of(hosts, host).attempted,
    decreases authorities.len(),
{
    if authorities.len() > 0 {
        let at = authorities.len() - 1;
        let less = authorities.drop_last();
        let rest = unattempted(hosts, less);
        lemma_unattempted(hosts, less);
        lemma_names_host_step(authorities, at);
        assert(authorities.take(at + 1) =~= authorities);
        assert(authorities.take(at) =~= less);
        assert forall|host: Seq<char>| #[trigger]
            unattempted(hosts, authorities).contains(host) <==> names_host(authorities, host)
                && !record_of(hosts, host).attempted by {
            assert(rest.contains(host) <==> names_host(less, host) && !record_of(
                hosts,
                host,
            ).attempted);
            lemma_push_contains(rest, authorities.last().0, host);
        }
    }
}

/// Law: after a subscriber registers no host is forgotten.
pub proof fn law_registering_forgets_no_host(
    state: ActorView,
    authorities: Seq<(Seq<char>, u16)>,
    interval: u128,
    now: u128,
)
    requires
        state.none_forgotten(),
    ensures
        state.registered(authorities, interval, now).none_forgotten(),
{
    let id = state.next_subscriber;
    let fresh = unattempted(state.hosts, authorities);
    let base = ActorView {
        hosts: subscribed_hosts(state.hosts, authorities, id, interval),
        subscribers: state.subscribers.insert(
            id,
            SubscriberView { authorities, awaiting: true, pending: fresh.len() },
        ),
        pending: joined_all(state.pending, fresh),
        next_subscriber: next_id(id),
        ..state
    };
    lemma_unattempted(state.hosts, authorities);
    lemma_joined_all(state.pending, fresh);
    assert forall|host: Seq<char>| #[trigger] base.sound(host) by {
        assert(state.sound(host));
    }
    assert forall|host: Seq<char>|
        Set::<Seq<char>>::empty().contains(host) || #[trigger] base.tended(host) by {
        assert(Set::<Seq<char>>::empty().contains(host) || state.tended(host));
        assert(joined_all(state.pending, fresh).contains(host) <==> state.pending.contains(host)
            || fresh.contains(host));
        assert(fresh.contains(host) <==> names_host(authorities, host) && !record_of(
            state.hosts,
            host,
        ).attempted);
    }
    let plans = advanced(state.hosts, authorities, later(now, interval));
    lemma_scheduled_all(base, plans);
    lemma_telling_keeps_hosts(state.joined_by(authorities, interval, now), id);
}

proof fn lemma_telling_keeps_hosts(state: ActorView, id: u64)
    requires
        state.none_forgotten(),
    ensures
        state.told(id).none_forgotten(),
{
    let after = state.told(id);
    assert forall|host: Seq<char>| #[trigger] after.sound(host) by {
        assert(state.sound(host));
    }
    assert forall|host: Seq<char>|
        Set::<Seq<char>>::empty().contains(host) || #[trigger] after.tended(host) by {
        assert(Set::<Seq<char>>::empty().contains(host) || state.tended(host));
    }
}

/// Law: after a subscriber leaves, no host that somebody follows is forgotten.
pub proof fn law_unregistering_forgets_no_host(state: ActorView, id: u64, now: u128)
    requires
        state.none_forgotten(),
    ensures
        state.unregistered(id, now).none_forgotten(),
{
    if state.subscribers.contains_key(id) {
        let authorities = state.subscribers[id].authorities;
        let gone = abandoned_hosts(state.hosts, authorities, id);
        let base = ActorView {
            subscribers: state.subscribers.remove(id),
            dirty: parted(state.dirty, id),
            hosts: left_hosts(state.hosts, authorities, id),
            pending: parted_all(state.pending, gone),
            ..state
        };
        lemma_abandoned_hosts(state.hosts, authorities, id);
        lemma_parted_all(state.pending, gone);
        assert forall|host: Seq<char>| #[trigger] base.sound(host) by {
            assert(state.sound(host));
        }
        assert forall|host: Seq<char>|
            Set::<Seq<char>>::empty().contains(host) || #[trigger] base.tended(host) by {
            assert(Set::<Seq<char>>::empty().contains(host) || state.tended(host));
            assert(base.pending.contains(host) <==> state.pending.contains(host) && !gone.contains(
                host,
            ));
            assert(gone.contains(host) <==> names_host(authorities, host) && abandoned(
                state.hosts,
                host,
                id,
            ));
        }
        lemma_scheduled_all(base, replanned(state.hosts, authorities, id, now));
    }
}

/// Law: a tick forgets no host, and every host named before it stands in a queue or is
/// being looked up afterwards.
pub proof fn law_ticks_wake_new_hosts(state: ActorView)
    requires
        state.none_forgotten(),
    ensures
        state.awake().none_forgotten(),
        forall|host: Seq<char>|
            state.pending.contains(host) && state.hosts.contains_key(host) ==> ({
                let record = #[trigger] state.awake().hosts[host];
                record.queued || record.inflight is Some
            }),
{
    let start = ActorView { pending: Seq::empty(), ..state };
    let waiting = state.pending;
    let none = Set::<Seq<char>>::empty();
    assert forall|host: Seq<char>| #[trigger] start.sound(host) by {
        assert(state.sound(host));
    }
    assert forall|host: Seq<char>|
        none.union(waiting.to_set()).contains(host) || #[trigger] start.tended(host) by {
        assert(none.contains(host) || state.tended(host));
    }
    lemma_activated_all(start, waiting, none);
    lemma_awake_queues(start, waiting);
}

proof fn lemma_awake_queues(state: ActorView, hosts: Seq<Seq<char>>)
    requires
        state.all_sound(),
    ensures
        state.activated_all(hosts).hosts.dom() == state.hosts.dom(),
        state.activated_all(hosts).all_sound(),
        forall|host: Seq<char>|
            hosts.contains(host) && state.hosts.contains_key(host) ==> ({
                let record = #[trigger] state.activated_all(hosts).hosts[host];
                record.queued || record.inflight is Some
            }),
    decreases hosts.len(),
{
    if hosts.len() > 0 {
        let less = hosts.drop_last();
        let before = state.activated_all(less);
        let after = before.activated(hosts.last());
        lemma_awake_queues(state, less);
        assert(after.hosts.dom() =~= state.hosts.dom());
        assert forall|host: Seq<char>| #[trigger] after.sound(host) by {
            assert(before.sound(host));
            lemma_push_contains(before.initial_ready, hosts.last(), host);
        }
        assert forall|host: Seq<char>|
            hosts.contains(host) && state.hosts.contains_key(host) implies ({
            let record = #[trigger] after.hosts[host];
            record.queued || record.inflight is Some
        }) by {
            lemma_push_contains(less, hosts.last(), host);
            assert(less.push(hosts.last()) =~= hosts);
            assert(before.sound(host));
            if host != hosts.last() {
                assert(before.hosts[host].queued || before.hosts[host].inflight is Some);
            }
        }
    }
}

/// Law: what is due is queued, nothing that is due stays planned, and no host is
/// forgotten.
pub proof fn law_due_hosts_are_queued(state: ActorView, now: u128)
    requires
        state.none_forgotten(),
        in_order(state.planned),
    ensures
        state.due_taken(now).none_forgotten(),
        in_order(state.due_taken(now).planned),
        forall|i: int|
            0 <= i < state.due_taken(now).planned.len() ==> (
            #[trigger] state.due_taken(now).planned[i]).0 > now,
{
    let planned = state.planned;
    let count = due_count(planned, now) as int;
    lemma_due_count(planned, now);
    let due = planned.take(count);
    let hosts = state.current_hosts(due);
    let start = ActorView { planned: planned.skip(count), ..state };
    let none = Set::<Seq<char>>::empty();
    assert forall|host: Seq<char>| #[trigger] start.sound(host) by {
        assert(state.sound(host));
    }
    assert forall|host: Seq<char>|
        none.union(hosts.to_set()).contains(host) || #[trigger] start.tended(host) by {
        assert(none.contains(host) || state.tended(host));
        if state.hosts.contains_key(host) && state.hosts[host].next_due is Some {
            let record = state.hosts[host];
            let plan = (record.next_due->0, record.version, host);
            if planned.contains(plan) {
                let i = choose|i: int| 0 <= i < planned.len() && planned[i] == plan;
                if i < count {
                    assert(due[i] == plan);
                    lemma_current_hosts(state, due, plan);
                } else {
                    assert(start.planned[i - count] == plan);
                }
            }
        }
    }
    lemma_enqueued_all(start, hosts, none);
    assert(in_order(start.planned)) by {
        assert forall|i: int, j: int|
            #![trigger start.planned[i], start.planned[j]]
            0 <= i < j < start.planned.len() implies start.planned[i].0
            <= start.planned[j].0 by {
            assert(planned[i + count].0 <= planned[j + count].0);
        }
    }
    assert forall|i: int| 0 <= i < start.planned.len() implies (#[trigger] start.planned[i]).0
        > now by {
        assert(planned[count].0 <= planned[count + i].0);
    }
}

/// How many of the first plans are due.
pub proof fn lemma_due_count(planned: Seq<Planned>, now: u128)
    ensures
        due_count(planned, now) <= planned.len(),
        forall|i: int|
            0 <= i < due_count(planned, now) ==> (#[trigger] planned[i]).0 <= now,
        due_count(planned, now) < planned.len() ==> planned[due_count(planned, now) as int].0 > now,
    decreases planned.len(),
{
    if planned.len() > 0 && planned[0].0 <= now {
        let rest = planned.drop_first();
        lemma_due_count(rest, now);
        assert forall|i: int| 0 <= i < due_count(planned, now) implies (#[trigger] planned[i]).0
            <= now by {
            if i > 0 {
                assert(rest[i - 1] == planned[i]);
            }
        }
    }
}

/// Law: never more lookups run than allowed, each host that starts was waiting for a
/// lookup and had none running, no host starts twice, and no host is forgotten.
pub proof fn law_lookups_are_bounded(state: ActorView)
    requires
        state.none_forgotten(),
        state.inflight <= state.max_lookups,
    ensures
        state.dispatched().0.none_forgotten(),
        state.dispatched().0.inflight <= state.max_lookups,
        state.dispatched().0.inflight == state.inflight + state.dispatched().1.len(),
        state.dispatched().0.planned == state.planned,
        forall|i: int|
            0 <= i < state.dispatched().1.len() ==> {
                let host = (#[trigger] state.dispatched().1[i]).0;
                &&& state.hosts.contains_key(host)
                &&& state.hosts[host].queued
                &&& state.hosts[host].inflight is None
            },
        forall|i: int, j: int|
            0 <= i < j < state.dispatched().1.len() ==> (#[trigger] state.dispatched().1[i]).0 != (
            #[trigger] state.dispatched().1[j]).0,
        state.dispatched().0.inflight < state.max_lookups ==> !state.dispatched().0.has_ready(),
    decreases state.initial_ready.len() + state.ready.len(),
{
    if state.inflight < state.max_lookups && state.has_ready() {
        let host = state.next_ready();
        let rest = state.popped();
        let next = if rest.launchable(host) {
            rest.launched(host)
        } else {
            rest
        };
        assert forall|other: Seq<char>| #[trigger] next.sound(other) by {
            assert(state.sound(other));
            if state.initial_ready.len() > 0 {
                lemma_rest_contains(state.initial_ready, other);
            } else {
                lemma_rest_contains(state.ready, other);
            }
        }
        assert forall|other: Seq<char>|
            Set::<Seq<char>>::empty().contains(other) || #[trigger] next.tended(other) by {
            assert(Set::<Seq<char>>::empty().contains(other) || state.tended(other));
        }
        law_lookups_are_bounded(next);
        let later = next.dispatched().1;
        let all = state.dispatched().1;
        assert forall|i: int| 0 <= i < all.len() implies {
            let host = (#[trigger] all[i]).0;
            &&& state.hosts.contains_key(host)
            &&& state.hosts[host].queued
            &&& state.hosts[host].inflight is None
        } by {
            if rest.launchable(host) {
                if i > 0 {
                    assert(all[i] == later[i - 1]);
                }
            } else {
                assert(all[i] == later[i]);
            }
        }
        assert forall|i: int, j: int| 0 <= i < j < all.len() implies (#[trigger] all[i]).0 != (
        #[trigger] all[j]).0 by {
            if rest.launchable(host) {
                assert(all[j] == later[j - 1]);
                if i > 0 {
                    assert(all[i] == later[i - 1]);
                } else {
                    assert(next.hosts[host].inflight is Some);
                }
            } else {
                assert(all[i] == later[i] && all[j] == later[j]);
            }
        }
    }
}

proof fn lemma_rest_contains<T>(items: Seq<T>, item: T)
    requires
        items.len() > 0,
    ensures
        items.contains(item) ==> item == items[0] || items.drop_first().contains(item),
{
    if items.contains(item) {
        let i = choose|i: int| 0 <= i < items.len() && items[i] == item;
        if i > 0 {
            assert(items.drop_first()[i - 1] == item);
        }
    }
}

/// Law: the end of a lookup forgets no host; the host's next lookup is planned at once.
pub proof fn law_answers_plan_the_next_lookup(
    state: ActorView,
    host: Seq<char>,
    query: u64,
    answer: AnswerView,
    now: u128,
    delay: u128,
)
    requires
        state.none_forgotten(),
    ensures
        state.answered(host, query, answer, now, delay).none_forgotten(),
        state.expects(host, query) ==> state.answered(
            host,
            query,
            answer,
            now,
            delay,
        ).hosts[host].next_due == Some(later(now, delay)),
{
    let settled = state.settled(host, query, answer);
    if state.expects(host, query) {
        lemma_settling_keeps_the_rest(state, host, query, answer);
        let told = state.introduced(host, query);
        let quiet = ActorView { dirty: parted_all(settled.dirty, told), ..settled };
        lemma_telling_keeps_the_rest(quiet, told);
        let base = quiet.told_all(told);
        let one = Set::<Seq<char>>::empty().insert(host);
        assert(state.sound(host));
        assert forall|other: Seq<char>| #[trigger] base.sound(other) by {
            assert(state.sound(other));
        }
        assert forall|other: Seq<char>|
            one.contains(other) || #[trigger] base.tended(other) by {
            assert(Set::<Seq<char>>::empty().contains(other) || state.tended(other));
        }
        lemma_scheduled(base, host, later(now, delay), Set::empty());
    } else {
        assert forall|other: Seq<char>| #[trigger] settled.sound(other) by {
            assert(state.sound(other));
        }
        assert forall|other: Seq<char>|
            Set::<Seq<char>>::empty().contains(other) || #[trigger] settled.tended(other) by {
            assert(Set::<Seq<char>>::empty().contains(other) || state.tended(other));
        }
    }
}

/// Counting answers changes nothing but the subscribers.
pub proof fn lemma_counting_keeps_the_rest(state: ActorView, ids: Seq<u64>)
    ensures
        state.counted_all(ids) == (ActorView {
            subscribers: state.counted_all(ids).subscribers,
            ..state
        }),
    decreases ids.len(),
{
    if ids.len() > 0 {
        lemma_counting_keeps_the_rest(state, ids.drop_last());
    }
}

/// What the end of a lookup leaves alone.
pub proof fn lemma_settling_keeps_the_rest(
    state: ActorView,
    host: Seq<char>,
    query: u64,
    answer: AnswerView,
)
    requires
        state.expects(host, query),
    ensures
        ({
            let settled = state.settled(host, query, answer);
            &&& settled.hosts == state.hosts.insert(host, state.hosts[host].answered(answer))
            &&& settled.pending == state.pending
            &&& settled.planned == state.planned
            &&& settled.ready == state.ready
            &&& settled.initial_ready == state.initial_ready
        }),
{
    let record = state.hosts[host];
    let dirty = if record.attempted && record.changed_by(answer) {
        joined_all(state.dirty, ids(record.subscribers))
    } else {
        state.dirty
    };
    let inflight: nat = if state.inflight == 0 {
        0
    } else {
        (state.inflight - 1) as nat
    };
    let landed = ActorView { inflight, ..state };
    let base = ActorView { dirty, ..landed.with_record(host, record.answered(answer)) };
    lemma_counting_keeps_the_rest(base, state.waiting(host));
}

/// Law: a failed lookup keeps the addresses that the last good one brought, and an answer
/// with the same addresses changes nothing that subscribers see.
pub proof fn law_failures_keep_the_last_answer(
    state: ActorView,
    host: Seq<char>,
    query: u64,
    answer: AnswerView,
    now: u128,
    delay: u128,
)
    requires
        state.expects(host, query),
        answer is Failure || state.hosts[host].snapshot == Some(answer->Addresses_0),
    ensures
        state.answered(host, query, answer, now, delay).hosts[host].snapshot
            == state.hosts[host].snapshot,
        state.hosts[host].attempted ==> state.settled(host, query, answer).dirty == state.dirty,
{
    let settled = state.settled(host, query, answer);
    lemma_settling_keeps_the_rest(state, host, query, answer);
    let told = state.introduced(host, query);
    let quiet = ActorView { dirty: parted_all(settled.dirty, told), ..settled };
    lemma_telling_keeps_the_rest(quiet, told);
    if state.hosts[host].attempted {
        let record = state.hosts[host];
        let inflight: nat = if state.inflight == 0 {
            0
        } else {
            (state.inflight - 1) as nat
        };
        let landed = ActorView { inflight, ..state };
        let base = ActorView {
            dirty: state.dirty,
            ..landed.with_record(host, record.answered(answer))
        };
        lemma_counting_keeps_the_rest(base, state.waiting(host));
    }
}

/// Law: while new hosts wait, refreshes wait: the first lookup that starts is of a new
/// host.
pub proof fn law_new_hosts_come_first(state: ActorView)
    requires
        state.inflight < state.max_lookups,
        state.initial_ready.len() > 0,
        state.launchable(state.initial_ready[0]),
    ensures
        state.dispatched().1.len() > 0,
        state.dispatched().1[0] == (state.initial_ready[0], state.next_query),
{
}

} // verus!
