//! How hosts and subscribers hang together in every state that the resolver can reach.
use vstd::prelude::*;

#[allow(unused_imports)]
use crate::dns::laws::lemma_settling_keeps_the_rest;
#[allow(unused_imports)]
use crate::dns::model::{
    abandoned_hosts, advanced, left_hosts, lemma_names_host_step,
    lemma_complete_depends_on_subscribers, names_host, next_id, record_of, replanned,
    subscribed_hosts, unattempted, ActorView,
};
#[allow(unused_imports)]
use crate::dns::record::{ids, others, AnswerView, RecordView, SubscriberView};
#[allow(unused_imports)]
use crate::lists::{joined_all, lemma_push_contains, parted, parted_all};
#[allow(unused_imports)]
use crate::time::later;

verus! {

impl ActorView {
    /// A host lists a subscriber just when the subscriber names it, and lists it once;
    /// every host that a subscriber names is known.
    pub open spec fn bonded(self) -> bool {
        &&& forall|host: Seq<char>| #[trigger]
            self.hosts.contains_key(host) ==> ids(self.hosts[host].subscribers).no_duplicates()
        &&& forall|host: Seq<char>, id: u64|
            self.hosts.contains_key(host) ==> (#[trigger] ids(
                self.hosts[host].subscribers,
            ).contains(id) <==> self.subscribers.contains_key(id) && names_host(
                self.subscribers[id].authorities,
                host,
            ))
        &&& forall|host: Seq<char>, id: u64|
            self.subscribers.contains_key(id) && #[trigger] names_host(
                self.subscribers[id].authorities,
                host,
            ) ==> self.hosts.contains_key(host)
    }

    /// A subscriber counts those of its hosts that have had no answer, and waits for its
    /// first result as long as there are any.
    pub open spec fn counting(self) -> bool {
        forall|id: u64| #[trigger]
            self.subscribers.contains_key(id) ==> {
                &&& self.subscribers[id].pending == unattempted(
                    self.hosts,
                    self.subscribers[id].authorities,
                ).len()
                &&& self.subscribers[id].awaiting == (self.subscribers[id].pending > 0)
            }
    }
}

/// Whether two states know the same hosts, with the same subscribers and answers so far.
pub open spec fn same_hosts(a: ActorView, b: ActorView) -> bool {
    &&& a.hosts.dom() == b.hosts.dom()
    &&& forall|host: Seq<char>| #[trigger]
        a.hosts.contains_key(host) ==> a.hosts[host].subscribers == b.hosts[host].subscribers
            && a.hosts[host].attempted == b.hosts[host].attempted
}

proof fn lemma_scheduling_keeps_bonds(state: ActorView, plans: Seq<(Seq<char>, u128)>)
    ensures
        same_hosts(state, state.scheduled_all(plans)),
        state.scheduled_all(plans).subscribers == state.subscribers,
    decreases plans.len(),
{
    if plans.len() > 0 {
        lemma_scheduling_keeps_bonds(state, plans.drop_last());
        let before = state.scheduled_all(plans.drop_last());
        let after = before.scheduled(plans.last().0, plans.last().1);
        assert(after.hosts.dom() =~= state.hosts.dom());
    }
}

/// Bonds depend on hosts and subscribers alone.
proof fn lemma_bonds_transfer(a: ActorView, b: ActorView)
    requires
        same_hosts(a, b),
        a.subscribers == b.subscribers,
        a.bonded(),
        a.counting(),
    ensures
        b.bonded(),
        b.counting(),
{
    assert forall|host: Seq<char>| #[trigger] b.hosts.contains_key(host) implies ids(
        b.hosts[host].subscribers,
    ).no_duplicates() by {
        assert(a.hosts.contains_key(host));
    }
    assert forall|host: Seq<char>, id: u64| b.hosts.contains_key(host) implies (#[trigger] ids(
        b.hosts[host].subscribers,
    ).contains(id) <==> b.subscribers.contains_key(id) && names_host(
        b.subscribers[id].authorities,
        host,
    )) by {
        assert(a.hosts.contains_key(host));
        assert(ids(a.hosts[host].subscribers).contains(id) <==> a.subscribers.contains_key(id)
            && names_host(a.subscribers[id].authorities, host));
    }
    assert forall|host: Seq<char>, id: u64|
        b.subscribers.contains_key(id) && #[trigger] names_host(
            b.subscribers[id].authorities,
            host,
        ) implies b.hosts.contains_key(host) by {
        assert(a.hosts.contains_key(host));
    }
    assert forall|id: u64| #[trigger] b.subscribers.contains_key(id) implies {
        &&& b.subscribers[id].pending == unattempted(b.hosts, b.subscribers[id].authorities).len()
        &&& b.subscribers[id].awaiting == (b.subscribers[id].pending > 0)
    } by {
        assert(a.subscribers.contains_key(id));
        let authorities = a.subscribers[id].authorities;
        assert forall|host: Seq<char>| #[trigger] names_host(authorities, host) implies record_of(
            a.hosts,
            host,
        ).attempted == record_of(b.hosts, host).attempted by {
            assert(a.hosts.contains_key(host));
        }
        lemma_unattempted_agree(a.hosts, b.hosts, authorities);
    }
}

proof fn lemma_unattempted_agree(
    a: Map<Seq<char>, RecordView>,
    b: Map<Seq<char>, RecordView>,
    authorities: Seq<(Seq<char>, u16)>,
)
    requires
        forall|host: Seq<char>| #[trigger]
            names_host(authorities, host) ==> record_of(a, host).attempted == record_of(
                b,
                host,
            ).attempted,
    ensures
        unattempted(a, authorities) == unattempted(b, authorities),
    decreases authorities.len(),
{
    if authorities.len() > 0 {
        let at = authorities.len() - 1;
        lemma_names_host_step(authorities, at);
        assert(authorities.take(at + 1) =~= authorities);
        assert(authorities.take(at) =~= authorities.drop_last());
        assert forall|host: Seq<char>| #[trigger]
            names_host(authorities.drop_last(), host) implies record_of(a, host).attempted
            == record_of(b, host).attempted by {
            assert(names_host(authorities, host));
        }
        lemma_unattempted_agree(a, b, authorities.drop_last());
        assert(names_host(authorities, authorities.last().0));
    }
}

/// A first answer takes its host off the list.
proof fn lemma_unattempted_after_answer(
    a: Map<Seq<char>, RecordView>,
    b: Map<Seq<char>, RecordView>,
    host: Seq<char>,
    authorities: Seq<(Seq<char>, u16)>,
)
    requires
        !record_of(a, host).attempted,
        record_of(b, host).attempted,
        forall|other: Seq<char>|
            other != host ==> (#[trigger] record_of(a, other)).attempted == record_of(
                b,
                other,
            ).attempted,
    ensures
        names_host(authorities, host) <==> unattempted(a, authorities).contains(host),
        names_host(authorities, host) ==> unattempted(a, authorities).len() == unattempted(
            b,
            authorities,
        ).len() + 1,
        !names_host(authorities, host) ==> unattempted(a, authorities) == unattempted(
            b,
            authorities,
        ),
        forall|other: Seq<char>|
            other != host ==> (unattempted(a, authorities).contains(other)
                <==> #[trigger] unattempted(b, authorities).contains(other)),
    decreases authorities.len(),
{
    if authorities.len() > 0 {
        let at = authorities.len() - 1;
        let less = authorities.drop_last();
        let last = authorities.last().0;
        lemma_names_host_step(authorities, at);
        assert(authorities.take(at + 1) =~= authorities);
        assert(authorities.take(at) =~= less);
        lemma_unattempted_after_answer(a, b, host, less);
        let rest_a = unattempted(a, less);
        let rest_b = unattempted(b, less);
        assert(names_host(authorities, host) <==> names_host(less, host) || host == last);
        lemma_push_contains(rest_a, last, host);
        if last != host {
            assert(rest_a.contains(last) <==> rest_b.contains(last));
            assert(record_of(a, last).attempted == record_of(b, last).attempted);
        }
        assert forall|other: Seq<char>| other != host implies (unattempted(
            a,
            authorities,
        ).contains(other) <==> #[trigger] unattempted(b, authorities).contains(other)) by {
            assert(rest_a.contains(other) <==> rest_b.contains(other));
            lemma_push_contains(rest_a, last, other);
            lemma_push_contains(rest_b, last, other);
        }
    }
}

proof fn lemma_ids_push(subscribers: Seq<(u64, u128)>, id: u64, interval: u128)
    ensures
        ids(subscribers.push((id, interval))) == ids(subscribers).push(id),
{
    assert(ids(subscribers.push((id, interval))) =~= ids(subscribers).push(id));
}

proof fn lemma_ids_of_others(subscribers: Seq<(u64, u128)>, id: u64)
    ensures
        forall|other: u64| #[trigger]
            ids(others(subscribers, id)).contains(other) <==> ids(subscribers).contains(other)
                && other != id,
        ids(subscribers).no_duplicates() ==> ids(others(subscribers, id)).no_duplicates(),
    decreases subscribers.len(),
{
    let all = ids(subscribers);
    if subscribers.len() > 0 {
        let less = subscribers.drop_last();
        let last = subscribers.last().0;
        let kept = others(less, id);
        lemma_ids_of_others(less, id);
        lemma_ids_push(less, last, subscribers.last().1);
        lemma_ids_push(kept, last, subscribers.last().1);
        assert(less.push(subscribers.last()) =~= subscribers);
        assert forall|other: u64| #[trigger]
            ids(others(subscribers, id)).contains(other) <==> all.contains(other) && other != id by {
            assert(ids(kept).contains(other) <==> ids(less).contains(other) && other != id);
            lemma_push_contains(ids(less), last, other);
            lemma_push_contains(ids(kept), last, other);
        }
        if all.no_duplicates() {
            assert(ids(less).no_duplicates()) by {
                assert forall|i: int, j: int|
                    0 <= i < ids(less).len() && 0 <= j < ids(less).len() && i != j implies ids(
                    less,
                )[i] != ids(less)[j] by {
                    assert(all[i] == ids(less)[i] && all[j] == ids(less)[j]);
                }
            }
            if last != id {
                assert(!ids(less).contains(last)) by {
                    if ids(less).contains(last) {
                        let i = choose|i: int| 0 <= i < ids(less).len() && ids(less)[i] == last;
                        assert(all[i] == last && all[less.len() as int] == last);
                    }
                }
                assert(!ids(kept).contains(last));
                lemma_push_keeps_distinct(ids(kept), last);
            }
        }
    }
}

proof fn lemma_push_keeps_distinct(items: Seq<u64>, last: u64)
    requires
        items.no_duplicates(),
        !items.contains(last),
    ensures
        items.push(last).no_duplicates(),
{
    let all = items.push(last);
    assert forall|i: int, j: int|
        0 <= i < all.len() && 0 <= j < all.len() && i != j implies all[i] != all[j] by {
        if i < items.len() {
            assert(items.contains(items[i]));
        }
        if j < items.len() {
            assert(items.contains(items[j]));
        }
    }
}

/// Law: registering keeps hosts and subscribers bonded, and the new subscriber has its
/// first result just when all its hosts have had an answer.
pub proof fn law_registering_keeps_bonds(
    state: ActorView,
    authorities: Seq<(Seq<char>, u16)>,
    interval: u128,
    now: u128,
)
    requires
        state.bonded(),
        state.counting(),
        !state.subscribers.contains_key(state.next_subscriber),
    ensures
        state.registered(authorities, interval, now).bonded(),
        state.registered(authorities, interval, now).counting(),
{
    let id = state.next_subscriber;
    let fresh = unattempted(state.hosts, authorities);
    let base = ActorView {
        hosts: subscribed_hosts(state.hosts, authorities, id, interval),
        subscribers: state.subscribers.insert(
            id,
            SubscriberView { authorities, awaiting: true, pending: fresh.len() },
        ),
        pending: joined_all(state.pending, fresh),
        next_subscriber: next_id(id),
        ..state
    };
    let plans = advanced(state.hosts, authorities, later(now, interval));
    lemma_scheduling_keeps_bonds(base, plans);
    let goal = state.registered(authorities, interval, now);
    let told = ActorView { subscribers: goal.subscribers, ..base };
    assert forall|host: Seq<char>| #[trigger] told.hosts.contains_key(host) implies ids(
        told.hosts[host].subscribers,
    ).no_duplicates() && (forall|other: u64| #[trigger]
        ids(told.hosts[host].subscribers).contains(other) <==> told.subscribers.contains_key(other)
            && names_host(told.subscribers[other].authorities, host)) by {
        let before = record_of(state.hosts, host).subscribers;
        if state.hosts.contains_key(host) {
            assert(ids(before).contains(id) <==> state.subscribers.contains_key(id) && names_host(
                state.subscribers[id].authorities,
                host,
            ));
        } else {
            assert(ids(before) =~= Seq::<u64>::empty());
        }
        lemma_ids_of_others(before, id);
        lemma_ids_push(others(before, id), id, interval);
        if names_host(authorities, host) {
            lemma_push_keeps_distinct(ids(others(before, id)), id);
        }
        assert forall|other: u64| #[trigger]
            ids(told.hosts[host].subscribers).contains(other) <==> told.subscribers.contains_key(
            other,
        ) && names_host(told.subscribers[other].authorities, host) by {
            lemma_push_contains(ids(others(before, id)), id, other);
            if state.hosts.contains_key(host) {
                assert(ids(before).contains(other) <==> state.subscribers.contains_key(other)
                    && names_host(state.subscribers[other].authorities, host));
            } else if state.subscribers.contains_key(other) {
                assert(!names_host(state.subscribers[other].authorities, host));
            }
            assert(ids(others(before, id)).contains(other) <==> ids(before).contains(other)
                && other != id);
        }
    }
    assert forall|host: Seq<char>, other: u64|
        told.subscribers.contains_key(other) && #[trigger] names_host(
            told.subscribers[other].authorities,
            host,
        ) implies told.hosts.contains_key(host) by {
        if other != id {
            assert(names_host(state.subscribers[other].authorities, host));
        }
    }
    assert(told.bonded());
    assert forall|other: u64| #[trigger] told.subscribers.contains_key(other) implies {
        &&& told.subscribers[other].pending == unattempted(
            told.hosts,
            told.subscribers[other].authorities,
        ).len()
        &&& told.subscribers[other].awaiting == (told.subscribers[other].pending > 0)
    } by {
        let list = told.subscribers[other].authorities;
        assert forall|host: Seq<char>| #[trigger] names_host(list, host) implies record_of(
            state.hosts,
            host,
        ).attempted == record_of(told.hosts, host).attempted by {
            assert(told.hosts.contains_key(host));
        }
        lemma_unattempted_agree(state.hosts, told.hosts, list);
        if other != id {
            assert(state.subscribers.contains_key(other));
        }
    }
    lemma_bonds_transfer(told, goal);
}

/// Law: when a subscriber leaves, hosts and subscribers stay bonded; a host that nobody
/// else names is dropped, and all others stay.
pub proof fn law_unregistering_keeps_bonds(state: ActorView, id: u64, now: u128)
    requires
        state.bonded(),
        state.counting(),
    ensures
        state.unregistered(id, now).bonded(),
        state.unregistered(id, now).counting(),
        !state.unregistered(id, now).subscribers.contains_key(id),
        forall|host: Seq<char>| #[trigger]
            state.unregistered(id, now).hosts.contains_key(host) ==> state.hosts.contains_key(host),
{
    if state.subscribers.contains_key(id) {
        let authorities = state.subscribers[id].authorities;
        let base = ActorView {
            subscribers: state.subscribers.remove(id),
            dirty: parted(state.dirty, id),
            hosts: left_hosts(state.hosts, authorities, id),
            pending: parted_all(
                state.pending,
                abandoned_hosts(state.hosts, authorities, id),
            ),
            ..state
        };
        lemma_scheduling_keeps_bonds(base, replanned(state.hosts, authorities, id, now));
        assert forall|host: Seq<char>| #[trigger] base.hosts.contains_key(host) implies ids(
            base.hosts[host].subscribers,
        ).no_duplicates() && (forall|other: u64| #[trigger]
            ids(base.hosts[host].subscribers).contains(other) <==> base.subscribers.contains_key(
                other,
            ) && names_host(base.subscribers[other].authorities, host)) by {
            let before = state.hosts[host].subscribers;
            lemma_ids_of_others(before, id);
            assert(state.hosts.contains_key(host));
            assert forall|other: u64| #[trigger]
                ids(base.hosts[host].subscribers).contains(other)
                <==> base.subscribers.contains_key(other) && names_host(
                base.subscribers[other].authorities,
                host,
            ) by {
                assert(ids(before).contains(other) <==> state.subscribers.contains_key(other)
                    && names_host(state.subscribers[other].authorities, host));
                assert(ids(others(before, id)).contains(other) <==> ids(before).contains(other)
                    && other != id);
            }
        }
        assert forall|host: Seq<char>, other: u64|
            base.subscribers.contains_key(other) && #[trigger] names_host(
                base.subscribers[other].authorities,
                host,
            ) implies base.hosts.contains_key(host) by {
            assert(names_host(state.subscribers[other].authorities, host));
            let before = state.hosts[host].subscribers;
            lemma_ids_of_others(before, id);
            assert(ids(before).contains(other) <==> state.subscribers.contains_key(other)
                && names_host(state.subscribers[other].authorities, host));
            assert(ids(others(before, id)).contains(other));
        }
        assert(base.bonded());
        assert forall|other: u64| #[trigger] base.subscribers.contains_key(other) implies {
            &&& base.subscribers[other].pending == unattempted(
                base.hosts,
                base.subscribers[other].authorities,
            ).len()
            &&& base.subscribers[other].awaiting == (base.subscribers[other].pending > 0)
        } by {
            assert(state.subscribers.contains_key(other));
            let list = base.subscribers[other].authorities;
            assert forall|host: Seq<char>| #[trigger] names_host(list, host) implies record_of(
                state.hosts,
                host,
            ).attempted == record_of(base.hosts, host).attempted by {
                assert(base.hosts.contains_key(host));
            }
            lemma_unattempted_agree(state.hosts, base.hosts, list);
        }
        lemma_bonds_transfer(base, state.unregistered(id, now));
    }
}

/// What counting one answer for several distinct subscribers does.
pub proof fn lemma_counted_all(state: ActorView, list: Seq<u64>)
    requires
        list.no_duplicates(),
    ensures
        ({
            let after = state.counted_all(list);
            &&& after.subscribers.dom() == state.subscribers.dom()
            &&& after.hosts == state.hosts
            &&& forall|id: u64| #[trigger]
                state.subscribers.contains_key(id) ==> {
                    &&& after.subscribers[id].authorities == state.subscribers[id].authorities
                    &&& after.subscribers[id].awaiting == state.subscribers[id].awaiting
                    &&& after.subscribers[id].pending == if list.contains(id)
                        && state.subscribers[id].pending > 0 {
                        (state.subscribers[id].pending - 1) as nat
                    } else {
                        state.subscribers[id].pending
                    }
                }
            &&& forall|id: u64| #[trigger]
                state.complete(list).contains(id) <==> list.contains(id)
                    && state.subscribers.contains_key(id) && after.subscribers[id].pending == 0
        }),
    decreases list.len(),
{
    if list.len() > 0 {
        let less = list.drop_last();
        let last = list.last();
        assert(less.no_duplicates()) by {
            assert forall|i: int, j: int|
                0 <= i < less.len() && 0 <= j < less.len() && i != j implies less[i]
                != less[j] by {
                assert(list[i] == less[i] && list[j] == less[j]);
            }
        }
        assert(!less.contains(last)) by {
            if less.contains(last) {
                let i = choose|i: int| 0 <= i < less.len() && less[i] == last;
                assert(list[i] == last && list[list.len() - 1] == last);
            }
        }
        lemma_counted_all(state, less);
        let before = state.counted_all(less);
        let after = before.counted(last);
        assert(after.subscribers.dom() =~= state.subscribers.dom());
        assert forall|id: u64| #[trigger] state.subscribers.contains_key(id) implies {
            &&& after.subscribers[id].authorities == state.subscribers[id].authorities
            &&& after.subscribers[id].awaiting == state.subscribers[id].awaiting
            &&& after.subscribers[id].pending == if list.contains(id)
                && state.subscribers[id].pending > 0 {
                (state.subscribers[id].pending - 1) as nat
            } else {
                state.subscribers[id].pending
            }
        } by {
            lemma_push_contains(less, last, id);
            assert(less.push(last) =~= list);
        }
        assert forall|id: u64| #[trigger] state.complete(list).contains(id) <==> list.contains(id)
            && state.subscribers.contains_key(id) && after.subscribers[id].pending == 0 by {
            lemma_push_contains(less, last, id);
            assert(less.push(last) =~= list);
            lemma_push_contains(state.complete(less), last, id);
            assert(state.complete(less).contains(id) <==> less.contains(id)
                && state.subscribers.contains_key(id) && before.subscribers[id].pending == 0);
        }
    }
}

/// What telling several subscribers does.
proof fn lemma_told_all(state: ActorView, list: Seq<u64>)
    ensures
        ({
            let after = state.told_all(list);
            &&& after.subscribers.dom() == state.subscribers.dom()
            &&& after.hosts == state.hosts
            &&& forall|id: u64| #[trigger]
                state.subscribers.contains_key(id) ==> after.subscribers[id] == (SubscriberView {
                    awaiting: state.subscribers[id].awaiting && !list.contains(id),
                    ..state.subscribers[id]
                })
        }),
    decreases list.len(),
{
    if list.len() > 0 {
        let less = list.drop_last();
        lemma_told_all(state, less);
        let after = state.told_all(list);
        assert(after.subscribers.dom() =~= state.subscribers.dom());
        assert forall|id: u64| #[trigger] state.subscribers.contains_key(id) implies after
            .subscribers[id] == (SubscriberView {
            awaiting: state.subscribers[id].awaiting && !list.contains(id),
            ..state.subscribers[id]
        }) by {
            lemma_push_contains(less, list.last(), id);
            assert(less.push(list.last()) =~= list);
        }
    }
}

/// Law: the end of a lookup keeps hosts and subscribers bonded; it gives a first result to
/// just those subscribers whose last unanswered host this was.
pub proof fn law_answers_keep_bonds(
    state: ActorView,
    host: Seq<char>,
    query: u64,
    answer: AnswerView,
    now: u128,
    delay: u128,
)
    requires
        state.bonded(),
        state.counting(),
    ensures
        state.answered(host, query, answer, now, delay).bonded(),
        state.answered(host, query, answer, now, delay).counting(),
        forall|id: u64| #[trigger]
            state.introduced(host, query).contains(id) <==> state.expects(host, query)
                && state.subscribers.contains_key(id) && state.subscribers[id].awaiting && unattempted(
                state.hosts,
                state.subscribers[id].authorities,
            ) == seq![host],
{
    let goal = state.answered(host, query, answer, now, delay);
    if state.expects(host, query) {
        let settled = state.settled(host, query, answer);
        let waiting = state.waiting(host);
        let told = state.introduced(host, query);
        lemma_settling_keeps_the_rest(state, host, query, answer);
        assert(waiting.no_duplicates());
        let record = state.hosts[host];
        let dirty = if record.attempted && record.changed_by(answer) {
            joined_all(state.dirty, ids(record.subscribers))
        } else {
            state.dirty
        };
        let inflight: nat = if state.inflight == 0 {
            0
        } else {
            (state.inflight - 1) as nat
        };
        let landed = ActorView { inflight, ..state };
        let base = ActorView { dirty, ..landed.with_record(host, record.answered(answer)) };
        assert(settled == base.counted_all(waiting));
        lemma_counted_all(base, waiting);
        lemma_complete_depends_on_subscribers(base, state, waiting);
        let quiet = ActorView { dirty: parted_all(settled.dirty, told), ..settled };
        lemma_told_all(quiet, told);
        let after = quiet.told_all(told);
        assert forall|id: u64| state.subscribers.contains_key(id) implies ({
            let list = state.subscribers[id].authorities;
            &&& (#[trigger] after.subscribers[id]).authorities == list
            &&& after.subscribers[id].pending == unattempted(after.hosts, list).len()
            &&& after.subscribers[id].awaiting == (after.subscribers[id].pending > 0)
            &&& told.contains(id) <==> state.subscribers[id].awaiting && unattempted(
                state.hosts,
                list,
            ) == seq![host]
        }) by {
            let list = state.subscribers[id].authorities;
            let before = unattempted(state.hosts, list);
            assert(base.subscribers.contains_key(id));
            assert(quiet.subscribers.contains_key(id));
            assert(ids(record.subscribers).contains(id) <==> names_host(list, host));
            if record.attempted {
                assert(waiting =~= Seq::<u64>::empty());
                assert(!told.contains(id));
                assert forall|other: Seq<char>| #[trigger]
                    names_host(list, other) implies record_of(state.hosts, other).attempted
                    == record_of(after.hosts, other).attempted by {}
                lemma_unattempted_agree(state.hosts, after.hosts, list);
                if before == seq![host] {
                    crate::dns::laws::lemma_unattempted(state.hosts, list);
                    assert(before[0] == host);
                    assert(before.contains(host));
                }
            } else {
                lemma_unattempted_after_answer(state.hosts, after.hosts, host, list);
                assert(told.contains(id) <==> waiting.contains(id)
                    && settled.subscribers[id].pending == 0);
                if before == seq![host] {
                    assert(before[0] == host);
                    assert(before.contains(host));
                }
                if names_host(list, host) && before.len() == 1 {
                    assert(before.contains(host));
                    assert(before =~= seq![host]);
                }
            }
        }
        assert forall|id: u64| #[trigger] told.contains(id) <==> state.subscribers.contains_key(id)
            && state.subscribers[id].awaiting && unattempted(
            state.hosts,
            state.subscribers[id].authorities,
        ) == seq![host] by {
            if state.subscribers.contains_key(id) {
                assert(after.subscribers[id].authorities == state.subscribers[id].authorities);
            } else {
                assert(!told.contains(id));
            }
        }
        assert(after.hosts.dom() =~= state.hosts.dom());
        assert(after.bonded()) by {
            assert forall|other: Seq<char>| #[trigger] after.hosts.contains_key(other) implies ids(
                after.hosts[other].subscribers,
            ).no_duplicates() by {
                assert(state.hosts.contains_key(other));
            }
            assert forall|other: Seq<char>, id: u64|
                after.hosts.contains_key(other) implies (#[trigger] ids(
                after.hosts[other].subscribers,
            ).contains(id) <==> after.subscribers.contains_key(id) && names_host(
                after.subscribers[id].authorities,
                other,
            )) by {
                assert(ids(state.hosts[other].subscribers).contains(id)
                    <==> state.subscribers.contains_key(id) && names_host(
                    state.subscribers[id].authorities,
                    other,
                ));
                if state.subscribers.contains_key(id) {
                    assert(after.subscribers[id].authorities == state.subscribers[id].authorities);
                }
            }
            assert forall|other: Seq<char>, id: u64|
                after.subscribers.contains_key(id) && #[trigger] names_host(
                    after.subscribers[id].authorities,
                    other,
                ) implies after.hosts.contains_key(other) by {
                assert(names_host(state.subscribers[id].authorities, other));
            }
        }
        assert(after.counting()) by {
            assert forall|id: u64| #[trigger] after.subscribers.contains_key(id) implies {
                &&& after.subscribers[id].pending == unattempted(
                    after.hosts,
                    after.subscribers[id].authorities,
                ).len()
                &&& after.subscribers[id].awaiting == (after.subscribers[id].pending > 0)
            } by {
                assert(state.subscribers.contains_key(id));
                assert(after.subscribers[id].authorities == state.subscribers[id].authorities);
            }
        }
        let plan = seq![(host, later(now, delay))];
        lemma_scheduling_keeps_bonds(after, plan);
        assert(plan.drop_last() =~= Seq::<(Seq<char>, u128)>::empty());
        assert(after.scheduled_all(plan.drop_last()) == after);
        assert(after.scheduled_all(plan) == goal);
        lemma_bonds_transfer(after, goal);
    } else {
        lemma_bonds_transfer(state, goal);
    }
}

/// Law: hosts are looked up for somebody. A host is known just when a subscriber names it.
pub proof fn law_hosts_are_those_that_are_named(state: ActorView, host: Seq<char>)
    requires
        state.bonded(),
        state.all_sound(),
    ensures
        state.hosts.contains_key(host) <==> exists|id: u64|
            state.subscribers.contains_key(id) && #[trigger] names_host(
                state.subscribers[id].authorities,
                host,
            ),
{
    if state.hosts.contains_key(host) {
        assert(state.sound(host));
        let list = ids(state.hosts[host].subscribers);
        let id = list[0];
        assert(list.contains(id));
        assert(names_host(state.subscribers[id].authorities, host));
    }
}

proof fn lemma_activating_keeps_bonds(state: ActorView, hosts: Seq<Seq<char>>)
    ensures
        same_hosts(state, state.activated_all(hosts)),
        state.activated_all(hosts).subscribers == state.subscribers,
    decreases hosts.len(),
{
    if hosts.len() > 0 {
        lemma_activating_keeps_bonds(state, hosts.drop_last());
        assert(state.activated_all(hosts).hosts.dom() =~= state.hosts.dom());
    }
}

proof fn lemma_enqueuing_keeps_bonds(state: ActorView, hosts: Seq<Seq<char>>)
    ensures
        same_hosts(state, state.enqueued_all(hosts)),
        state.enqueued_all(hosts).subscribers == state.subscribers,
    decreases hosts.len(),
{
    if hosts.len() > 0 {
        lemma_enqueuing_keeps_bonds(state, hosts.drop_last());
        assert(state.enqueued_all(hosts).hosts.dom() =~= state.hosts.dom());
    }
}

proof fn lemma_dispatching_keeps_bonds(state: ActorView)
    ensures
        same_hosts(state, state.dispatched().0),
        state.dispatched().0.subscribers == state.subscribers,
    decreases state.initial_ready.len() + state.ready.len(),
{
    if state.inflight < state.max_lookups && state.has_ready() {
        let host = state.next_ready();
        let rest = state.popped();
        if rest.launchable(host) {
            let next = rest.launched(host);
            assert(next.hosts.dom() =~= state.hosts.dom());
            lemma_dispatching_keeps_bonds(next);
        } else {
            lemma_dispatching_keeps_bonds(rest);
        }
    }
}

/// Law: starting lookups and ticking keep hosts and subscribers bonded.
pub proof fn law_running_keeps_bonds(state: ActorView, now: u128)
    requires
        state.bonded(),
        state.counting(),
    ensures
        state.due_taken(now).dispatched().0.bonded(),
        state.due_taken(now).dispatched().0.counting(),
        state.awake().flushed().bonded(),
        state.awake().flushed().counting(),
{
    let due = state.due_taken(now);
    let count = crate::dns::model::due_count(state.planned, now) as int;
    let start = ActorView { planned: state.planned.skip(count), ..state };
    lemma_enqueuing_keeps_bonds(start, state.current_hosts(state.planned.take(count)));
    lemma_dispatching_keeps_bonds(due);
    lemma_bonds_transfer(state, due.dispatched().0);
    let quiet = ActorView { pending: Seq::empty(), ..state };
    lemma_activating_keeps_bonds(quiet, state.pending);
    let awake = state.awake();
    lemma_bonds_transfer(state, awake);
    let list = awake.publishable(awake.dirty);
    let clean = ActorView { dirty: Seq::empty(), ..awake };
    lemma_publishable(awake, awake.dirty);
    lemma_told_all(clean, list);
    let flushed = awake.flushed();
    assert(flushed.subscribers =~= awake.subscribers) by {
        assert forall|id: u64| #[trigger] awake.subscribers.contains_key(id) implies flushed
            .subscribers[id] == awake.subscribers[id] by {
            assert(clean.subscribers.contains_key(id));
            if list.contains(id) {
                assert(awake.subscribers[id].pending == 0);
            }
        }
    }
    lemma_bonds_transfer(awake, flushed);
}

proof fn lemma_publishable(state: ActorView, list: Seq<u64>)
    ensures
        forall|id: u64| #[trigger]
            state.publishable(list).contains(id) ==> list.contains(id)
                && state.subscribers.contains_key(id) && state.subscribers[id].pending == 0,
    decreases list.len(),
{
    if list.len() > 0 {
        let less = list.drop_last();
        lemma_publishable(state, less);
        assert forall|id: u64| #[trigger] state.publishable(list).contains(id) implies list
            .contains(id) && state.subscribers.contains_key(id)
            && state.subscribers[id].pending == 0 by {
            lemma_push_contains(state.publishable(less), list.last(), id);
            lemma_push_contains(less, list.last(), id);
            assert(less.push(list.last()) =~= list);
            if state.publishable(less).contains(id) {
                assert(less.contains(id));
            }
        }
    }
}

/// Law: a resolver that knows no host satisfies all that holds of resolvers.
pub proof fn law_a_new_resolver_is_consistent(max_lookups: nat)
    ensures
        ActorView::idle(max_lookups).bonded(),
        ActorView::idle(max_lookups).counting(),
        ActorView::idle(max_lookups).none_forgotten(),
{
}

} // verus!
