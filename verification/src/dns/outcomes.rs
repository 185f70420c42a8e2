//! What the resolver does, told from outside: who is told what, and when hosts are looked up.
use vstd::prelude::*;

#[allow(unused_imports)]
use crate::dns::actor::{Publication, ResolverActor};
#[allow(unused_imports)]
use crate::dns::bonds::lemma_counted_all;
#[allow(unused_imports)]
use crate::dns::laws::{
    in_order, lemma_counting_keeps_the_rest, lemma_due_count, lemma_joined_all, lemma_parted_all, lemma_planned_with,
    lemma_settling_keeps_the_rest, lemma_unattempted,
};
#[allow(unused_imports)]
use crate::dns::model::{
    abandoned, abandoned_hosts, advanced, due_count, endpoints_of, first_failure, gathered, left_hosts,
    lemma_abandoned_hosts, lemma_complete_depends_on_subscribers, lemma_names_host_step, lemma_telling_keeps_the_rest, names_host,
    next_id, planned_before, planned_with, record_of, replanned, subscribed_hosts, told_each, unattempted, ActorView, Planned,
};
#[allow(unused_imports)]
use crate::dns::record::{
    ids, jittered_by, law_jitter_is_bounded, law_retries_back_off, law_subscribers_are_listed_once,
    law_the_shortest_interval_counts, others, retry_after, AnswerView, InitialError, RecordView,
    SubscriberView,
};
#[allow(unused_imports)]
use crate::lists::{joined_all, lemma_parted, lemma_push_contains, parted, parted_all};
#[allow(unused_imports)]
use crate::ranked::{has_key, normal_form, strictly_ranked, Ranked};
#[allow(unused_imports)]
use crate::source::Endpoint;
#[allow(unused_imports)]
use crate::text::{digits_of, text_precedes};
#[allow(unused_imports)]
use crate::time::later;

verus! {

proof fn lemma_gathered(hosts: Map<Seq<char>, RecordView>, authorities: Seq<(Seq<char>, u16)>)
    ensures
        forall|a: int, i: int|
            0 <= a < authorities.len() && hosts.contains_key(authorities[a].0)
                && hosts[authorities[a].0].snapshot is Some && 0 <= i
                < hosts[authorities[a].0].snapshot->0.len() ==> gathered(
                hosts,
                authorities,
            ).contains(
                Endpoint::V4 {
                    ip: #[trigger] hosts[authorities[a].0].snapshot->0[i],
                    port: authorities[a].1,
                },
            ),
        forall|k: int|
            0 <= k < gathered(hosts, authorities).len() ==> (#[trigger] gathered(
                hosts,
                authorities,
            )[k]) is V4 && exists|a: int, i: int|
                {
                    &&& 0 <= a < authorities.len()
                    &&& hosts.contains_key(authorities[a].0)
                    &&& hosts[authorities[a].0].snapshot is Some
                    &&& 0 <= i < hosts[authorities[a].0].snapshot->0.len()
                    &&& gathered(hosts, authorities)[k] == (Endpoint::V4 {
                        ip: #[trigger] hosts[authorities[a].0].snapshot->0[i],
                        port: authorities[a].1,
                    })
                },
    decreases authorities.len(),
{
    if authorities.len() > 0 {
        let less = authorities.drop_last();
        let last = authorities.last();
        let rest = gathered(hosts, less);
        let more = endpoints_of(hosts, last);
        let all = gathered(hosts, authorities);
        lemma_gathered(hosts, less);
        assert forall|a: int, i: int|
            0 <= a < authorities.len() && hosts.contains_key(authorities[a].0)
                && hosts[authorities[a].0].snapshot is Some && 0 <= i
                < hosts[authorities[a].0].snapshot->0.len() implies all.contains(
            Endpoint::V4 {
                ip: #[trigger] hosts[authorities[a].0].snapshot->0[i],
                port: authorities[a].1,
            },
        ) by {
            let endpoint = Endpoint::V4 {
                ip: hosts[authorities[a].0].snapshot->0[i],
                port: authorities[a].1,
            };
            if a < less.len() {
                assert(less[a] == authorities[a]);
                assert(hosts[less[a].0].snapshot->0[i] == hosts[authorities[a].0].snapshot->0[i]);
                assert(rest.contains(endpoint));
                let k = choose|k: int| 0 <= k < rest.len() && rest[k] == endpoint;
                assert(all[k] == endpoint);
            } else {
                assert(more[i] == endpoint);
                assert(all[rest.len() + i] == endpoint);
            }
        }
        assert forall|k: int| 0 <= k < all.len() implies (#[trigger] all[k]) is V4 && exists|a: int, i: int|
            {
                &&& 0 <= a < authorities.len()
                &&& hosts.contains_key(authorities[a].0)
                &&& hosts[authorities[a].0].snapshot is Some
                &&& 0 <= i < hosts[authorities[a].0].snapshot->0.len()
                &&& all[k] == (Endpoint::V4 {
                    ip: #[trigger] hosts[authorities[a].0].snapshot->0[i],
                    port: authorities[a].1,
                })
            } by {
            if k < rest.len() {
                assert(all[k] == rest[k]);
                let (a, i) = choose|a: int, i: int|
                    {
                        &&& 0 <= a < less.len()
                        &&& hosts.contains_key(less[a].0)
                        &&& hosts[less[a].0].snapshot is Some
                        &&& 0 <= i < hosts[less[a].0].snapshot->0.len()
                        &&& rest[k] == (Endpoint::V4 {
                            ip: #[trigger] hosts[less[a].0].snapshot->0[i],
                            port: less[a].1,
                        })
                    };
                assert(less[a] == authorities[a]);
                assert(all[k] == (Endpoint::V4 {
                    ip: hosts[authorities[a].0].snapshot->0[i],
                    port: authorities[a].1,
                }));
            } else {
                let i = k - rest.len();
                let a = authorities.len() - 1;
                assert(all[k] == more[i]);
                assert(all[k] == (Endpoint::V4 {
                    ip: hosts[authorities[a].0].snapshot->0[i],
                    port: authorities[a].1,
                }));
            }
        }
    }
}

proof fn lemma_first_failure(hosts: Map<Seq<char>, RecordView>, authorities: Seq<(Seq<char>, u16)>)
    ensures
        match first_failure(hosts, authorities) {
            Some(found) => exists|a: int|
                {
                    &&& 0 <= a < authorities.len()
                    &&& found.0 == #[trigger] authorities[a]
                    &&& hosts.contains_key(authorities[a].0)
                    &&& hosts[authorities[a].0].snapshot is None
                    &&& hosts[authorities[a].0].last_error == Some(found.1)
                    &&& forall|b: int|
                        0 <= b < a ==> !(hosts.contains_key((#[trigger] authorities[b]).0)
                            && hosts[authorities[b].0].snapshot is None
                            && hosts[authorities[b].0].last_error is Some)
                },
            None => forall|b: int|
                0 <= b < authorities.len() ==> !(hosts.contains_key((#[trigger] authorities[b]).0)
                    && hosts[authorities[b].0].snapshot is None
                    && hosts[authorities[b].0].last_error is Some),
        },
    decreases authorities.len(),
{
    if authorities.len() > 0 {
        let less = authorities.drop_last();
        lemma_first_failure(hosts, less);
        assert(forall|b: int| 0 <= b < less.len() ==> #[trigger] less[b] == authorities[b]);
        if let Some(found) = first_failure(hosts, less) {
            let a = choose|a: int|
                {
                    &&& 0 <= a < less.len()
                    &&& found.0 == #[trigger] less[a]
                    &&& hosts.contains_key(less[a].0)
                    &&& hosts[less[a].0].snapshot is None
                    &&& hosts[less[a].0].last_error == Some(found.1)
                    &&& forall|b: int|
                        0 <= b < a ==> !(hosts.contains_key((#[trigger] less[b]).0)
                            && hosts[less[b].0].snapshot is None
                            && hosts[less[b].0].last_error is Some)
                };
            assert(found.0 == authorities[a]);
            assert forall|b: int| 0 <= b < a implies !(hosts.contains_key(
                (#[trigger] authorities[b]).0,
            ) && hosts[authorities[b].0].snapshot is None
                && hosts[authorities[b].0].last_error is Some) by {
                assert(less[b] == authorities[b]);
            }
        } else {
            assert forall|b: int| 0 <= b < less.len() implies !(hosts.contains_key(
                (#[trigger] authorities[b]).0,
            ) && hosts[authorities[b].0].snapshot is None
                && hosts[authorities[b].0].last_error is Some) by {
                assert(less[b] == authorities[b]);
            }
            if first_failure(hosts, authorities) is Some {
                let found = first_failure(hosts, authorities)->0;
                assert(found.0 == authorities[authorities.len() - 1]);
            }
        }
    }
}

/// Law: what a subscriber is told. Its endpoints are every address of every host that it
/// names, with the port that it names the host with, each once and in order, and no other.
pub proof fn law_publications_hold_every_address(
    state: ActorView,
    id: u64,
    publication: Publication,
)
    requires
        state.publishes(id, publication),
    ensures
        ({
            let authorities = state.subscribers[id].authorities;
            let endpoints = publication.endpoints@;
            &&& publication.id == id
            &&& forall|a: int, i: int|
                0 <= a < authorities.len() && state.hosts.contains_key(authorities[a].0)
                    && state.hosts[authorities[a].0].snapshot is Some && 0 <= i
                    < state.hosts[authorities[a].0].snapshot->0.len() ==> endpoints.contains(
                    Endpoint::V4 {
                        ip: #[trigger] state.hosts[authorities[a].0].snapshot->0[i],
                        port: authorities[a].1,
                    },
                )
            &&& forall|k: int|
                0 <= k < endpoints.len() ==> (#[trigger] endpoints[k]) is V4 && exists|a: int, i: int|
                    {
                        &&& 0 <= a < authorities.len()
                        &&& state.hosts.contains_key(authorities[a].0)
                        &&& state.hosts[authorities[a].0].snapshot is Some
                        &&& 0 <= i < state.hosts[authorities[a].0].snapshot->0.len()
                        &&& endpoints[k] == (Endpoint::V4 {
                            ip: #[trigger] state.hosts[authorities[a].0].snapshot->0[i],
                            port: authorities[a].1,
                        })
                    }
            &&& forall|k: int, l: int|
                0 <= k < l < endpoints.len() ==> (#[trigger] endpoints[k])->V4_ip < (
                #[trigger] endpoints[l])->V4_ip || (endpoints[k]->V4_ip == endpoints[l]->V4_ip
                    && endpoints[k]->V4_port < endpoints[l]->V4_port)
        }),
{
    let authorities = state.subscribers[id].authorities;
    let endpoints = publication.endpoints@;
    let all = gathered(state.hosts, authorities);
    lemma_gathered(state.hosts, authorities);
    assert forall|a: int, i: int|
        0 <= a < authorities.len() && state.hosts.contains_key(authorities[a].0)
            && state.hosts[authorities[a].0].snapshot is Some && 0 <= i
            < state.hosts[authorities[a].0].snapshot->0.len() implies endpoints.contains(
        Endpoint::V4 {
            ip: #[trigger] state.hosts[authorities[a].0].snapshot->0[i],
            port: authorities[a].1,
        },
    ) by {
        let endpoint = Endpoint::V4 {
            ip: state.hosts[authorities[a].0].snapshot->0[i],
            port: authorities[a].1,
        };
        assert(all.contains(endpoint));
        let k = choose|k: int| 0 <= k < all.len() && all[k] == endpoint;
        assert(all[k].key() == endpoint);
        assert(has_key(all, endpoint));
        assert(has_key(endpoints, endpoint));
        let l = choose|l: int| 0 <= l < endpoints.len() && (#[trigger] endpoints[l]).key()
            == endpoint;
        assert(endpoints[l] == endpoint);
    }
    assert forall|k: int| 0 <= k < endpoints.len() implies (#[trigger] endpoints[k]) is V4 && exists|a: int, i: int|
        {
            &&& 0 <= a < authorities.len()
            &&& state.hosts.contains_key(authorities[a].0)
            &&& state.hosts[authorities[a].0].snapshot is Some
            &&& 0 <= i < state.hosts[authorities[a].0].snapshot->0.len()
            &&& endpoints[k] == (Endpoint::V4 {
                ip: #[trigger] state.hosts[authorities[a].0].snapshot->0[i],
                port: authorities[a].1,
            })
        } by {
        let endpoint = endpoints[k];
        assert(endpoints[k].key() == endpoint);
        assert(has_key(endpoints, endpoint));
        assert(has_key(all, endpoint));
        let l = choose|l: int| 0 <= l < all.len() && (#[trigger] all[l]).key() == endpoint;
        assert(all[l] == endpoint);
    }
    assert forall|k: int, l: int| 0 <= k < l < endpoints.len() implies (
    #[trigger] endpoints[k])->V4_ip < (#[trigger] endpoints[l])->V4_ip || (endpoints[k]->V4_ip
        == endpoints[l]->V4_ip && endpoints[k]->V4_port < endpoints[l]->V4_port) by {
        assert(<Endpoint as Ranked>::precedes(endpoints[k].key(), endpoints[l].key()));
        assert(endpoints[k] is V4 && endpoints[l] is V4);
    }
}

/// Law: a subscriber's first result is a success just when there are endpoints. Without any it
/// names the first of its authorities whose host failed and never had an answer, with that
/// failure; and says just that there are none when no host failed. Later results say nothing
/// of success.
pub proof fn law_first_results_name_the_first_failure(
    state: ActorView,
    id: u64,
    publication: Publication,
)
    requires
        state.publishes(id, publication),
    ensures
        ({
            let authorities = state.subscribers[id].authorities;
            let hosts = state.hosts;
            &&& publication.initial is Some <==> state.subscribers[id].awaiting
            &&& publication.initial matches Some(first) ==> match first {
                Ok(_) => publication.endpoints@.len() > 0,
                Err(InitialError::NoEndpoints) => {
                    &&& publication.endpoints@.len() == 0
                    &&& forall|b: int|
                        0 <= b < authorities.len() ==> !(hosts.contains_key(
                            (#[trigger] authorities[b]).0,
                        ) && hosts[authorities[b].0].snapshot is None
                            && hosts[authorities[b].0].last_error is Some)
                },
                Err(InitialError::Resolve { name, failure }) => {
                    &&& publication.endpoints@.len() == 0
                    &&& exists|a: int|
                        {
                            &&& 0 <= a < authorities.len()
                            &&& name@ == (#[trigger] authorities[a]).0 + ":"@ + digits_of(
                                authorities[a].1 as nat,
                            )
                            &&& hosts.contains_key(authorities[a].0)
                            &&& hosts[authorities[a].0].snapshot is None
                            &&& hosts[authorities[a].0].last_error == Some(failure@)
                            &&& forall|b: int|
                                0 <= b < a ==> !(hosts.contains_key((#[trigger] authorities[b]).0)
                                    && hosts[authorities[b].0].snapshot is None
                                    && hosts[authorities[b].0].last_error is Some)
                        }
                },
            }
        }),
{
    lemma_first_failure(state.hosts, state.subscribers[id].authorities);
}

/// Law: several subscribers are told one after the other, each the whole of what it follows.
pub proof fn law_everyone_is_told_everything(
    state: ActorView,
    ids: Seq<u64>,
    publications: Seq<Publication>,
)
    requires
        told_each(state, ids, publications),
        forall|i: int| 0 <= i < ids.len() ==> state.subscribers.contains_key(#[trigger] ids[i]),
    ensures
        publications.len() == ids.len(),
        forall|n: int|
            0 <= n < ids.len() ==> (#[trigger] publications[n]).id == ids[n],
        forall|n: int, a: int, i: int|
            ({
                let authorities = state.subscribers[ids[n]].authorities;
                0 <= n < ids.len() && 0 <= a < authorities.len() && state.hosts.contains_key(
                    authorities[a].0,
                ) && state.hosts[authorities[a].0].snapshot is Some && 0 <= i
                    < state.hosts[authorities[a].0].snapshot->0.len()
                    ==> publications[n].endpoints@.contains(
                    Endpoint::V4 {
                        ip: #[trigger] state.hosts[state.subscribers[ids[n]].authorities[a].0].snapshot->0[i],
                        port: authorities[a].1,
                    },
                )
            }),
{
    assert forall|n: int| 0 <= n < ids.len() implies (#[trigger] publications[n]).id == ids[n] by {
        assert(state.told_all(ids.take(n)).publishes(ids[n], publications[n]));
    }
    assert forall|n: int, a: int, i: int|
        ({
            let authorities = state.subscribers[ids[n]].authorities;
            0 <= n < ids.len() && 0 <= a < authorities.len() && state.hosts.contains_key(
                authorities[a].0,
            ) && state.hosts[authorities[a].0].snapshot is Some && 0 <= i
                < state.hosts[authorities[a].0].snapshot->0.len()
                ==> publications[n].endpoints@.contains(
                Endpoint::V4 {
                    ip: #[trigger] state.hosts[state.subscribers[ids[n]].authorities[a].0].snapshot->0[i],
                    port: authorities[a].1,
                },
            )
        }) by {
        if 0 <= n < ids.len() {
            let then = state.told_all(ids.take(n));
            lemma_telling_keeps_the_rest(state, ids.take(n));
            assert(then.publishes(ids[n], publications[n]));
            law_publications_hold_every_address(then, ids[n], publications[n]);
            assert(state.subscribers.contains_key(ids[n]));
            assert(then.subscribers[ids[n]].authorities
                == state.subscribers[ids[n]].authorities);
            assert(then.hosts == state.hosts);
            let authorities = then.subscribers[ids[n]].authorities;
            assert(then.hosts[authorities[a].0].snapshot->0[i]
                == state.hosts[state.subscribers[ids[n]].authorities[a].0].snapshot->0[i]);
        }
    }
}

/// Law: a host is looked up again when its most demanding subscriber asks for it: after an
/// answer with addresses the next lookup is due one shortest interval from now, stretched by
/// at most a tenth; after a failure it is due sooner, but not at once. The lookup is planned
/// for just that time.
pub proof fn law_hosts_are_refreshed_in_time(
    state: ActorView,
    host: Seq<char>,
    query: u64,
    answer: AnswerView,
    now: u128,
    hash: u64,
    shortest: u128,
)
    requires
        state.expects(host, query),
        state.hosts[host].subscribers.len() > 0,
        forall|i: int|
            0 <= i < state.hosts[host].subscribers.len() ==> shortest <= (
            #[trigger] state.hosts[host].subscribers[i]).1,
        exists|j: int|
            0 <= j < state.hosts[host].subscribers.len() && shortest == (
            #[trigger] state.hosts[host].subscribers[j]).1,
        now + shortest + shortest / 10 <= u128::MAX,
    ensures
        ({
            let delay = jittered_by(state.hosts[host].delay_after(answer), hash);
            let after = state.answered(host, query, answer, now, delay).hosts[host];
            let planned = state.answered(host, query, answer, now, delay).planned;
            let wait = match answer {
                AnswerView::Addresses(_) => shortest,
                AnswerView::Failure(_) => retry_after(after.failures, shortest),
            };
            &&& after.next_due matches Some(due) && now + wait <= due <= now + wait + wait / 10
                && planned.contains((due, after.version, host))
            &&& wait <= shortest
        }),
{
    let record = state.hosts[host];
    let delay = jittered_by(record.delay_after(answer), hash);
    let settled = state.settled(host, query, answer);
    law_the_shortest_interval_counts(record);
    let j = choose|j: int|
        0 <= j < record.subscribers.len() && shortest == (#[trigger] record.subscribers[j]).1;
    assert(record.interval() <= record.subscribers[j].1);
    let k = choose|k: int|
        0 <= k < record.subscribers.len() && record.interval() == (
        #[trigger] record.subscribers[k]).1;
    assert(shortest <= record.subscribers[k].1);
    assert(record.interval() == shortest);
    law_jitter_is_bounded(record.delay_after(answer), hash);
    law_retries_back_off(record.next_failures(), shortest);
    lemma_settling_keeps_the_rest(state, host, query, answer);
    let told = state.introduced(host, query);
    let quiet = ActorView { dirty: parted_all(settled.dirty, told), ..settled };
    lemma_telling_keeps_the_rest(quiet, told);
    let base = quiet.told_all(told);
    let due = later(now, delay);
    lemma_planned_with(base.planned, (due, base.hosts[host].scheduled(due).version, host));
    let wait = record.delay_after(answer);
    assert(wait / 10 <= shortest / 10) by (nonlinear_arith)
        requires
            wait <= shortest,
    ;
}

/// Law: an answer is for the lookup that was asked. One that nobody waits for changes nothing
/// but the count of running lookups. One that is expected updates its host alone; when the
/// host had an answer before and the addresses are now others, every subscriber of the host is
/// to be told, and when they are the same nobody is.
pub proof fn law_answers_concern_their_host_alone(
    state: ActorView,
    host: Seq<char>,
    query: u64,
    answer: AnswerView,
    now: u128,
    delay: u128,
)
    ensures
        ({
            let after = state.answered(host, query, answer, now, delay);
            let record = state.hosts[host];
            let expected = state.hosts.contains_key(host) && record.inflight == Some(query);
            &&& after.inflight == if state.inflight > 0 {
                state.inflight - 1
            } else {
                0
            }
            &&& after.ready == state.ready
            &&& after.initial_ready == state.initial_ready
            &&& after.pending == state.pending
            &&& after.max_lookups == state.max_lookups
            &&& after.next_query == state.next_query
            &&& after.next_subscriber == state.next_subscriber
            &&& after.hosts.dom() == state.hosts.dom()
            &&& forall|other: Seq<char>|
                state.hosts.contains_key(other) && (other != host || !expected)
                    ==> #[trigger] after.hosts[other] == state.hosts[other]
            &&& !expected ==> after.subscribers == state.subscribers && after.dirty == state.dirty
                && after.planned == state.planned
            &&& expected ==> {
                &&& after.hosts[host].attempted
                &&& after.hosts[host].inflight is None
                &&& after.hosts[host].subscribers == record.subscribers
                &&& answer matches AnswerView::Addresses(addresses) ==> {
                    &&& after.hosts[host].snapshot == Some(addresses)
                    &&& after.hosts[host].failures == 0
                    &&& after.hosts[host].last_error is None
                }
                &&& answer matches AnswerView::Failure(failure) ==> {
                    &&& after.hosts[host].snapshot == record.snapshot
                    &&& after.hosts[host].last_error == Some(failure)
                }
            }
            &&& expected && record.attempted ==> {
                &&& answer is Addresses && record.snapshot != Some(answer->Addresses_0) ==> (forall|
                    id: u64,
                | #[trigger]
                    after.dirty.contains(id) <==> state.dirty.contains(id) || exists|i: int|
                        0 <= i < record.subscribers.len() && (
                        #[trigger] record.subscribers[i]).0 == id)
                &&& answer is Failure || record.snapshot == Some(answer->Addresses_0)
                    ==> after.dirty == state.dirty
            }
        }),
{
    let record = state.hosts[host];
    let settled = state.settled(host, query, answer);
    if state.expects(host, query) {
        let dirty = if record.attempted && record.changed_by(answer) {
            joined_all(state.dirty, ids(record.subscribers))
        } else {
            state.dirty
        };
        let inflight: nat = if state.inflight == 0 {
            0
        } else {
            (state.inflight - 1) as nat
        };
        let landed = ActorView { inflight, ..state };
        let base = ActorView { dirty, ..landed.with_record(host, record.answered(answer)) };
        lemma_counting_keeps_the_rest(base, state.waiting(host));
        let told = state.introduced(host, query);
        let quiet = ActorView { dirty: parted_all(settled.dirty, told), ..settled };
        lemma_telling_keeps_the_rest(quiet, told);
        let after = state.answered(host, query, answer, now, delay);
        assert(after.hosts.dom() =~= state.hosts.dom());
        if record.attempted {
            assert(state.waiting(host) =~= Seq::<u64>::empty());
            assert(told =~= Seq::<u64>::empty());
            assert(after.dirty == dirty);
            let list = ids(record.subscribers);
            lemma_joined_all(state.dirty, list);
            if record.changed_by(answer) {
                assert forall|id: u64| #[trigger] after.dirty.contains(id)
                    <==> state.dirty.contains(id) || exists|i: int|
                    0 <= i < record.subscribers.len() && (#[trigger] record.subscribers[i]).0
                        == id by {
                    assert(after.dirty.contains(id) <==> state.dirty.contains(id)
                        || list.contains(id));
                    if list.contains(id) {
                        let i = choose|i: int| 0 <= i < list.len() && list[i] == id;
                        assert(record.subscribers[i].0 == id);
                    }
                    if exists|i: int|
                        0 <= i < record.subscribers.len() && (#[trigger] record.subscribers[i]).0
                            == id {
                        let i = choose|i: int|
                            0 <= i < record.subscribers.len() && (
                            #[trigger] record.subscribers[i]).0 == id;
                        assert(list[i] == id);
                    }
                }
            }
        }
    }
}

/// Whether a host is among those of the plans.
spec fn listed(plans: Seq<(Seq<char>, u128)>, host: Seq<char>) -> bool {
    exists|i: int| 0 <= i < plans.len() && (#[trigger] plans[i]).0 == host
}

proof fn lemma_listed_push(plans: Seq<(Seq<char>, u128)>, last: (Seq<char>, u128), host: Seq<char>)
    ensures
        listed(plans.push(last), host) <==> listed(plans, host) || host == last.0,
{
    let all = plans.push(last);
    if listed(plans, host) {
        let i = choose|i: int| 0 <= i < plans.len() && (#[trigger] plans[i]).0 == host;
        assert(all[i].0 == host);
    }
    if listed(all, host) && host != last.0 {
        let i = choose|i: int| 0 <= i < all.len() && (#[trigger] all[i]).0 == host;
        assert(plans[i].0 == host);
    }
    assert(all[plans.len() as int].0 == last.0);
}

/// What planning several refreshes does, when a host has one time at most.
proof fn lemma_scheduled_many(
    state: ActorView,
    plans: Seq<(Seq<char>, u128)>,
    due_of: spec_fn(Seq<char>) -> u128,
)
    requires
        forall|i: int| 0 <= i < plans.len() ==> (#[trigger] plans[i]).1 == due_of(plans[i].0),
    ensures
        ({
            let after = state.scheduled_all(plans);
            &&& after == (ActorView { hosts: after.hosts, planned: after.planned, ..state })
            &&& after.hosts.dom() == state.hosts.dom()
            &&& forall|host: Seq<char>|
                state.hosts.contains_key(host) ==> if listed(plans, host)
                    && state.hosts[host].subscribers.len() > 0 {
                    &&& (#[trigger] after.hosts[host]) == (RecordView {
                        next_due: Some(due_of(host)),
                        version: after.hosts[host].version,
                        ..state.hosts[host]
                    })
                    &&& after.planned.contains((due_of(host), after.hosts[host].version, host))
                } else {
                    after.hosts[host] == state.hosts[host]
                }
            &&& forall|plan: (u128, u64, Seq<char>)|
                state.planned.contains(plan) ==> #[trigger] after.planned.contains(plan)
        }),
    decreases plans.len(),
{
    if plans.len() > 0 {
        let less = plans.drop_last();
        let last = plans.last();
        let before = state.scheduled_all(less);
        let after = state.scheduled_all(plans);
        assert forall|i: int| 0 <= i < less.len() implies (#[trigger] less[i]).1 == due_of(
            less[i].0,
        ) by {
            assert(less[i] == plans[i]);
        }
        lemma_scheduled_many(state, less, due_of);
        assert(plans[plans.len() - 1].1 == due_of(last.0));
        assert(after.hosts.dom() =~= state.hosts.dom());
        assert(less.push(last) =~= plans);
        if before.hosts.contains_key(last.0) {
            lemma_planned_with(
                before.planned,
                (last.1, before.hosts[last.0].scheduled(last.1).version, last.0),
            );
        }
        assert forall|host: Seq<char>| state.hosts.contains_key(host) implies if listed(plans, host)
            && state.hosts[host].subscribers.len() > 0 {
            &&& (#[trigger] after.hosts[host]) == (RecordView {
                next_due: Some(due_of(host)),
                version: after.hosts[host].version,
                ..state.hosts[host]
            })
            &&& after.planned.contains((due_of(host), after.hosts[host].version, host))
        } else {
            after.hosts[host] == state.hosts[host]
        } by {
            lemma_listed_push(less, last, host);
            assert(before.hosts.contains_key(host));
            if host == last.0 && !listed(less, host) {
                assert(before.hosts[host] == state.hosts[host]);
            }
            if host != last.0 {
                assert(after.hosts[host] == before.hosts[host]);
            }
        }
    } else {
        assert forall|host: Seq<char>| !listed(plans, host) by {}
    }
}

proof fn lemma_advanced(
    hosts: Map<Seq<char>, RecordView>,
    authorities: Seq<(Seq<char>, u16)>,
    due: u128,
)
    ensures
        forall|i: int|
            0 <= i < advanced(hosts, authorities, due).len() ==> (#[trigger] advanced(
                hosts,
                authorities,
                due,
            )[i]).1 == due,
        forall|host: Seq<char>| #[trigger]
            listed(advanced(hosts, authorities, due), host) <==> names_host(authorities, host)
                && record_of(hosts, host).attempted && record_of(hosts, host).inflight is None
                && record_of(hosts, host).sooner(due),
    decreases authorities.len(),
{
    if authorities.len() > 0 {
        let at = authorities.len() - 1;
        let less = authorities.drop_last();
        let rest = advanced(hosts, less, due);
        let all = advanced(hosts, authorities, due);
        lemma_advanced(hosts, less, due);
        lemma_names_host_step(authorities, at);
        assert(authorities.take(at + 1) =~= authorities);
        assert(authorities.take(at) =~= less);
        assert forall|i: int| 0 <= i < all.len() implies (#[trigger] all[i]).1 == due by {
            if i < rest.len() {
                assert(all[i] == rest[i]);
            }
        }
        assert forall|host: Seq<char>| #[trigger] listed(all, host) <==> names_host(
            authorities,
            host,
        ) && record_of(hosts, host).attempted && record_of(hosts, host).inflight is None
            && record_of(hosts, host).sooner(due) by {
            assert(listed(rest, host) <==> names_host(less, host) && record_of(
                hosts,
                host,
            ).attempted && record_of(hosts, host).inflight is None && record_of(
                hosts,
                host,
            ).sooner(due));
            lemma_listed_push(rest, (authorities.last().0, due), host);
            assert(names_host(authorities, host) <==> names_host(less, host) || host
                == authorities.last().0);
        }
    }
}

proof fn lemma_replanned(
    hosts: Map<Seq<char>, RecordView>,
    authorities: Seq<(Seq<char>, u16)>,
    id: u64,
    now: u128,
)
    ensures
        forall|i: int|
            0 <= i < replanned(hosts, authorities, id, now).len() ==> (#[trigger] replanned(
                hosts,
                authorities,
                id,
                now,
            )[i]).1 == later(
                now,
                hosts[replanned(hosts, authorities, id, now)[i].0].unsubscribed(id).interval(),
            ),
        forall|host: Seq<char>| #[trigger]
            listed(replanned(hosts, authorities, id, now), host) <==> names_host(authorities, host)
                && hosts.contains_key(host) && !abandoned(hosts, host, id) && hosts[host].sooner(
                later(now, hosts[host].unsubscribed(id).interval()),
            ),
    decreases authorities.len(),
{
    if authorities.len() > 0 {
        let at = authorities.len() - 1;
        let less = authorities.drop_last();
        let rest = replanned(hosts, less, id, now);
        let all = replanned(hosts, authorities, id, now);
        lemma_replanned(hosts, less, id, now);
        lemma_names_host_step(authorities, at);
        assert(authorities.take(at + 1) =~= authorities);
        assert(authorities.take(at) =~= less);
        let last = authorities.last().0;
        let due = later(now, hosts[last].unsubscribed(id).interval());
        assert forall|i: int| 0 <= i < all.len() implies (#[trigger] all[i]).1 == later(
            now,
            hosts[all[i].0].unsubscribed(id).interval(),
        ) by {
            if i < rest.len() {
                assert(all[i] == rest[i]);
            }
        }
        assert forall|host: Seq<char>| #[trigger] listed(all, host) <==> names_host(
            authorities,
            host,
        ) && hosts.contains_key(host) && !abandoned(hosts, host, id) && hosts[host].sooner(
            later(now, hosts[host].unsubscribed(id).interval()),
        ) by {
            assert(listed(rest, host) <==> names_host(less, host) && hosts.contains_key(host)
                && !abandoned(hosts, host, id) && hosts[host].sooner(
                later(now, hosts[host].unsubscribed(id).interval()),
            ));
            lemma_listed_push(rest, (last, due), host);
            assert(names_host(authorities, host) <==> names_host(less, host) || host == last);
        }
    }
}

/// Law: registering adds one subscriber and touches no other; identifiers are handed out one
/// after the other and zero is left out. A host that the subscriber does not name stays as it
/// is. The subscriber waits for its first result just when one of its hosts has had no answer.
pub proof fn law_registering_adds_one_subscriber(
    state: ActorView,
    authorities: Seq<(Seq<char>, u16)>,
    interval: u128,
    now: u128,
)
    ensures
        ({
            let after = state.registered(authorities, interval, now);
            let id = state.next_subscriber;
            &&& after.subscribers.contains_key(id)
            &&& after.subscribers[id].authorities == authorities
            &&& after.subscribers[id].awaiting <==> exists|a: int|
                0 <= a < authorities.len() && !(state.hosts.contains_key(
                    (#[trigger] authorities[a]).0,
                ) && state.hosts[authorities[a].0].attempted)
            &&& forall|other: u64|
                other != id ==> (#[trigger] after.subscribers.contains_key(other)
                    <==> state.subscribers.contains_key(other))
            &&& forall|other: u64|
                other != id && state.subscribers.contains_key(other)
                    ==> #[trigger] after.subscribers[other] == state.subscribers[other]
            &&& after.next_subscriber > 0
            &&& id < u64::MAX ==> after.next_subscriber == id + 1
            &&& forall|host: Seq<char>|
                (forall|a: int| 0 <= a < authorities.len() ==> (#[trigger] authorities[a]).0 != host)
                    ==> (#[trigger] after.hosts.contains_key(host) <==> state.hosts.contains_key(
                    host,
                )) && (state.hosts.contains_key(host) ==> after.hosts[host] == state.hosts[host])
            &&& after.ready == state.ready
            &&& after.initial_ready == state.initial_ready
            &&& after.dirty == state.dirty
            &&& after.inflight == state.inflight
            &&& after.max_lookups == state.max_lookups
            &&& after.next_query == state.next_query
        }),
{
    let id = state.next_subscriber;
    let fresh = unattempted(state.hosts, authorities);
    let due = later(now, interval);
    let base = ActorView {
        hosts: subscribed_hosts(state.hosts, authorities, id, interval),
        subscribers: state.subscribers.insert(
            id,
            SubscriberView { authorities, awaiting: true, pending: fresh.len() },
        ),
        pending: joined_all(state.pending, fresh),
        next_subscriber: next_id(id),
        ..state
    };
    let plans = advanced(state.hosts, authorities, due);
    let after = state.registered(authorities, interval, now);
    lemma_advanced(state.hosts, authorities, due);
    lemma_scheduled_many(base, plans, |host: Seq<char>| due);
    lemma_unattempted(state.hosts, authorities);
    assert forall|host: Seq<char>|
        (forall|a: int| 0 <= a < authorities.len() ==> (#[trigger] authorities[a]).0
            != host) implies (#[trigger] after.hosts.contains_key(host)
        <==> state.hosts.contains_key(host)) && (state.hosts.contains_key(host)
        ==> after.hosts[host] == state.hosts[host]) by {
        assert(!names_host(authorities, host));
        assert(!listed(plans, host));
        assert(base.hosts.contains_key(host) <==> state.hosts.contains_key(host));
    }
    if fresh.len() > 0 {
        let host = fresh[0];
        assert(fresh.contains(host));
        let a = choose|a: int| 0 <= a < authorities.len() && (#[trigger] authorities[a]).0 == host;
        assert(!(state.hosts.contains_key(authorities[a].0)
            && state.hosts[authorities[a].0].attempted));
    }
    if exists|a: int|
        0 <= a < authorities.len() && !(state.hosts.contains_key((#[trigger] authorities[a]).0)
            && state.hosts[authorities[a].0].attempted) {
        let a = choose|a: int|
            0 <= a < authorities.len() && !(state.hosts.contains_key(
                (#[trigger] authorities[a]).0,
            ) && state.hosts[authorities[a].0].attempted);
        assert(names_host(authorities, authorities[a].0));
        assert(fresh.contains(authorities[a].0));
    }
}

/// Law: registering makes every named host followed: the subscriber is listed there with its
/// interval, besides those that were. What is known of the host stays. A host without any
/// answer waits for the next tick; one that has had an answer and is not being looked up is
/// refreshed within the subscriber's interval, sooner if that was planned.
pub proof fn law_registering_follows_every_host(
    state: ActorView,
    authorities: Seq<(Seq<char>, u16)>,
    interval: u128,
    now: u128,
    a: int,
    entry: (u64, u128),
)
    requires
        0 <= a < authorities.len(),
        now + interval <= u128::MAX,
    ensures
        ({
            let after = state.registered(authorities, interval, now);
            let host = authorities[a].0;
            let known = state.hosts.contains_key(host);
            let before = state.hosts[host];
            let record = after.hosts[host];
            let due = (now + interval) as u128;
            let sooner = known && before.attempted && before.inflight is None && (
            before.next_due is None || due < before.next_due->0);
            &&& after.hosts.contains_key(host)
            &&& record.subscribers.contains(entry) <==> entry == (state.next_subscriber, interval)
                || (known && before.subscribers.contains(entry) && entry.0
                != state.next_subscriber)
            &&& known ==> {
                &&& record.snapshot == before.snapshot
                &&& record.attempted == before.attempted
                &&& record.last_error == before.last_error
                &&& record.failures == before.failures
                &&& record.queued == before.queued
                &&& record.inflight == before.inflight
            }
            &&& !known ==> {
                &&& record.snapshot is None
                &&& !record.attempted
                &&& !record.queued
                &&& record.inflight is None
                &&& record.failures == 0
            }
            &&& !known || !before.attempted ==> after.pending.contains(host)
            &&& sooner ==> record.next_due == Some(due) && after.planned.contains(
                (due, record.version, host),
            )
            &&& known && !sooner ==> record.next_due == before.next_due && record.version
                == before.version
        }),
{
    let id = state.next_subscriber;
    let fresh = unattempted(state.hosts, authorities);
    let due = later(now, interval);
    let host = authorities[a].0;
    let base = ActorView {
        hosts: subscribed_hosts(state.hosts, authorities, id, interval),
        subscribers: state.subscribers.insert(
            id,
            SubscriberView { authorities, awaiting: true, pending: fresh.len() },
        ),
        pending: joined_all(state.pending, fresh),
        next_subscriber: next_id(id),
        ..state
    };
    let plans = advanced(state.hosts, authorities, due);
    lemma_advanced(state.hosts, authorities, due);
    lemma_scheduled_many(base, plans, |host: Seq<char>| due);
    lemma_unattempted(state.hosts, authorities);
    lemma_joined_all(state.pending, fresh);
    assert(names_host(authorities, host));
    assert(base.hosts.contains_key(host));
    let old_record = record_of(state.hosts, host);
    law_subscribers_are_listed_once(old_record, id, interval);
    assert(base.hosts[host] == old_record.subscribed(id, interval));
    assert(old_record.subscribed(id, interval).subscribers.contains(entry) <==> entry == (
        id,
        interval,
    ) || (old_record.subscribers.contains(entry) && entry.0 != id));
    assert(base.scheduled_all(plans).hosts[host].subscribers == base.hosts[host].subscribers);
    assert(fresh.contains(host) <==> !old_record.attempted);
    assert(listed(plans, host) <==> old_record.attempted && old_record.inflight is None
        && old_record.sooner(due));
}

proof fn lemma_none_left(subscribers: Seq<(u64, u128)>, id: u64)
    ensures
        others(subscribers, id).len() == 0 <==> (forall|i: int|
            0 <= i < subscribers.len() ==> (#[trigger] subscribers[i]).0 == id),
    decreases subscribers.len(),
{
    if subscribers.len() > 0 {
        let less = subscribers.drop_last();
        lemma_none_left(less, id);
        if others(subscribers, id).len() == 0 {
            assert forall|i: int| 0 <= i < subscribers.len() implies (#[trigger] subscribers[i]).0
                == id by {
                if i < less.len() {
                    assert(less[i].0 == id);
                }
            }
        } else if forall|i: int| 0 <= i < subscribers.len() ==> (#[trigger] subscribers[i]).0
            == id {
            assert forall|i: int| 0 <= i < less.len() implies (#[trigger] less[i]).0 == id by {
                assert(subscribers[i].0 == id);
            }
            assert(subscribers[subscribers.len() - 1].0 == id);
        }
    }
}

/// Law: when a subscriber leaves, no other is touched, and a host that it does not name stays
/// as it is. It is no longer among those to be told, who are otherwise the same.
pub proof fn law_leaving_touches_no_other_subscriber(state: ActorView, id: u64, now: u128)
    requires
        state.subscribers.contains_key(id),
    ensures
        ({
            let after = state.unregistered(id, now);
            let authorities = state.subscribers[id].authorities;
            &&& after.subscribers == state.subscribers.remove(id)
            &&& forall|other: u64| #[trigger]
                after.dirty.contains(other) <==> state.dirty.contains(other) && other != id
            &&& forall|host: Seq<char>|
                (forall|a: int| 0 <= a < authorities.len() ==> (#[trigger] authorities[a]).0 != host)
                    ==> (#[trigger] after.hosts.contains_key(host) <==> state.hosts.contains_key(
                    host,
                )) && (state.hosts.contains_key(host) ==> after.hosts[host] == state.hosts[host])
            &&& forall|host: Seq<char>| #[trigger]
                after.pending.contains(host) ==> state.pending.contains(host)
            &&& forall|host: Seq<char>|
                after.hosts.contains_key(host) && state.pending.contains(host)
                    ==> #[trigger] after.pending.contains(host)
            &&& after.ready == state.ready
            &&& after.initial_ready == state.initial_ready
            &&& after.inflight == state.inflight
            &&& after.max_lookups == state.max_lookups
            &&& after.next_query == state.next_query
            &&& after.next_subscriber == state.next_subscriber
        }),
{
    let authorities = state.subscribers[id].authorities;
    let gone = abandoned_hosts(state.hosts, authorities, id);
    let base = ActorView {
        subscribers: state.subscribers.remove(id),
        dirty: parted(state.dirty, id),
        hosts: left_hosts(state.hosts, authorities, id),
        pending: parted_all(state.pending, gone),
        ..state
    };
    let plans = replanned(state.hosts, authorities, id, now);
    let after = state.unregistered(id, now);
    lemma_replanned(state.hosts, authorities, id, now);
    lemma_scheduled_many(
        base,
        plans,
        |host: Seq<char>| later(now, state.hosts[host].unsubscribed(id).interval()),
    );
    lemma_parted(state.dirty, id);
    lemma_parted_all(state.pending, gone);
    lemma_abandoned_hosts(state.hosts, authorities, id);
    assert forall|host: Seq<char>|
        (forall|a: int| 0 <= a < authorities.len() ==> (#[trigger] authorities[a]).0
            != host) implies (#[trigger] after.hosts.contains_key(host)
        <==> state.hosts.contains_key(host)) && (state.hosts.contains_key(host)
        ==> after.hosts[host] == state.hosts[host]) by {
        assert(!names_host(authorities, host));
        assert(!listed(plans, host));
        assert(base.hosts.contains_key(host) <==> state.hosts.contains_key(host));
    }
    assert forall|host: Seq<char>|
        after.hosts.contains_key(host) && state.pending.contains(
            host,
        ) implies #[trigger] after.pending.contains(host) by {
        assert(base.hosts.contains_key(host));
        assert(!gone.contains(host));
    }
}

/// Law: when a subscriber leaves, a host that it names is dropped just when nobody else
/// follows it. One that is kept loses that subscriber alone, and is refreshed as those who are
/// left ask: no later than was planned, no later than any of them wants it, and at one of
/// those times.
pub proof fn law_hosts_are_kept_for_those_who_are_left(
    state: ActorView,
    id: u64,
    now: u128,
    a: int,
    entry: (u64, u128),
)
    requires
        state.subscribers.contains_key(id),
        0 <= a < state.subscribers[id].authorities.len(),
        state.hosts.contains_key(state.subscribers[id].authorities[a].0),
    ensures
        ({
            let after = state.unregistered(id, now);
            let host = state.subscribers[id].authorities[a].0;
            let before = state.hosts[host];
            let record = after.hosts[host];
            &&& after.hosts.contains_key(host) <==> exists|i: int|
                0 <= i < before.subscribers.len() && (#[trigger] before.subscribers[i]).0 != id
            &&& after.hosts.contains_key(host) ==> {
                &&& record.subscribers.contains(entry) <==> before.subscribers.contains(entry)
                    && entry.0 != id
                &&& record.snapshot == before.snapshot
                &&& record.attempted == before.attempted
                &&& record.last_error == before.last_error
                &&& record.failures == before.failures
                &&& record.queued == before.queued
                &&& record.inflight == before.inflight
                &&& record.next_due is Some
                &&& before.next_due is Some ==> record.next_due->0 <= before.next_due->0
                &&& before.subscribers.contains(entry) && entry.0 != id ==> record.next_due->0
                    <= now + entry.1
                &&& record.next_due == before.next_due || exists|i: int|
                    0 <= i < before.subscribers.len() && (#[trigger] before.subscribers[i]).0 != id
                        && record.next_due->0 == later(now, before.subscribers[i].1)
            }
        }),
{
    let authorities = state.subscribers[id].authorities;
    let host = authorities[a].0;
    let before = state.hosts[host];
    let left = before.unsubscribed(id);
    let base = ActorView {
        subscribers: state.subscribers.remove(id),
        dirty: parted(state.dirty, id),
        hosts: left_hosts(state.hosts, authorities, id),
        pending: parted_all(state.pending, abandoned_hosts(state.hosts, authorities, id)),
        ..state
    };
    let plans = replanned(state.hosts, authorities, id, now);
    lemma_replanned(state.hosts, authorities, id, now);
    lemma_scheduled_many(
        base,
        plans,
        |host: Seq<char>| later(now, state.hosts[host].unsubscribed(id).interval()),
    );
    assert(names_host(authorities, host));
    lemma_none_left(before.subscribers, id);
    law_subscribers_are_listed_once(before, id, 0);
    law_the_shortest_interval_counts(left);
    assert(left.subscribers.contains(entry) <==> before.subscribers.contains(entry) && entry.0
        != id);
    assert(listed(plans, host) <==> !abandoned(state.hosts, host, id) && before.sooner(
        later(now, left.interval()),
    ));
    assert(base.hosts.contains_key(host) <==> !abandoned(state.hosts, host, id));
    if base.hosts.contains_key(host) {
        assert(base.hosts[host] == left);
        if left.subscribers.contains(entry) {
            let i = choose|i: int| 0 <= i < left.subscribers.len() && left.subscribers[i] == entry;
            assert(left.interval() <= left.subscribers[i].1);
        }
        let j = choose|j: int|
            0 <= j < left.subscribers.len() && left.interval() == (
            #[trigger] left.subscribers[j]).1;
        assert(left.subscribers.contains(left.subscribers[j]));
        let i = choose|i: int|
            0 <= i < before.subscribers.len() && before.subscribers[i] == left.subscribers[j];
        assert(before.subscribers[i].0 != id);
    }
}

proof fn lemma_activated_in_order(state: ActorView, hosts: Seq<Seq<char>>)
    requires
        hosts.no_duplicates(),
        forall|i: int|
            0 <= i < hosts.len() ==> state.hosts.contains_key(#[trigger] hosts[i])
                && state.hosts[hosts[i]].idle(),
    ensures
        ({
            let after = state.activated_all(hosts);
            &&& after == (ActorView {
                hosts: after.hosts,
                initial_ready: state.initial_ready + hosts,
                ..state
            })
            &&& after.hosts.dom() == state.hosts.dom()
            &&& forall|host: Seq<char>|
                state.hosts.contains_key(host) ==> #[trigger] after.hosts[host] == if hosts.contains(
                    host,
                ) {
                    state.hosts[host].enqueued()
                } else {
                    state.hosts[host]
                }
        }),
    decreases hosts.len(),
{
    if hosts.len() > 0 {
        let less = hosts.drop_last();
        let last = hosts.last();
        assert(less.no_duplicates()) by {
            assert forall|i: int, j: int|
                0 <= i < less.len() && 0 <= j < less.len() && i != j implies less[i]
                != less[j] by {
                assert(less[i] == hosts[i] && less[j] == hosts[j]);
            }
        }
        assert forall|i: int| 0 <= i < less.len() implies state.hosts.contains_key(
            #[trigger] less[i],
        ) && state.hosts[less[i]].idle() by {
            assert(less[i] == hosts[i]);
        }
        lemma_activated_in_order(state, less);
        let before = state.activated_all(less);
        let after = state.activated_all(hosts);
        assert(!less.contains(last)) by {
            if less.contains(last) {
                let i = choose|i: int| 0 <= i < less.len() && less[i] == last;
                assert(hosts[i] == hosts[hosts.len() - 1]);
            }
        }
        assert(state.hosts.contains_key(hosts[hosts.len() - 1]));
        assert(before.hosts[last] == state.hosts[last]);
        assert(after.initial_ready =~= state.initial_ready + hosts);
        assert(after.hosts.dom() =~= state.hosts.dom());
        assert(less.push(last) =~= hosts);
        assert forall|host: Seq<char>|
            state.hosts.contains_key(host) implies #[trigger] after.hosts[host]
            == if hosts.contains(host) {
            state.hosts[host].enqueued()
        } else {
            state.hosts[host]
        } by {
            lemma_push_contains(less, last, host);
            if host != last {
                assert(after.hosts[host] == before.hosts[host]);
            }
        }
    } else {
        assert(state.initial_ready + hosts =~= state.initial_ready);
    }
}

/// Law: a tick puts the hosts that were named since the last one in the queue of first
/// lookups, in the order in which they were named, behind those that stand there, and does
/// nothing else.
pub proof fn law_new_hosts_queue_in_order(state: ActorView)
    requires
        state.pending.no_duplicates(),
        forall|i: int|
            0 <= i < state.pending.len() ==> {
                let host = #[trigger] state.pending[i];
                &&& state.hosts.contains_key(host)
                &&& !state.hosts[host].queued
                &&& state.hosts[host].inflight is None
                &&& state.hosts[host].subscribers.len() > 0
            },
    ensures
        ({
            let after = state.awake();
            &&& after.initial_ready == state.initial_ready + state.pending
            &&& after.pending.len() == 0
            &&& after.ready == state.ready
            &&& after.planned == state.planned
            &&& after.dirty == state.dirty
            &&& after.subscribers == state.subscribers
            &&& after.inflight == state.inflight
            &&& after.max_lookups == state.max_lookups
            &&& after.hosts.dom() == state.hosts.dom()
            &&& forall|i: int|
                0 <= i < state.pending.len() ==> (
                #[trigger] after.hosts[state.pending[i]]).queued
            &&& forall|host: Seq<char>|
                state.hosts.contains_key(host) && !state.pending.contains(host)
                    ==> #[trigger] after.hosts[host] == state.hosts[host]
        }),
{
    lemma_activated_in_order(ActorView { pending: Seq::empty(), ..state }, state.pending);
    assert forall|i: int| 0 <= i < state.pending.len() implies (
    #[trigger] state.awake().hosts[state.pending[i]]).queued by {
        assert(state.pending.contains(state.pending[i]));
        assert(state.hosts.contains_key(state.pending[i]));
    }
}

proof fn lemma_enqueued_many(state: ActorView, hosts: Seq<Seq<char>>)
    ensures
        ({
            let after = state.enqueued_all(hosts);
            &&& after == (ActorView { hosts: after.hosts, ready: after.ready, ..state })
            &&& after.hosts.dom() == state.hosts.dom()
            &&& forall|host: Seq<char>|
                state.hosts.contains_key(host) ==> if hosts.contains(host)
                    && state.hosts[host].idle() {
                    (#[trigger] after.hosts[host]) == state.hosts[host].enqueued()
                        && after.ready.contains(host)
                } else {
                    after.hosts[host] == state.hosts[host]
                }
            &&& forall|host: Seq<char>| #[trigger]
                after.ready.contains(host) <==> state.ready.contains(host) || (hosts.contains(host)
                    && state.hosts.contains_key(host) && state.hosts[host].idle())
        }),
    decreases hosts.len(),
{
    if hosts.len() > 0 {
        let less = hosts.drop_last();
        let last = hosts.last();
        let before = state.enqueued_all(less);
        let after = state.enqueued_all(hosts);
        lemma_enqueued_many(state, less);
        assert(less.push(last) =~= hosts);
        assert(after.hosts.dom() =~= state.hosts.dom());
        assert forall|host: Seq<char>| state.hosts.contains_key(host) implies if hosts.contains(
            host,
        ) && state.hosts[host].idle() {
            (#[trigger] after.hosts[host]) == state.hosts[host].enqueued() && after.ready.contains(
                host,
            )
        } else {
            after.hosts[host] == state.hosts[host]
        } by {
            lemma_push_contains(less, last, host);
            lemma_push_contains(before.ready, last, host);
            if less.contains(host) && state.hosts[host].idle() {
                assert(before.hosts[host] == state.hosts[host].enqueued());
            } else {
                assert(before.hosts[host] == state.hosts[host]);
            }
        }
        assert forall|host: Seq<char>| #[trigger] after.ready.contains(host)
            <==> state.ready.contains(host) || (hosts.contains(host)
            && state.hosts.contains_key(host) && state.hosts[host].idle()) by {
            lemma_push_contains(less, last, host);
            lemma_push_contains(before.ready, last, host);
            assert(before.ready.contains(host) <==> state.ready.contains(host) || (less.contains(
                host,
            ) && state.hosts.contains_key(host) && state.hosts[host].idle()));
            if state.hosts.contains_key(host) {
                if less.contains(host) && state.hosts[host].idle() {
                    assert(before.hosts[host] == state.hosts[host].enqueued());
                } else {
                    assert(before.hosts[host] == state.hosts[host]);
                }
            }
        }
    }
}

proof fn lemma_current_hosts_exactly(state: ActorView, plans: Seq<Planned>, host: Seq<char>)
    ensures
        state.current_hosts(plans).contains(host) <==> exists|i: int|
            0 <= i < plans.len() && (#[trigger] plans[i]).2 == host && state.current(plans[i]),
    decreases plans.len(),
{
    if plans.len() > 0 {
        let less = plans.drop_last();
        let last = plans.last();
        let rest = state.current_hosts(less);
        lemma_current_hosts_exactly(state, less, host);
        lemma_push_contains(rest, last.2, host);
        if rest.contains(host) {
            let i = choose|i: int|
                0 <= i < less.len() && (#[trigger] less[i]).2 == host && state.current(less[i]);
            assert(plans[i].2 == host && state.current(plans[i]));
        }
        if exists|i: int|
            0 <= i < plans.len() && (#[trigger] plans[i]).2 == host && state.current(plans[i]) {
            let i = choose|i: int|
                0 <= i < plans.len() && (#[trigger] plans[i]).2 == host && state.current(
                    plans[i],
                );
            if i < less.len() {
                assert(less[i].2 == host && state.current(less[i]));
            }
        }
        if host == last.2 && state.current(last) {
            assert(plans[plans.len() - 1].2 == host);
        }
    }
}

/// Law: a host is looked up when its time has come and not before. A plan leaves the schedule
/// just when its time has come. A host whose next lookup lies in the future is left as it is;
/// one whose planned lookup is due is queued, unless it waits or is being looked up already;
/// and no other host joins the queue.
pub proof fn law_lookups_start_when_they_are_due(state: ActorView, now: u128, host: Seq<char>)
    requires
        in_order(state.planned),
    ensures
        ({
            let after = state.due_taken(now);
            let record = state.hosts[host];
            let due = state.hosts.contains_key(host) && record.next_due is Some
                && record.next_due->0 <= now && state.planned.contains(
                (record.next_due->0, record.version, host),
            ) && !record.queued && record.inflight is None && record.subscribers.len() > 0;
            &&& forall|plan: (u128, u64, Seq<char>)| #[trigger]
                after.planned.contains(plan) <==> state.planned.contains(plan) && plan.0 > now
            &&& due ==> {
                &&& after.hosts[host].queued
                &&& after.hosts[host].next_due is None
                &&& after.hosts[host].subscribers == record.subscribers
                &&& after.hosts[host].snapshot == record.snapshot
            }
            &&& !due && state.hosts.contains_key(host) ==> after.hosts[host] == record
            &&& after.ready.contains(host) <==> state.ready.contains(host) || due
            &&& after.hosts.dom() == state.hosts.dom()
            &&& after.initial_ready == state.initial_ready
            &&& after.pending == state.pending
            &&& after.subscribers == state.subscribers
            &&& after.dirty == state.dirty
            &&& after.inflight == state.inflight
            &&& after.max_lookups == state.max_lookups
        }),
{
    let planned = state.planned;
    let count = due_count(planned, now) as int;
    lemma_due_count(planned, now);
    let first = planned.take(count);
    let hosts = state.current_hosts(first);
    let start = ActorView { planned: planned.skip(count), ..state };
    let after = state.due_taken(now);
    lemma_enqueued_many(start, hosts);
    lemma_current_hosts_exactly(state, first, host);
    assert forall|i: int| count <= i < planned.len() implies (#[trigger] planned[i]).0 > now by {
        assert(planned[count].0 <= planned[i].0);
    }
    assert forall|plan: (u128, u64, Seq<char>)| #[trigger] after.planned.contains(plan)
        <==> planned.contains(plan) && plan.0 > now by {
        if after.planned.contains(plan) {
            let i = choose|i: int| 0 <= i < after.planned.len() && after.planned[i] == plan;
            assert(planned[i + count] == plan);
        }
        if planned.contains(plan) && plan.0 > now {
            let i = choose|i: int| 0 <= i < planned.len() && planned[i] == plan;
            if i < count {
                assert(planned[i].0 <= now);
            }
            assert(after.planned[i - count] == plan);
        }
    }
    if state.hosts.contains_key(host) {
        let record = state.hosts[host];
        if record.next_due is Some {
            let plan = (record.next_due->0, record.version, host);
            if planned.contains(plan) && plan.0 <= now {
                let i = choose|i: int| 0 <= i < planned.len() && planned[i] == plan;
                assert(i < count);
                assert(first[i] == plan && state.current(first[i]));
            }
        }
        if hosts.contains(host) {
            let i = choose|i: int|
                0 <= i < first.len() && (#[trigger] first[i]).2 == host && state.current(
                    first[i],
                );
            assert(planned[i] == first[i]);
            assert(planned.contains(first[i]));
            assert(first[i] == (record.next_due->0, record.version, host));
        }
        assert(start.hosts.contains_key(host));
    }
}

/// Law: lookups start first come first served, new hosts before refreshes, as many as may run.
/// Each gets the next query number; a host whose lookup starts no longer waits, and all others
/// keep their place.
pub proof fn law_queued_hosts_are_served_in_turn(state: ActorView)
    requires
        (state.initial_ready + state.ready).no_duplicates(),
        forall|i: int|
            0 <= i < (state.initial_ready + state.ready).len() ==> {
                let host = #[trigger] (state.initial_ready + state.ready)[i];
                &&& state.hosts.contains_key(host)
                &&& state.hosts[host].queued
                &&& state.hosts[host].inflight is None
                &&& state.hosts[host].subscribers.len() > 0
            },
    ensures
        ({
            let queue = state.initial_ready + state.ready;
            let (after, lookups) = state.dispatched();
            let free = if state.inflight < state.max_lookups {
                state.max_lookups - state.inflight
            } else {
                0
            };
            let started = if queue.len() < free {
                queue.len() as int
            } else {
                free
            };
            &&& lookups.len() == started
            &&& forall|i: int|
                0 <= i < started ==> (#[trigger] lookups[i]).0 == queue[i] && after.hosts[queue[i]]
                    == (RecordView {
                    queued: false,
                    inflight: Some(lookups[i].1),
                    ..state.hosts[queue[i]]
                })
            &&& started > 0 ==> lookups[0].1 == state.next_query
            &&& started == 0 ==> after.next_query == state.next_query
            &&& after.initial_ready + after.ready == queue.skip(started)
            &&& after.inflight == state.inflight + started
            &&& after.hosts.dom() == state.hosts.dom()
            &&& forall|host: Seq<char>|
                state.hosts.contains_key(host) && !queue.take(started).contains(host)
                    ==> #[trigger] after.hosts[host] == state.hosts[host]
            &&& after.planned == state.planned
            &&& after.pending == state.pending
            &&& after.dirty == state.dirty
            &&& after.subscribers == state.subscribers
            &&& after.max_lookups == state.max_lookups
        }),
    decreases state.initial_ready.len() + state.ready.len(),
{
    let queue = state.initial_ready + state.ready;
    let (after, lookups) = state.dispatched();
    if state.inflight < state.max_lookups && queue.len() > 0 {
        let host = state.next_ready();
        let rest = state.popped();
        let next = rest.launched(host);
        let shorter = rest.initial_ready + rest.ready;
        assert(host == queue[0]);
        assert(shorter =~= queue.drop_first());
        assert(rest.launchable(host));
        assert forall|i: int, j: int|
            0 <= i < shorter.len() && 0 <= j < shorter.len() && i != j implies shorter[i]
            != shorter[j] by {
            assert(shorter[i] == queue[i + 1] && shorter[j] == queue[j + 1]);
        }
        assert forall|i: int| 0 <= i < (next.initial_ready + next.ready).len() implies {
            let host = #[trigger] (next.initial_ready + next.ready)[i];
            &&& next.hosts.contains_key(host)
            &&& next.hosts[host].queued
            &&& next.hosts[host].inflight is None
            &&& next.hosts[host].subscribers.len() > 0
        } by {
            assert(shorter[i] == queue[i + 1]);
            assert(queue[i + 1] != queue[0]);
        }
        law_queued_hosts_are_served_in_turn(next);
        let (last, more) = next.dispatched();
        assert(lookups =~= seq![(host, state.next_query)] + more);
        assert(last.hosts.dom() =~= state.hosts.dom());
        let started = lookups.len() as int;
        assert(shorter.take(started - 1) =~= queue.take(started).drop_first());
        assert(shorter.skip(started - 1) =~= queue.skip(started));
        let head = shorter.take(started - 1);
        assert(!head.contains(host)) by {
            if head.contains(host) {
                let i = choose|i: int| 0 <= i < head.len() && head[i] == host;
                assert(queue[i + 1] == queue[0]);
            }
        }
        assert forall|i: int| 0 <= i < started implies (#[trigger] lookups[i]).0 == queue[i]
            && after.hosts[queue[i]] == (RecordView {
            queued: false,
            inflight: Some(lookups[i].1),
            ..state.hosts[queue[i]]
        }) by {
            if i > 0 {
                assert(lookups[i] == more[i - 1]);
                assert(shorter[i - 1] == queue[i]);
                assert(queue[i] != queue[0]);
            } else {
                assert(last.hosts[host] == next.hosts[host]);
            }
        }
        assert forall|other: Seq<char>|
            state.hosts.contains_key(other) && !queue.take(started).contains(
                other,
            ) implies #[trigger] after.hosts[other] == state.hosts[other] by {
            assert(queue.take(started)[0] == host);
            assert(other != host);
            if head.contains(other) {
                let i = choose|i: int| 0 <= i < head.len() && head[i] == other;
                assert(queue.take(started)[i + 1] == other);
            }
            assert(next.hosts.contains_key(other));
            assert(last.hosts[other] == next.hosts[other]);
        }
    } else {
        assert(queue.skip(0) =~= queue);
    }
}

/// Law: query numbers follow one another, and zero is left out.
pub proof fn law_query_numbers_follow_one_another(state: ActorView, host: Seq<char>)
    ensures
        state.next_query < u64::MAX ==> state.launched(host).next_query == state.next_query + 1,
        state.next_query == u64::MAX ==> state.launched(host).next_query == 1,
        state.launched(host).inflight == state.inflight + 1,
{
}

/// Law: of the subscribers whose addresses changed, all that wait for no first answer are told
/// at the next tick, in the order in which they were marked, and afterwards nobody is marked.
pub proof fn law_changes_are_published_at_the_next_tick(state: ActorView)
    ensures
        forall|id: u64| #[trigger]
            state.publishable(state.dirty).contains(id) <==> state.dirty.contains(id)
                && state.subscribers.contains_key(id) && state.subscribers[id].pending == 0,
        (forall|i: int|
            0 <= i < state.dirty.len() ==> state.subscribers.contains_key(#[trigger] state.dirty[i])
                && state.subscribers[state.dirty[i]].pending == 0) ==> state.publishable(
            state.dirty,
        ) == state.dirty,
        state.flushed().dirty.len() == 0,
        state.flushed().hosts == state.hosts,
        state.flushed().planned == state.planned,
        state.flushed().ready == state.ready,
        state.flushed().initial_ready == state.initial_ready,
        state.flushed().pending == state.pending,
        state.flushed().inflight == state.inflight,
        state.flushed().subscribers.dom() == state.subscribers.dom(),
        forall|id: u64|
            state.subscribers.contains_key(id) ==> (
            #[trigger] state.flushed().subscribers[id]).authorities
                == state.subscribers[id].authorities,
{
    lemma_publishable_exactly(state, state.dirty);
    lemma_telling_keeps_the_rest(
        ActorView { dirty: Seq::empty(), ..state },
        state.publishable(state.dirty),
    );
}

proof fn lemma_publishable_exactly(state: ActorView, list: Seq<u64>)
    ensures
        forall|id: u64| #[trigger]
            state.publishable(list).contains(id) <==> list.contains(id)
                && state.subscribers.contains_key(id) && state.subscribers[id].pending == 0,
        (forall|i: int|
            0 <= i < list.len() ==> state.subscribers.contains_key(#[trigger] list[i])
                && state.subscribers[list[i]].pending == 0) ==> state.publishable(list) == list,
    decreases list.len(),
{
    if list.len() > 0 {
        let less = list.drop_last();
        let rest = state.publishable(less);
        lemma_publishable_exactly(state, less);
        assert(less.push(list.last()) =~= list);
        assert forall|id: u64| #[trigger] state.publishable(list).contains(id) <==> list.contains(
            id,
        ) && state.subscribers.contains_key(id) && state.subscribers[id].pending == 0 by {
            assert(rest.contains(id) <==> less.contains(id) && state.subscribers.contains_key(id)
                && state.subscribers[id].pending == 0);
            lemma_push_contains(rest, list.last(), id);
            lemma_push_contains(less, list.last(), id);
        }
        if forall|i: int|
            0 <= i < list.len() ==> state.subscribers.contains_key(#[trigger] list[i])
                && state.subscribers[list[i]].pending == 0 {
            assert forall|i: int| 0 <= i < less.len() implies state.subscribers.contains_key(
                #[trigger] less[i],
            ) && state.subscribers[less[i]].pending == 0 by {
                assert(less[i] == list[i]);
            }
            assert(state.subscribers.contains_key(list[list.len() - 1]));
        }
    }
}

/// Law: who gets a first result, and when: an answer that is the first of its host counts once
/// for each subscriber of the host, and introduces just those who then wait for no other host.
pub proof fn law_first_answers_count_once(
    state: ActorView,
    host: Seq<char>,
    query: u64,
    answer: AnswerView,
    id: u64,
)
    requires
        state.hosts.contains_key(host),
        state.hosts[host].inflight == Some(query),
        ids(state.hosts[host].subscribers).no_duplicates(),
        state.subscribers.contains_key(id),
    ensures
        ({
            let settled = state.settled(host, query, answer);
            let first = !state.hosts[host].attempted;
            let follows = exists|i: int|
                0 <= i < state.hosts[host].subscribers.len() && (
                #[trigger] state.hosts[host].subscribers[i]).0 == id;
            &&& settled.subscribers.contains_key(id)
            &&& settled.subscribers[id].authorities == state.subscribers[id].authorities
            &&& settled.subscribers[id].awaiting == state.subscribers[id].awaiting
            &&& first && follows && state.subscribers[id].pending > 0
                ==> settled.subscribers[id].pending == state.subscribers[id].pending - 1
            &&& !first || !follows ==> settled.subscribers[id].pending
                == state.subscribers[id].pending
            &&& state.introduced(host, query).contains(id) <==> first && follows
                && state.subscribers[id].pending <= 1
        }),
{
    let record = state.hosts[host];
    let list = ids(record.subscribers);
    let dirty = if record.attempted && record.changed_by(answer) {
        joined_all(state.dirty, list)
    } else {
        state.dirty
    };
    let inflight: nat = if state.inflight == 0 {
        0
    } else {
        (state.inflight - 1) as nat
    };
    let landed = ActorView { inflight, ..state };
    let base = ActorView { dirty, ..landed.with_record(host, record.answered(answer)) };
    let waiting = state.waiting(host);
    lemma_counted_all(base, waiting);
    lemma_complete_depends_on_subscribers(base, state, waiting);
    assert(base.subscribers.contains_key(id));
    assert(list.contains(id) <==> exists|i: int|
        0 <= i < record.subscribers.len() && (#[trigger] record.subscribers[i]).0 == id) by {
        if list.contains(id) {
            let i = choose|i: int| 0 <= i < list.len() && list[i] == id;
            assert(record.subscribers[i].0 == id);
        }
        if exists|i: int|
            0 <= i < record.subscribers.len() && (#[trigger] record.subscribers[i]).0 == id {
            let i = choose|i: int|
                0 <= i < record.subscribers.len() && (#[trigger] record.subscribers[i]).0 == id;
            assert(list[i] == id);
        }
    }
}

/// Law: a new resolver knows nobody and nothing, and its numbers start with one.
pub proof fn law_new_resolvers_know_nothing(max_lookups: nat)
    ensures
        ({
            let state = ActorView::idle(max_lookups);
            &&& state.max_lookups == max_lookups
            &&& state.hosts == Map::<Seq<char>, RecordView>::empty()
            &&& state.subscribers == Map::<u64, SubscriberView>::empty()
            &&& state.planned.len() == 0
            &&& state.initial_ready.len() == 0
            &&& state.ready.len() == 0
            &&& state.pending.len() == 0
            &&& state.dirty.len() == 0
            &&& state.inflight == 0
            &&& state.next_subscriber == 1
            &&& state.next_query == 1
        }),
{
}

/// Law: planned lookups stand earliest first; of those for one time the one that was planned
/// under a lower number comes first, and then the alphabet decides.
pub proof fn law_plans_are_ordered_by_time(a: Planned, b: Planned)
    ensures
        a.0 < b.0 ==> planned_before(a, b) && !planned_before(b, a),
        a.0 == b.0 && a.1 < b.1 ==> planned_before(a, b) && !planned_before(b, a),
        a.0 == b.0 && a.1 == b.1 ==> planned_before(a, b) == text_precedes(a.2, b.2),
{
}

/// Law: a new plan is put where it belongs: the plans that are there keep their order, none of
/// those before it comes later than it, and all behind it do.
pub proof fn law_plans_are_put_in_their_place(planned: Seq<Planned>, entry: Planned) -> (at: int)
    ensures
        0 <= at <= planned.len(),
        planned_with(planned, entry) == planned.take(at).push(entry) + planned.skip(at),
        at > 0 ==> !planned_before(entry, planned[at - 1]),
        forall|i: int| at <= i < planned.len() ==> planned_before(entry, #[trigger] planned[i]),
    decreases planned.len(),
{
    let all = planned_with(planned, entry);
    if planned.len() == 0 || !planned_before(entry, planned.last()) {
        let at = planned.len() as int;
        assert(all =~= planned.take(at).push(entry) + planned.skip(at));
        at
    } else {
        let less = planned.drop_last();
        let at = law_plans_are_put_in_their_place(less, entry);
        assert(less.take(at) =~= planned.take(at));
        assert((less.take(at).push(entry) + less.skip(at)).push(planned.last())
            =~= planned.take(at).push(entry) + planned.skip(at));
        assert forall|i: int| at <= i < planned.len() implies planned_before(
            entry,
            #[trigger] planned[i],
        ) by {
            if i < less.len() {
                assert(less[i] == planned[i]);
            }
        }
        at
    }
}

/// Law: telling one subscriber where its hosts are tells it of every address of each host that
/// it names, and of no other; a subscriber that is gone is told nothing.
pub proof fn law_subscribers_are_told_every_address(
    before: ResolverActor,
    after: ResolverActor,
    id: u64,
    told: Option<Publication>,
)
    requires
        exists|actor: &mut ResolverActor|
            *actor == before && *final(actor) == after && #[trigger] call_ensures(
                ResolverActor::publish_subscriber,
                (actor, id),
                told,
            ),
    ensures
        told is Some <==> before@.subscribers.contains_key(id),
        told matches Some(publication) ==> {
            let authorities = before@.subscribers[id].authorities;
            let hosts = before@.hosts;
            &&& publication.id == id
            &&& forall|a: int, i: int|
                0 <= a < authorities.len() && hosts.contains_key(authorities[a].0)
                    && hosts[authorities[a].0].snapshot is Some && 0 <= i
                    < hosts[authorities[a].0].snapshot->0.len()
                    ==> publication.endpoints@.contains(
                    Endpoint::V4 {
                        ip: #[trigger] hosts[authorities[a].0].snapshot->0[i],
                        port: authorities[a].1,
                    },
                )
            &&& forall|k: int|
                0 <= k < publication.endpoints@.len() ==> (
                #[trigger] publication.endpoints@[k]) is V4 && exists|a: int, i: int|
                    {
                        &&& 0 <= a < authorities.len()
                        &&& hosts.contains_key(authorities[a].0)
                        &&& hosts[authorities[a].0].snapshot is Some
                        &&& 0 <= i < hosts[authorities[a].0].snapshot->0.len()
                        &&& publication.endpoints@[k] == (Endpoint::V4 {
                            ip: #[trigger] hosts[authorities[a].0].snapshot->0[i],
                            port: authorities[a].1,
                        })
                    }
        },
{
    if let Some(publication) = told {
        law_publications_hold_every_address(before@, id, publication);
    }
}

} // verus!
