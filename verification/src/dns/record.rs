//! What the resolver knows of one host and of one subscriber.
use crate::dns::addresses::Ipv4Snapshot;
use crate::dns::authority::Authority;
use crate::error::{LookupFailure, NetError};
use crate::outside::hash_text;
use crate::time::{Duration, Instant};
use std::collections::hash_map::DefaultHasher;
use std::hash::Hasher;
use vstd::prelude::*;

#[allow(unused_imports)]
use crate::lists::lemma_push_contains;
#[allow(unused_imports)]
use crate::time::later;
#[allow(unused_imports)]
use vstd::std_specs::hash::DefaultHasherAdditionalSpecFns;

verus! {

/// Delay before the next lookup of a host that nobody gave an interval for.
pub const FALLBACK_REFRESH_SECS: u64 = 30;

/// A failed lookup as contracts see it.
pub struct FailureView {
    pub kind: std::io::ErrorKind,
    pub message: Seq<char>,
}

impl View for LookupFailure {
    type V = FailureView;

    open spec fn view(&self) -> FailureView {
        FailureView { kind: self.kind, message: self.message@ }
    }
}

/// A host record as contracts see it.
pub struct RecordView {
    /// Addresses of the last lookup that succeeded.
    pub snapshot: Option<Seq<u32>>,
    /// Whether any lookup has finished.
    pub attempted: bool,
    /// Why the last lookup failed, if it did.
    pub last_error: Option<FailureView>,
    /// Subscribers and their refresh intervals.
    pub subscribers: Seq<(u64, u128)>,
    /// Number of the latest change of schedule.
    pub version: u64,
    /// When the next refresh is due, if one is scheduled.
    pub next_due: Option<u128>,
    /// Whether the host waits for a lookup.
    pub queued: bool,
    /// The lookup that is running.
    pub inflight: Option<u64>,
    /// Lookups that failed since the last success.
    pub failures: u32,
}

/// The entries of other subscribers than `id`.
pub open spec fn others(subscribers: Seq<(u64, u128)>, id: u64) -> Seq<(u64, u128)>
    decreases subscribers.len(),
{
    if subscribers.len() == 0 {
        Seq::empty()
    } else if subscribers.last().0 == id {
        others(subscribers.drop_last(), id)
    } else {
        others(subscribers.drop_last(), id).push(subscribers.last())
    }
}

/// Taking a subscriber out twice is taking it out once.
pub proof fn lemma_others_settle(subscribers: Seq<(u64, u128)>, id: u64)
    ensures
        others(others(subscribers, id), id) == others(subscribers, id),
    decreases subscribers.len(),
{
    if subscribers.len() > 0 {
        let rest = others(subscribers.drop_last(), id);
        lemma_others_settle(subscribers.drop_last(), id);
        if subscribers.last().0 != id {
            assert(rest.push(subscribers.last()).drop_last() =~= rest);
        }
    }
}

/// Joining twice is joining once.
pub proof fn lemma_subscribed_settles(record: RecordView, id: u64, interval: u128)
    ensures
        record.subscribed(id, interval).subscribed(id, interval) == record.subscribed(id, interval),
{
    let rest = others(record.subscribers, id);
    lemma_others_settle(record.subscribers, id);
    assert(rest.push((id, interval)).drop_last() =~= rest);
}

/// The shortest refresh interval that a subscriber asks for.
pub open spec fn shortest(subscribers: Seq<(u64, u128)>) -> Option<u128>
    decreases subscribers.len(),
{
    if subscribers.len() == 0 {
        None
    } else {
        match shortest(subscribers.drop_last()) {
            Some(interval) if interval <= subscribers.last().1 => Some(interval),
            _ => Some(subscribers.last().1),
        }
    }
}

/// The identifiers of the subscribers.
pub open spec fn ids(subscribers: Seq<(u64, u128)>) -> Seq<u64> {
    subscribers.map_values(|entry: (u64, u128)| entry.0)
}

/// The number after `n`, starting over after the largest.
pub open spec fn bumped(n: u64) -> u64 {
    if n == u64::MAX {
        0
    } else {
        (n + 1) as u64
    }
}

/// What one lookup came to.
pub enum AnswerView {
    Addresses(Seq<u32>),
    Failure(FailureView),
}

impl RecordView {
    /// A host that was just named for the first time.
    pub open spec fn fresh() -> Self {
        RecordView {
            snapshot: None,
            attempted: false,
            last_error: None,
            subscribers: Seq::empty(),
            version: 0,
            next_due: None,
            queued: false,
            inflight: None,
            failures: 0,
        }
    }

    /// The record with one more subscriber.
    pub open spec fn subscribed(self, id: u64, interval: u128) -> Self {
        RecordView { subscribers: others(self.subscribers, id).push((id, interval)), ..self }
    }

    /// The record without a subscriber.
    pub open spec fn unsubscribed(self, id: u64) -> Self {
        RecordView { subscribers: others(self.subscribers, id), ..self }
    }

    /// Whether the host can be put in a queue: somebody wants it, and it neither waits for
    /// a lookup nor has one running.
    pub open spec fn idle(self) -> bool {
        !self.queued && self.inflight is None && self.subscribers.len() > 0
    }

    /// The record of a host that waits for a lookup.
    pub open spec fn enqueued(self) -> Self {
        RecordView { queued: true, next_due: None, version: bumped(self.version), ..self }
    }

    /// The record with the next refresh scheduled.
    pub open spec fn scheduled(self, due: u128) -> Self {
        RecordView { next_due: Some(due), version: bumped(self.version), ..self }
    }

    /// Whether a lookup of the host may start now.
    pub open spec fn launchable(self) -> bool {
        self.queued && self.inflight is None && self.subscribers.len() > 0
    }

    /// The record with a lookup running.
    pub open spec fn launched(self, query: u64) -> Self {
        RecordView { queued: false, inflight: Some(query), ..self }
    }

    /// Whether a refresh at `proposed` is earlier than what is scheduled.
    pub open spec fn sooner(self, proposed: u128) -> bool {
        self.next_due matches Some(due) ==> proposed < due
    }

    /// Failures after one more.
    pub open spec fn next_failures(self) -> u32 {
        if self.failures == u32::MAX {
            u32::MAX
        } else {
            (self.failures + 1) as u32
        }
    }

    /// The record after its lookup ends. A failure keeps the last good addresses.
    pub open spec fn answered(self, answer: AnswerView) -> Self {
        match answer {
            AnswerView::Addresses(addresses) => RecordView {
                snapshot: Some(addresses),
                attempted: true,
                last_error: None,
                inflight: None,
                failures: 0,
                ..self
            },
            AnswerView::Failure(failure) => RecordView {
                attempted: true,
                last_error: Some(failure),
                inflight: None,
                failures: self.next_failures(),
                ..self
            },
        }
    }

    /// Whether an answer brings other addresses than the host has.
    pub open spec fn changed_by(self, answer: AnswerView) -> bool {
        answer matches AnswerView::Addresses(addresses) && self.snapshot != Some(addresses)
    }

    /// The refresh interval: the shortest one asked for.
    pub open spec fn interval(self) -> u128 {
        match shortest(self.subscribers) {
            Some(interval) => interval,
            None => 30_000_000_000,
        }
    }

    /// Time from an answer to the next lookup, before jitter.
    pub open spec fn delay_after(self, answer: AnswerView) -> u128 {
        match answer {
            AnswerView::Addresses(_) => self.interval(),
            AnswerView::Failure(_) => retry_after(self.next_failures(), self.interval()),
        }
    }
}

/// Two to the power of `n`, for small `n`.
pub open spec fn doublings(n: nat) -> nat
    decreases n,
{
    if n == 0 {
        1
    } else {
        2 * doublings((n - 1) as nat)
    }
}

/// Time to the next attempt after `failures` failures in a row: one second, doubled with
/// each further failure up to 64, and never longer than the refresh interval.
pub open spec fn retry_after(failures: u32, interval: u128) -> u128 {
    let steps: nat = if failures <= 1 {
        0
    } else if failures >= 7 {
        6
    } else {
        (failures - 1) as nat
    };
    let backoff = (doublings(steps) * 1_000_000_000) as u128;
    if interval < backoff {
        interval
    } else {
        backoff
    }
}

/// `delay` stretched by up to a tenth, chosen by `hash`.
pub open spec fn jittered_by(delay: u128, hash: u64) -> u128 {
    let window = delay / 10;
    if window == 0 {
        delay
    } else {
        let span: u64 = if window > u64::MAX {
            u64::MAX
        } else {
            window as u64
        };
        later(delay, (hash % span) as u128)
    }
}

/// Time to the next attempt after failures in a row.
pub fn retry_delay(failures: u32, refresh_interval: Duration) -> (delay: Duration)
    ensures
        delay.nanos == retry_after(failures, refresh_interval.nanos),
{
    proof {
        reveal_with_fuel(doublings, 8);
    }
    let secs: u64 = match failures {
        0 => 1,
        1 => 1,
        2 => 2,
        3 => 4,
        4 => 8,
        5 => 16,
        6 => 32,
        _ => 64,
    };
    Duration::from_secs(secs).min(refresh_interval)
}

/// `delay` stretched by up to a tenth, chosen by `hash`.
pub fn jittered_with(delay: Duration, hash: u64) -> (stretched: Duration)
    ensures
        stretched.nanos == jittered_by(delay.nanos, hash),
{
    let window: u128 = delay.nanos / 10;
    if window == 0 {
        return delay;
    }
    let span: u64 = if window > u64::MAX as u128 {
        u64::MAX
    } else {
        window as u64
    };
    Duration { nanos: delay.nanos.saturating_add((hash % span) as u128) }
}

/// Whether feeding `text` to a hasher may change it so.
pub closed spec fn feeds(text: &str, hasher: &mut DefaultHasher) -> bool {
    call_ensures(hash_text, (text, hasher), ())
}

/// The hash that spreads the refreshes of different hosts: that of a fresh hasher which was
/// fed the host and nothing else.
pub fn host_hash(host: &str) -> (hash: u64)
    ensures
        exists|hasher: &mut DefaultHasher|
            ({
                &&& #[trigger] feeds(host, hasher)
                &&& hasher@ == Seq::<Seq<u8>>::empty()
                &&& hash == DefaultHasher::spec_finish(final(hasher)@)
            }),
{
    let mut hasher = DefaultHasher::new();
    hash_text(host, &mut hasher);
    assert(forall|fed: &mut DefaultHasher| #[trigger]
        call_ensures(hash_text, (host, fed), ()) ==> feeds(host, fed));
    hasher.finish()
}

/// `delay` stretched by up to a tenth, so that hosts with equal intervals spread out.
pub fn jittered(delay: Duration, host: &str) -> (stretched: Duration)
    ensures
        exists|hasher: &mut DefaultHasher|
            ({
                &&& #[trigger] feeds(host, hasher)
                &&& hasher@ == Seq::<Seq<u8>>::empty()
                &&& stretched.nanos == jittered_by(
                    delay.nanos,
                    DefaultHasher::spec_finish(final(hasher)@),
                )
            }),
{
    let hash = host_hash(host);
    jittered_with(delay, hash)
}

/// Law: jitter never shortens a delay, and stretches it by less than a tenth.
pub proof fn law_jitter_is_bounded(delay: u128, hash: u64)
    ensures
        delay <= jittered_by(delay, hash),
        delay >= 10 ==> jittered_by(delay, hash) < delay + delay / 10,
        delay < 10 ==> jittered_by(delay, hash) == delay,
        10 <= delay <= u64::MAX ==> jittered_by(delay, hash) == delay + hash as int % (delay as int
            / 10),
{
    let window = delay / 10;
    if window > 0 {
        let span: u64 = if window > u64::MAX {
            u64::MAX
        } else {
            window as u64
        };
        assert(hash % span < span) by (nonlinear_arith)
            requires
                span > 0,
        ;
    }
}

/// Law: retries back off from one second to at most 64, and never past the interval.
pub proof fn law_retries_back_off(failures: u32, interval: u128)
    ensures
        retry_after(failures, interval) <= interval,
        retry_after(failures, interval) <= 64_000_000_000,
        failures < u32::MAX ==> retry_after(failures, interval) <= retry_after(
            (failures + 1) as u32,
            interval,
        ),
        1_000_000_000 <= interval ==> retry_after(failures, interval) >= 1_000_000_000,
{
    reveal_with_fuel(doublings, 8);
}

/// What the resolver knows of one host.
pub struct HostRecord {
    pub snapshot: Option<Ipv4Snapshot>,
    pub attempted: bool,
    pub last_error: Option<LookupFailure>,
    pub subscribers: Vec<(u64, Duration)>,
    pub schedule_version: u64,
    pub next_due: Option<Instant>,
    pub queued: bool,
    pub inflight: Option<u64>,
    pub failures: u32,
}

/// Subscribers and their intervals in nanoseconds.
pub open spec fn intervals(subscribers: Seq<(u64, Duration)>) -> Seq<(u64, u128)> {
    subscribers.map_values(|entry: (u64, Duration)| (entry.0, entry.1.nanos))
}

impl View for HostRecord {
    type V = RecordView;

    open spec fn view(&self) -> RecordView {
        RecordView {
            snapshot: match self.snapshot {
                Some(snapshot) => Some(snapshot@),
                None => None,
            },
            attempted: self.attempted,
            last_error: match self.last_error {
                Some(failure) => Some(failure@),
                None => None,
            },
            subscribers: intervals(self.subscribers@),
            version: self.schedule_version,
            next_due: match self.next_due {
                Some(due) => Some(due.nanos),
                None => None,
            },
            queued: self.queued,
            inflight: self.inflight,
            failures: self.failures,
        }
    }
}

impl HostRecord {
    /// A host that was just named for the first time.
    pub fn new() -> (record: Self)
        ensures
            record@ == RecordView::fresh(),
    {
        let record = HostRecord {
            snapshot: None,
            attempted: false,
            last_error: None,
            subscribers: Vec::new(),
            schedule_version: 0,
            next_due: None,
            queued: false,
            inflight: None,
            failures: 0,
        };
        assert(record@.subscribers =~= Seq::empty());
        record
    }

    /// Removes a subscriber.
    pub fn unsubscribe(&mut self, id: u64)
        ensures
            final(self)@ == old(self)@.unsubscribed(id),
    {
        let mut kept: Vec<(u64, Duration)> = Vec::new();
        let mut at: usize = 0;
        let ghost all = intervals(self.subscribers@);
        assert(intervals(kept@) =~= others(all.take(0), id));
        while at < self.subscribers.len()
            invariant
                at <= self.subscribers@.len(),
                all == intervals(self.subscribers@),
                *self == *old(self),
                intervals(kept@) == others(all.take(at as int), id),
            decreases self.subscribers@.len() - at,
        {
            let entry = self.subscribers[at];
            let ghost before = kept@;
            assert(all.take(at + 1).drop_last() =~= all.take(at as int));
            assert(all.take(at + 1).last() == (entry.0, entry.1.nanos));
            if entry.0 != id {
                kept.push(entry);
                assert(intervals(kept@) =~= intervals(before).push((entry.0, entry.1.nanos)));
            }
            at = at + 1;
        }
        assert(all.take(at as int) =~= all);
        self.subscribers = kept;
    }

    /// Adds a subscriber, or changes its interval.
    pub fn subscribe(&mut self, id: u64, interval: Duration)
        ensures
            final(self)@ == old(self)@.subscribed(id, interval.nanos),
    {
        self.unsubscribe(id);
        let ghost before = self.subscribers@;
        self.subscribers.push((id, interval));
        assert(intervals(self.subscribers@) =~= intervals(before).push((id, interval.nanos)));
    }

    /// The shortest interval that a subscriber asks for.
    pub fn refresh_interval(&self) -> (interval: Option<Duration>)
        ensures
            match interval {
                Some(interval) => shortest(self@.subscribers) == Some(interval.nanos),
                None => shortest(self@.subscribers) is None,
            },
            match interval {
                Some(interval) => {
                    &&& forall|i: int|
                        0 <= i < self.subscribers@.len() ==> interval.nanos <= (
                        #[trigger] self.subscribers@[i]).1.nanos
                    &&& exists|j: int|
                        0 <= j < self.subscribers@.len() && interval.nanos == (
                        #[trigger] self.subscribers@[j]).1.nanos
                },
                None => self.subscribers@.len() == 0,
            },
    {
        let mut best: Option<Duration> = None;
        let mut at: usize = 0;
        let ghost all = self@.subscribers;
        while at < self.subscribers.len()
            invariant
                at <= self.subscribers@.len(),
                all == intervals(self.subscribers@),
                match best {
                    Some(interval) => shortest(all.take(at as int)) == Some(interval.nanos),
                    None => shortest(all.take(at as int)) is None,
                },
            decreases self.subscribers@.len() - at,
        {
            let interval = self.subscribers[at].1;
            assert(all.take(at + 1).drop_last() =~= all.take(at as int));
            best =
            match best {
                Some(known) => if known.nanos <= interval.nanos {
                    Some(known)
                } else {
                    Some(interval)
                },
                None => Some(interval),
            };
            at = at + 1;
        }
        assert(all.take(at as int) =~= all);
        proof {
            law_the_shortest_interval_counts(self@);
            assert forall|i: int| 0 <= i < all.len() implies (#[trigger] self.subscribers@[i]).1.nanos
                == all[i].1 by {}
            if all.len() > 0 {
                let j = choose|j: int| 0 <= j < all.len() && self@.interval() == (#[trigger] all[j]).1;
                assert(self.subscribers@[j].1.nanos == all[j].1);
            }
        }
        best
    }

    /// The shortest interval asked for, or the fallback.
    fn interval(&self) -> (interval: Duration)
        ensures
            interval.nanos == self@.interval(),
    {
        match self.refresh_interval() {
            Some(interval) => interval,
            None => Duration::from_secs(FALLBACK_REFRESH_SECS),
        }
    }

    /// Takes in the end of the running lookup; returns whether the addresses changed and
    /// the time to the next lookup, before jitter.
    pub fn answer(&mut self, answer: Result<Ipv4Snapshot, LookupFailure>) -> (outcome: (
        bool,
        Duration,
    ))
        ensures
            final(self)@ == old(self)@.answered(answer_view(answer)),
            outcome.0 == old(self)@.changed_by(answer_view(answer)),
            outcome.1.nanos == old(self)@.delay_after(answer_view(answer)),
    {
        self.inflight = None;
        self.attempted = true;
        let interval = self.interval();
        match answer {
            Ok(snapshot) => {
                let changed = match &self.snapshot {
                    Some(current) => !current.same_set(&snapshot),
                    None => true,
                };
                if changed {
                    self.snapshot = Some(snapshot);
                }
                self.last_error = None;
                self.failures = 0;
                (changed, interval)
            },
            Err(failure) => {
                self.failures = self.failures.saturating_add(1);
                self.last_error = Some(failure);
                (false, retry_delay(self.failures, interval))
            },
        }
    }
}

/// What one lookup came to.
pub open spec fn answer_view(answer: Result<Ipv4Snapshot, LookupFailure>) -> AnswerView {
    match answer {
        Ok(snapshot) => AnswerView::Addresses(snapshot@),
        Err(failure) => AnswerView::Failure(failure@),
    }
}

/// A subscriber as contracts see it.
pub struct SubscriberView {
    /// Hosts and ports that the subscriber follows.
    pub authorities: Seq<(Seq<char>, u16)>,
    /// Whether it still waits for its first result.
    pub awaiting: bool,
    /// Its hosts of which no lookup has finished.
    pub pending: nat,
}

/// Somebody who follows the addresses of some names.
pub struct Subscriber {
    pub authorities: Vec<Authority>,
    pub awaiting: bool,
    pub pending_initial_hosts: usize,
}

/// Hosts and ports of a list of names.
pub open spec fn names(authorities: Seq<Authority>) -> Seq<(Seq<char>, u16)> {
    authorities.map_values(|authority: Authority| authority@)
}

impl View for Subscriber {
    type V = SubscriberView;

    open spec fn view(&self) -> SubscriberView {
        SubscriberView {
            authorities: names(self.authorities@),
            awaiting: self.awaiting,
            pending: self.pending_initial_hosts as nat,
        }
    }
}

/// Why a subscriber's first result has no endpoint.
#[derive(Debug)]
pub enum InitialError {
    NoEndpoints,
    Resolve { name: String, failure: LookupFailure },
}

impl InitialError {
    /// The error that the caller sees.
    pub fn into_net_error(self) -> (error: NetError)
        ensures
            match self {
                InitialError::NoEndpoints => error is NoEndpoints,
                InitialError::Resolve { name, failure } => error == (NetError::Resolve {
                    name,
                    source: failure,
                }),
            },
    {
        match self {
            InitialError::NoEndpoints => NetError::NoEndpoints,
            InitialError::Resolve { name, failure } => NetError::Resolve { name, source: failure },
        }
    }
}

/// Law: a host is refreshed as often as its most demanding subscriber asks: its interval is
/// that of one subscriber and no longer than that of any, and without subscribers half a
/// minute.
pub proof fn law_the_shortest_interval_counts(record: RecordView)
    ensures
        record.subscribers.len() == 0 ==> record.interval() == 30_000_000_000,
        record.subscribers.len() == 0 <==> shortest(record.subscribers) is None,
        record.subscribers.len() > 0 ==> shortest(record.subscribers) == Some(record.interval()),
        forall|i: int|
            0 <= i < record.subscribers.len() ==> record.interval() <= (
            #[trigger] record.subscribers[i]).1,
        record.subscribers.len() > 0 ==> exists|j: int|
            0 <= j < record.subscribers.len() && record.interval() == (
            #[trigger] record.subscribers[j]).1,
{
    lemma_shortest(record.subscribers);
}

proof fn lemma_shortest(subscribers: Seq<(u64, u128)>)
    ensures
        match shortest(subscribers) {
            Some(interval) => {
                &&& subscribers.len() > 0
                &&& forall|i: int|
                    0 <= i < subscribers.len() ==> interval <= (#[trigger] subscribers[i]).1
                &&& exists|j: int|
                    0 <= j < subscribers.len() && interval == (#[trigger] subscribers[j]).1
            },
            None => subscribers.len() == 0,
        },
    decreases subscribers.len(),
{
    if subscribers.len() > 0 {
        let less = subscribers.drop_last();
        let found = shortest(subscribers)->0;
        lemma_shortest(less);
        assert forall|i: int| 0 <= i < subscribers.len() implies found <= (
        #[trigger] subscribers[i]).1 by {
            if i < less.len() {
                assert(less[i] == subscribers[i]);
            }
        }
        if less.len() > 0 && shortest(less)->0 <= subscribers.last().1 {
            let j = choose|j: int|
                0 <= j < less.len() && shortest(less)->0 == (#[trigger] less[j]).1;
            assert(subscribers[j] == less[j]);
        } else {
            assert(subscribers[subscribers.len() - 1].1 == found);
        }
    }
}

/// Law: a subscriber is listed at most once, with the interval it asked for last; whoever else
/// is listed stays listed as before.
pub proof fn law_subscribers_are_listed_once(record: RecordView, id: u64, interval: u128)
    ensures
        forall|entry: (u64, u128)| #[trigger]
            record.subscribed(id, interval).subscribers.contains(entry) <==> entry == (id, interval)
                || (record.subscribers.contains(entry) && entry.0 != id),
        forall|entry: (u64, u128)| #[trigger]
            record.unsubscribed(id).subscribers.contains(entry) <==> record.subscribers.contains(
                entry,
            ) && entry.0 != id,
        record.unsubscribed(id).subscribers.len() <= record.subscribers.len(),
        record.subscribed(id, interval).subscribers.len() > 0,
        record.subscribed(id, interval) == (RecordView {
            subscribers: record.subscribed(id, interval).subscribers,
            ..record
        }),
        record.unsubscribed(id) == (RecordView {
            subscribers: record.unsubscribed(id).subscribers,
            ..record
        }),
{
    lemma_others(record.subscribers, id);
    let rest = others(record.subscribers, id);
    assert forall|entry: (u64, u128)| #[trigger]
        record.subscribed(id, interval).subscribers.contains(entry) <==> entry == (id, interval)
            || (record.subscribers.contains(entry) && entry.0 != id) by {
        lemma_push_contains(rest, (id, interval), entry);
        assert(rest.contains(entry) <==> record.subscribers.contains(entry) && entry.0 != id);
    }
}

proof fn lemma_others(subscribers: Seq<(u64, u128)>, id: u64)
    ensures
        forall|entry: (u64, u128)| #[trigger]
            others(subscribers, id).contains(entry) <==> subscribers.contains(entry) && entry.0
                != id,
        others(subscribers, id).len() <= subscribers.len(),
    decreases subscribers.len(),
{
    if subscribers.len() > 0 {
        let less = subscribers.drop_last();
        let last = subscribers.last();
        let rest = others(less, id);
        lemma_others(less, id);
        assert forall|entry: (u64, u128)| #[trigger]
            others(subscribers, id).contains(entry) <==> subscribers.contains(entry) && entry.0
                != id by {
            assert(rest.contains(entry) <==> less.contains(entry) && entry.0 != id);
            lemma_push_contains(rest, last, entry);
            lemma_push_contains(less, last, entry);
            assert(less.push(last) =~= subscribers);
        }
    }
}

/// Law: an answer with addresses replaces those that the host had and ends its failures; a
/// failure keeps them, is remembered and counted. Either way the lookup is over.
pub proof fn law_answers_update_their_host(
    record: RecordView,
    addresses: Seq<u32>,
    failure: FailureView,
)
    ensures
        ({
            let good = record.answered(AnswerView::Addresses(addresses));
            &&& good.snapshot == Some(addresses)
            &&& good.last_error is None
            &&& good.failures == 0
            &&& good.attempted && good.inflight is None
            &&& good.subscribers == record.subscribers
            &&& good.queued == record.queued
            &&& good.next_due == record.next_due
            &&& good.version == record.version
        }),
        ({
            let bad = record.answered(AnswerView::Failure(failure));
            &&& bad.snapshot == record.snapshot
            &&& bad.last_error == Some(failure)
            &&& record.failures < u32::MAX ==> bad.failures == record.failures + 1
            &&& record.failures == u32::MAX ==> bad.failures == u32::MAX
            &&& bad.attempted && bad.inflight is None
            &&& bad.subscribers == record.subscribers
            &&& bad.queued == record.queued
            &&& bad.next_due == record.next_due
            &&& bad.version == record.version
        }),
        record.changed_by(AnswerView::Addresses(addresses)) <==> record.snapshot != Some(addresses),
        !record.changed_by(AnswerView::Failure(failure)),
{
}

/// Law: a host can be queued while somebody follows it and it neither waits nor is looked up,
/// and its lookup can start while it waits. Queueing and planning take the place of any plan
/// that was made before.
pub proof fn law_hosts_wait_and_are_looked_up(record: RecordView, due: u128, query: u64)
    ensures
        record.idle() <==> !record.queued && record.inflight is None && record.subscribers.len()
            > 0,
        record.launchable() <==> record.queued && record.inflight is None
            && record.subscribers.len() > 0,
        record.enqueued().queued,
        record.enqueued().next_due is None,
        record.enqueued().version != record.version,
        record.scheduled(due).next_due == Some(due),
        record.scheduled(due).version != record.version,
        record.scheduled(due).queued == record.queued,
        !record.launched(query).queued,
        record.launched(query).inflight == Some(query),
        record.launched(query).next_due == record.next_due,
        record.sooner(due) <==> record.next_due is None || due < record.next_due->0,
{
}

/// Law: the wait after a failure is one second at first, twice as long with each further
/// failure, 64 seconds from the seventh on; and the refresh interval, if that is shorter.
pub proof fn law_retries_double(failures: u32, interval: u128)
    ensures
        failures <= 1 ==> retry_after(failures, u128::MAX) == 1_000_000_000,
        1 <= failures < 7 ==> retry_after((failures + 1) as u32, u128::MAX) == 2 * retry_after(
            failures,
            u128::MAX,
        ),
        failures >= 7 ==> retry_after(failures, u128::MAX) == 64_000_000_000,
        interval <= retry_after(failures, u128::MAX) ==> retry_after(failures, interval)
            == interval,
        interval >= retry_after(failures, u128::MAX) ==> retry_after(failures, interval)
            == retry_after(failures, u128::MAX),
{
    reveal_with_fuel(doublings, 8);
}

/// Feeding a hasher is feeding it the text.
proof fn lemma_hashers_are_fed(text: &str, hasher: &mut DefaultHasher)
    ensures
        feeds(text, hasher) <==> call_ensures(hash_text, (text, hasher), ()),
{
}

/// Law: the interval that a host reports is that of its most demanding subscriber: none asks
/// for a shorter one, and one asks for just that.
pub proof fn law_hosts_report_the_shortest_interval(record: HostRecord, interval: Option<Duration>)
    requires
        call_ensures(HostRecord::refresh_interval, (&record,), interval),
    ensures
        interval is None <==> record@.subscribers.len() == 0,
        forall|i: int|
            0 <= i < record@.subscribers.len() ==> (interval->0).nanos <= (
            #[trigger] record@.subscribers[i]).1,
        interval is Some ==> exists|j: int|
            0 <= j < record@.subscribers.len() && (interval->0).nanos == (
            #[trigger] record@.subscribers[j]).1,
{
    lemma_shortest(record@.subscribers);
}

} // verus!
