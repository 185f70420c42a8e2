//! Replica selection by consumed request time.
use crate::error::NetError;
use crate::outside::nanos_since;
use crate::time::Duration;
use std::time::Instant;
use vstd::prelude::*;

#[allow(unused_imports)]
use crate::time::micros_of;

verus! {

/// Limits of one selector.
#[derive(Clone, Copy, Debug, PartialEq, Eq, Structural)]
pub struct QuotaBalancerOptions {
    /// Completed request time consumed before advancing to the next replica.
    pub quota: Duration,
    /// Minimum quota charged for a failed request.
    pub failure_penalty: Duration,
}

impl Default for QuotaBalancerOptions {
    fn default() -> (options: Self)
        ensures
            options.quota.nanos == 2_000_000_000,
            options.failure_penalty.nanos == 500_000_000,
    {
        QuotaBalancerOptions {
            quota: Duration::from_secs(2),
            failure_penalty: Duration::from_millis(500),
        }
    }
}

/// What one replica has consumed, and whether requests go to it now.
#[derive(Clone, Copy, Debug, PartialEq, Eq, Structural)]
pub struct ReplicaSnapshot {
    pub used_quota: Duration,
    pub current: bool,
}

/// The whole microseconds of a span, capped at the largest `u64`.
pub fn duration_micros(duration: Duration) -> (micros: u64)
    ensures
        micros == micros_of(duration.nanos as nat),
{
    duration.as_micros()
}

/// What is wrong with the options, if anything.
pub open spec fn options_complaint(options: QuotaBalancerOptions) -> Option<Seq<char>> {
    if micros_of(options.quota.nanos as nat) == 0 {
        Some("quota must be at least one microsecond"@)
    } else if micros_of(options.failure_penalty.nanos as nat) == 0 {
        Some("failure_penalty must be at least one microsecond"@)
    } else {
        None
    }
}

/// Checks the options.
pub fn validate_options(options: QuotaBalancerOptions) -> (checked: Result<(), NetError>)
    ensures
        match checked {
            Ok(_) => options_complaint(options) is None,
            Err(error) => options_complaint(options) matches Some(message) && error.rejects(message),
        },
        checked is Ok <==> options.quota.nanos >= 1_000 && options.failure_penalty.nanos >= 1_000,
{
    if duration_micros(options.quota) == 0 {
        return Err(NetError::invalid_config("quota must be at least one microsecond"));
    }
    if duration_micros(options.failure_penalty) == 0 {
        return Err(NetError::invalid_config("failure_penalty must be at least one microsecond"));
    }
    Ok(())
}

/// A selector as contracts see it.
#[verifier::ext_equal]
pub struct SelectorView {
    /// The replica that requests go to.
    pub current: int,
    /// Microseconds that each replica has consumed.
    pub used: Seq<u64>,
    pub quota: u64,
    pub penalty: u64,
}

impl SelectorView {
    /// A selector that has charged nothing.
    pub open spec fn fresh(replicas: nat, options: QuotaBalancerOptions, initial: int) -> Self {
        SelectorView {
            current: initial % (replicas as int),
            used: Seq::new(replicas, |i: int| 0u64),
            quota: micros_of(options.quota.nanos as nat),
            penalty: micros_of(options.failure_penalty.nanos as nat),
        }
    }

    /// There is a replica, and the current one is among them.
    pub open spec fn valid(self) -> bool {
        0 <= self.current < self.used.len()
    }

    /// Whether the next selection moves on: the current replica has consumed its quota,
    /// and there is another.
    pub open spec fn rotates(self) -> bool {
        self.used.len() > 1 && self.used[self.current] >= self.quota
    }

    /// The selector after one selection; a replica that is left starts over.
    pub open spec fn selected(self) -> Self {
        if self.rotates() {
            SelectorView {
                current: (self.current + 1) % (self.used.len() as int),
                used: self.used.update(self.current, 0),
                ..self
            }
        } else {
            self
        }
    }

    /// What one request costs its replica, in microseconds.
    pub open spec fn charge(self, elapsed: Duration, succeeded: bool) -> u64 {
        let micros = micros_of(elapsed.nanos as nat);
        if !succeeded && micros < self.penalty {
            self.penalty
        } else {
            micros
        }
    }

    /// The selector after a replica is charged.
    pub open spec fn charged(self, index: int, micros: u64) -> Self {
        SelectorView {
            used: self.used.update(
                index,
                ((self.used[index] + micros) % 0x1_0000_0000_0000_0000) as u64,
            ),
            ..self
        }
    }

    /// The selector after one request ends.
    pub open spec fn recorded(self, index: int, elapsed: Duration, succeeded: bool) -> Self {
        self.charged(index, self.charge(elapsed, succeeded))
    }

    /// Whether this may be the selector after the current replica refused a request: it is
    /// charged a failure that was timed from the selection on.
    pub open spec fn may_refuse(self, next: Self) -> bool {
        exists|ticket: QuotaTicket|
            (#[trigger] ticket.issued_for(self.current)) && ticket.may_charge(self, false, next)
    }
}

/// Keeps traffic on one replica until its accumulated request-time quota is consumed.
pub struct QuotaSelector {
    current: usize,
    used_micros: Vec<u64>,
    quota_micros: u64,
    failure_penalty_micros: u64,
}

impl View for QuotaSelector {
    type V = SelectorView;

    closed spec fn view(&self) -> SelectorView {
        SelectorView {
            current: self.current as int,
            used: self.used_micros@,
            quota: self.quota_micros,
            penalty: self.failure_penalty_micros,
        }
    }
}

impl QuotaSelector {
    /// A selector that starts with the first replica.
    pub fn new(replicas: usize, options: QuotaBalancerOptions) -> (selector: Result<Self, NetError>)
        ensures
            match selector {
                Ok(selector) => {
                    &&& options_complaint(options) is None
                    &&& replicas > 0
                    &&& selector@.valid()
                    &&& selector@ == SelectorView::fresh(replicas as nat, options, 0)
                },
                Err(error) => match options_complaint(options) {
                    Some(message) => error.rejects(message),
                    None => replicas == 0 && error is NoReplicas,
                },
            },
    {
        Self::with_initial(replicas, options, 0)
    }

    /// A selector whose first choice is `initial % replicas`.
    pub fn with_initial(replicas: usize, options: QuotaBalancerOptions, initial: usize) -> (selector:
        Result<Self, NetError>)
        ensures
            match selector {
                Ok(selector) => {
                    &&& options_complaint(options) is None
                    &&& replicas > 0
                    &&& selector@.valid()
                    &&& selector@ == SelectorView::fresh(replicas as nat, options, initial as int)
                },
                Err(error) => match options_complaint(options) {
                    Some(message) => error.rejects(message),
                    None => replicas == 0 && error is NoReplicas,
                },
            },
    {
        match validate_options(options) {
            Ok(_) => {},
            Err(error) => {
                return Err(error);
            },
        }
        if replicas == 0 {
            return Err(NetError::NoReplicas);
        }
        let mut used_micros: Vec<u64> = Vec::new();
        while used_micros.len() < replicas
            invariant
                used_micros@.len() <= replicas,
                forall|i: int| 0 <= i < used_micros@.len() ==> used_micros@[i] == 0,
            decreases replicas - used_micros@.len(),
        {
            used_micros.push(0);
        }
        let selector = QuotaSelector {
            current: initial % replicas,
            used_micros,
            quota_micros: duration_micros(options.quota),
            failure_penalty_micros: duration_micros(options.failure_penalty),
        };
        assert(selector@ =~= SelectorView::fresh(replicas as nat, options, initial as int));
        Ok(selector)
    }

    /// The replica that the next request goes to.
    pub fn select(&mut self) -> (ticket: QuotaTicket)
        requires
            old(self)@.valid(),
        ensures
            final(self)@.valid(),
            final(self)@ == old(self)@.selected(),
            ticket.issued_for(final(self)@.current),
            ({
                let before = old(self)@;
                let after = final(self)@;
                let moves = before.used.len() > 1 && before.used[before.current] >= before.quota;
                &&& after.used.len() == before.used.len()
                &&& after.quota == before.quota
                &&& after.penalty == before.penalty
                &&& !moves ==> after.current == before.current
                &&& moves ==> after.current == if before.current + 1 < before.used.len() {
                    before.current + 1
                } else {
                    0
                }
                &&& forall|i: int|
                    0 <= i < before.used.len() ==> #[trigger] after.used[i] == if moves && i
                        == before.current {
                        0
                    } else {
                        before.used[i]
                    }
            }),
    {
        let count = self.used_micros.len();
        let index = self.current;
        if count > 1 && self.used_micros[index] >= self.quota_micros {
            self.current = if index + 1 < count {
                index + 1
            } else {
                0
            };
            self.used_micros.set(index, 0);
            proof {
                if index + 1 < count {
                    assert((index + 1) % (count as int) == index + 1) by (nonlinear_arith)
                        requires
                            0 <= index,
                            index + 1 < count,
                    ;
                } else {
                    assert((index + 1) % (count as int) == 0) by (nonlinear_arith)
                        requires
                            index + 1 == count,
                            count > 0,
                    ;
                }
            }
        }
        self.ticket(self.current)
    }

    /// A ticket for one replica, wherever the selector stands.
    pub fn ticket(&self, index: usize) -> (ticket: QuotaTicket)
        requires
            index < self@.used.len(),
        ensures
            ticket.issued_for(index as int),
    {
        let ticket = QuotaTicket { index, started: Instant::now() };
        assert(ticket.may_begin());
        ticket
    }

    /// What each replica has consumed.
    pub fn snapshots(&self) -> (snapshots: Vec<ReplicaSnapshot>)
        ensures
            snapshots@.len() == self@.used.len(),
            forall|i: int|
                0 <= i < self@.used.len() ==> (#[trigger] snapshots@[i]).used_quota.nanos
                    == self@.used[i] * 1_000 && snapshots@[i].current == (i == self@.current),
    {
        let mut snapshots: Vec<ReplicaSnapshot> = Vec::new();
        let mut at: usize = 0;
        while at < self.used_micros.len()
            invariant
                at <= self.used_micros@.len(),
                snapshots@.len() == at,
                forall|i: int|
                    0 <= i < at ==> (#[trigger] snapshots@[i]).used_quota.nanos == self@.used[i]
                        * 1_000 && snapshots@[i].current == (i == self@.current),
            decreases self.used_micros@.len() - at,
        {
            snapshots.push(
                ReplicaSnapshot {
                    used_quota: Duration::from_micros(self.used_micros[at]),
                    current: at == self.current,
                },
            );
            at = at + 1;
        }
        snapshots
    }
}

/// One timed selection from a [`QuotaSelector`].
///
/// Call [`QuotaTicket::success`] for any valid protocol response, including a cache miss.
/// A ticket that is given up counts as a failure.
#[derive(Debug)]
pub struct QuotaTicket {
    index: usize,
    started: Instant,
}

impl QuotaTicket {
    /// The replica that the ticket is for.
    pub closed spec fn position(&self) -> int {
        self.index as int
    }

    /// Whether the ticket's time may start with a reading of the clock that is made for it.
    pub closed spec fn may_begin(&self) -> bool {
        call_ensures(Instant::now, (), self.started)
    }

    /// Whether this may be the time since the ticket's start.
    pub closed spec fn may_last(&self, elapsed: Duration) -> bool {
        call_ensures(nanos_since, (&self.started,), elapsed.nanos)
    }

    /// The ticket is for this replica, and its time was started for it.
    pub open spec fn issued_for(&self, index: int) -> bool {
        self.position() == index && self.may_begin()
    }

    /// Whether charging the ticket may lead from one state of the selector to the other:
    /// its replica is charged once, for the time since the ticket's start.
    pub open spec fn may_charge(
        &self,
        before: SelectorView,
        succeeded: bool,
        after: SelectorView,
    ) -> bool {
        exists|elapsed: Duration|
            (#[trigger] self.may_last(elapsed)) && after == before.recorded(
                self.position(),
                elapsed,
                succeeded,
            )
    }

    /// The replica that the ticket is for.
    pub fn index(&self) -> (index: usize)
        ensures
            index == self.position(),
    {
        self.index
    }

    /// Another ticket for the same replica, timed from now on.
    pub fn sibling(&self) -> (ticket: Self)
        ensures
            ticket.issued_for(self.position()),
    {
        let ticket = QuotaTicket { index: self.index, started: Instant::now() };
        assert(ticket.may_begin());
        ticket
    }

    /// The request succeeded: charges the time since the selection.
    pub fn success(self, selector: &mut QuotaSelector)
        requires
            old(selector)@.valid(),
            self.position() < old(selector)@.used.len(),
        ensures
            final(selector)@.valid(),
            final(selector)@.used.len() == old(selector)@.used.len(),
            self.may_charge(old(selector)@, true, final(selector)@),
    {
        let elapsed = Duration { nanos: nanos_since(&self.started) };
        assert(self.may_last(elapsed));
        self.record(selector, elapsed, true);
    }

    /// The request failed: charges the time since the selection, at least the penalty.
    pub fn failure(self, selector: &mut QuotaSelector)
        requires
            old(selector)@.valid(),
            self.position() < old(selector)@.used.len(),
        ensures
            final(selector)@.valid(),
            final(selector)@.used.len() == old(selector)@.used.len(),
            self.may_charge(old(selector)@, false, final(selector)@),
    {
        let elapsed = Duration { nanos: nanos_since(&self.started) };
        assert(self.may_last(elapsed));
        self.record(selector, elapsed, false);
    }

    /// The request was given up before its outcome was known: that counts as a failure.
    pub fn give_up(self, selector: &mut QuotaSelector)
        requires
            old(selector)@.valid(),
            self.position() < old(selector)@.used.len(),
        ensures
            final(selector)@.valid(),
            final(selector)@.used.len() == old(selector)@.used.len(),
            self.may_charge(old(selector)@, false, final(selector)@),
    {
        self.failure(selector);
    }

    /// Charges one request.
    pub fn record(&self, selector: &mut QuotaSelector, elapsed: Duration, succeeded: bool)
        requires
            old(selector)@.valid(),
            self.position() < old(selector)@.used.len(),
        ensures
            final(selector)@.valid(),
            final(selector)@ == old(selector)@.recorded(self.position(), elapsed, succeeded),
            ({
                let before = old(selector)@.used[self.position()];
                let after = final(selector)@.used[self.position()];
                let penalty = old(selector)@.penalty;
                &&& elapsed.nanos + 1_000 * before < 1_000 * u64::MAX && (succeeded
                    || elapsed.nanos >= 1_000 * penalty) ==> 1_000 * (after - before)
                    <= elapsed.nanos < 1_000 * (after - before) + 1_000
                &&& !succeeded && elapsed.nanos < 1_000 * penalty && before + penalty <= u64::MAX
                    ==> after == before + penalty
            }),
    {
        let micros = duration_micros(elapsed);
        let charge: u64 = if !succeeded && micros < selector.failure_penalty_micros {
            selector.failure_penalty_micros
        } else {
            micros
        };
        let used = selector.used_micros[self.index];
        selector.used_micros.set(self.index, used.wrapping_add(charge));
    }
}

/// Law: as long as the current replica has not consumed its quota, every selection stays
/// with it and charges nothing.
pub proof fn law_selection_stays_within_the_quota(selector: SelectorView)
    requires
        selector.valid(),
        selector.used[selector.current] < selector.quota || selector.used.len() == 1,
    ensures
        selector.selected() == selector,
{
}

/// Law: once the quota is consumed, the next selection moves to the next replica, and the
/// one after it stays there unless that replica's own quota is consumed.
pub proof fn law_consumed_quota_moves_on_once(selector: SelectorView)
    requires
        selector.valid(),
        selector.used.len() > 1,
        selector.used[selector.current] >= selector.quota,
        selector.used[(selector.current + 1) % (selector.used.len() as int)] < selector.quota,
    ensures
        selector.selected().valid(),
        selector.selected().current == (selector.current + 1) % (selector.used.len() as int),
        selector.selected().used[selector.current] == 0,
        selector.selected().selected() == selector.selected(),
{
    let count = selector.used.len() as int;
    let next = (selector.current + 1) % count;
    assert(0 <= next < count && next != selector.current) by (nonlinear_arith)
        requires
            next == (selector.current + 1) % count,
            0 <= selector.current < count,
            count > 1,
    ;
}

/// Law: a failed request costs at least the penalty and at least its time; a successful
/// one costs just its time.
pub proof fn law_failures_cost_at_least_the_penalty(selector: SelectorView, elapsed: Duration)
    ensures
        selector.charge(elapsed, false) >= selector.penalty,
        selector.charge(elapsed, false) >= selector.charge(elapsed, true),
        selector.charge(elapsed, true) == micros_of(elapsed.nanos as nat),
{
}

/// Law: a ticket whose request fails or is given up costs its replica the larger of its time
/// and the penalty, once, and costs no other replica anything.
pub proof fn law_failed_tickets_cost_the_larger(
    ticket: QuotaTicket,
    before: SelectorView,
    after: SelectorView,
)
    requires
        before.valid(),
        ticket.position() < before.used.len(),
        ticket.may_charge(before, false, after),
    ensures
        exists|elapsed: Duration|
            ({
                let micros = micros_of(elapsed.nanos as nat);
                &&& #[trigger] ticket.may_last(elapsed)
                &&& after == before.charged(
                    ticket.position(),
                    if micros > before.penalty {
                        micros
                    } else {
                        before.penalty
                    },
                )
            }),
        after.current == before.current,
        after.used.len() == before.used.len(),
        forall|other: int|
            0 <= other < before.used.len() && other != ticket.position()
                ==> #[trigger] after.used[other] == before.used[other],
{
    let elapsed = choose|elapsed: Duration|
        (#[trigger] ticket.may_last(elapsed)) && after == before.recorded(
            ticket.position(),
            elapsed,
            false,
        );
    assert(ticket.may_last(elapsed));
}

/// Law: charging any replica leaves the selector where it stands, so that a request which
/// fails over to another replica does not move later requests.
pub proof fn law_charging_does_not_move_the_selector(
    selector: SelectorView,
    index: int,
    elapsed: Duration,
    succeeded: bool,
)
    requires
        selector.valid(),
        0 <= index < selector.used.len(),
    ensures
        selector.recorded(index, elapsed, succeeded).valid(),
        selector.recorded(index, elapsed, succeeded).current == selector.current,
        forall|other: int|
            0 <= other < selector.used.len() && other != index ==> (#[trigger] selector.recorded(
                index,
                elapsed,
                succeeded,
            ).used[other]) == selector.used[other],
{
}

/// Law: a new selector stands at the given replica, counted round the replicas, has charged
/// nothing to any of them, and keeps the limits to the microsecond.
pub proof fn law_new_selectors_have_charged_nothing(
    replicas: nat,
    options: QuotaBalancerOptions,
    initial: int,
)
    requires
        replicas > 0,
        initial >= 0,
    ensures
        ({
            let selector = SelectorView::fresh(replicas, options, initial);
            &&& selector.valid()
            &&& selector.used.len() == replicas
            &&& initial < replicas ==> selector.current == initial
            &&& initial == replicas ==> selector.current == 0
            &&& forall|i: int| 0 <= i < replicas ==> #[trigger] selector.used[i] == 0
            &&& 1_000 * selector.quota <= options.quota.nanos
            &&& options.quota.nanos < 1_000 * selector.quota + 1_000 || selector.quota == u64::MAX
            &&& 1_000 * selector.penalty <= options.failure_penalty.nanos
            &&& options.failure_penalty.nanos < 1_000 * selector.penalty + 1_000
                || selector.penalty == u64::MAX
        }),
{
    let count = replicas as int;
    assert(0 <= initial % count < count) by (nonlinear_arith)
        requires
            count > 0,
    ;
    if initial < replicas {
        assert(initial % count == initial) by (nonlinear_arith)
            requires
                0 <= initial < count,
        ;
    }
    if initial == replicas {
        assert(initial % count == 0) by (nonlinear_arith)
            requires
                initial == count,
                count > 0,
        ;
    }
}

/// Law: one selection moves on exactly when the current replica has consumed its quota and
/// there is another. It then moves to the next replica, the first one after the last, and
/// the replica that is left starts over; nothing else changes.
pub proof fn law_selection_moves_to_the_next_replica(selector: SelectorView)
    requires
        selector.valid(),
    ensures
        ({
            let after = selector.selected();
            let moves = selector.used.len() > 1 && selector.used[selector.current]
                >= selector.quota;
            &&& after.valid()
            &&& after.used.len() == selector.used.len()
            &&& after.quota == selector.quota
            &&& after.penalty == selector.penalty
            &&& !moves ==> after.current == selector.current
            &&& moves && selector.current + 1 < selector.used.len() ==> after.current
                == selector.current + 1
            &&& moves && selector.current + 1 == selector.used.len() ==> after.current == 0
            &&& moves ==> after.used[selector.current] == 0
            &&& forall|i: int|
                0 <= i < selector.used.len() && (i != selector.current || !moves)
                    ==> #[trigger] after.used[i] == selector.used[i]
        }),
{
    let count = selector.used.len() as int;
    let current = selector.current;
    if current + 1 < count {
        assert((current + 1) % count == current + 1) by (nonlinear_arith)
            requires
                0 <= current,
                current + 1 < count,
        ;
    } else {
        assert((current + 1) % count == 0) by (nonlinear_arith)
            requires
                current + 1 == count,
                count > 0,
        ;
    }
}

/// Law: charging a replica adds exactly the charge to what it has used, as long as that can
/// be counted; and what it costs is known: a success costs its time to the microsecond, a
/// failure the penalty or its time, whichever is more.
pub proof fn law_charges_add_up(
    selector: SelectorView,
    index: int,
    elapsed: Duration,
    succeeded: bool,
)
    requires
        0 <= index < selector.used.len(),
    ensures
        ({
            let charge = selector.charge(elapsed, succeeded);
            let after = selector.recorded(index, elapsed, succeeded);
            let time = if elapsed.nanos >= 1_000 * u64::MAX {
                u64::MAX as int
            } else {
                elapsed.nanos as int / 1_000
            };
            &&& selector.used[index] + charge <= u64::MAX ==> after.used[index]
                == selector.used[index] + charge
            &&& selector.used[index] + charge > u64::MAX ==> after.used[index]
                == selector.used[index] + charge - 0x1_0000_0000_0000_0000
            &&& succeeded ==> charge == time
            &&& !succeeded && time >= selector.penalty ==> charge == time
            &&& !succeeded && time < selector.penalty ==> charge == selector.penalty
            &&& after.used.len() == selector.used.len()
            &&& after.quota == selector.quota
            &&& after.penalty == selector.penalty
            &&& after.current == selector.current
        }),
{
}

/// The selector after so many successes that took equally long, all at one replica.
pub open spec fn charged_repeatedly(
    selector: SelectorView,
    index: int,
    elapsed: Duration,
    times: nat,
) -> SelectorView
    decreases times,
{
    if times == 0 {
        selector
    } else {
        charged_repeatedly(selector, index, elapsed, (times - 1) as nat).recorded(
            index,
            elapsed,
            true,
        )
    }
}

/// Law: request time accumulates: so many successes at one replica cost it as many times the
/// time of one. A replica that serves any requests of at least a microsecond consumes its
/// quota in the end, and the next selection then leaves it.
pub proof fn law_request_time_accumulates(
    selector: SelectorView,
    micros: u64,
    times: nat,
)
    requires
        selector.valid(),
        selector.used[selector.current] + micros * times <= u64::MAX,
    ensures
        ({
            let elapsed = Duration { nanos: (micros * 1_000) as u128 };
            let after = charged_repeatedly(selector, selector.current, elapsed, times);
            &&& after.valid()
            &&& after.current == selector.current
            &&& after.used.len() == selector.used.len()
            &&& after.quota == selector.quota
            &&& after.used[selector.current] == selector.used[selector.current] + micros * times
            &&& selector.used.len() > 1 && micros * times >= selector.quota
                ==> after.selected().current != selector.current
        }),
    decreases times,
{
    let elapsed = Duration { nanos: (micros * 1_000) as u128 };
    assert(times == 0 ==> micros * times == 0) by (nonlinear_arith);
    if times > 0 {
        assert(micros * times == micros * (times - 1) + micros) by (nonlinear_arith);
        assert(micros * (times - 1) >= 0) by (nonlinear_arith)
            requires
                times >= 1,
        ;
        law_request_time_accumulates(selector, micros, (times - 1) as nat);
        let before = charged_repeatedly(
            selector,
            selector.current,
            elapsed,
            (times - 1) as nat,
        );
        law_charges_add_up(before, selector.current, elapsed, true);
    }
    let after = charged_repeatedly(selector, selector.current, elapsed, times);
    law_selection_moves_to_the_next_replica(after);
}

/// A ticket is timed by the clock: the time charged is what the clock shows since the reading
/// that was made when the ticket was issued.
proof fn lemma_tickets_are_timed(ticket: QuotaTicket, elapsed: Duration)
    ensures
        ticket.may_last(elapsed) <==> call_ensures(
            nanos_since,
            (&ticket.started,),
            elapsed.nanos,
        ),
        ticket.may_begin() <==> call_ensures(Instant::now, (), ticket.started),
{
}

/// Law: a ticket is for one replica; whatever comes of its request, that replica is charged
/// once, and nothing else changes. A success is charged the time of the ticket, a failure that
/// or the penalty, whichever is more.
pub proof fn law_tickets_charge_their_replica(
    ticket: QuotaTicket,
    index: int,
    before: SelectorView,
    succeeded: bool,
    after: SelectorView,
)
    requires
        ticket.issued_for(index),
        0 <= index < before.used.len(),
        ticket.may_charge(before, succeeded, after),
    ensures
        ticket.position() == index,
        ticket.may_begin(),
        after.current == before.current,
        after.quota == before.quota,
        after.penalty == before.penalty,
        after.used.len() == before.used.len(),
        forall|other: int|
            0 <= other < before.used.len() && other != index ==> #[trigger] after.used[other]
                == before.used[other],
        exists|elapsed: Duration|
            ({
                let time = if elapsed.nanos >= 1_000 * u64::MAX {
                    u64::MAX as int
                } else {
                    elapsed.nanos as int / 1_000
                };
                let cost = if succeeded || time >= before.penalty {
                    time
                } else {
                    before.penalty as int
                };
                &&& #[trigger] ticket.may_last(elapsed)
                &&& before.used[index] + cost <= u64::MAX ==> after.used[index]
                    == before.used[index] + cost
                &&& before.used[index] + cost > u64::MAX ==> after.used[index]
                    == before.used[index] + cost - 0x1_0000_0000_0000_0000
            }),
{
    let elapsed = choose|elapsed: Duration|
        (#[trigger] ticket.may_last(elapsed)) && after == before.recorded(
            ticket.position(),
            elapsed,
            succeeded,
        );
    law_charges_add_up(before, index, elapsed, succeeded);
    assert(ticket.may_last(elapsed));
}

/// Law: a replica that refuses a request is charged at least the penalty, as far as that can be
/// counted, and no other replica is charged.
pub proof fn law_refusals_cost_the_penalty(before: SelectorView, after: SelectorView)
    requires
        before.valid(),
        before.may_refuse(after),
    ensures
        after.current == before.current,
        after.used.len() == before.used.len(),
        forall|other: int|
            0 <= other < before.used.len() && other != before.current
                ==> #[trigger] after.used[other] == before.used[other],
        exists|ticket: QuotaTicket|
            (#[trigger] ticket.issued_for(before.current)) && ticket.may_charge(
                before,
                false,
                after,
            ),
        after.used[before.current] >= before.used[before.current] + before.penalty
            || after.used[before.current] < before.used[before.current] || before.penalty == 0,
{
    let ticket = choose|ticket: QuotaTicket|
        (#[trigger] ticket.issued_for(before.current)) && ticket.may_charge(before, false, after);
    let elapsed = choose|elapsed: Duration|
        (#[trigger] ticket.may_last(elapsed)) && after == before.recorded(
            ticket.position(),
            elapsed,
            false,
        );
    law_charges_add_up(before, before.current, elapsed, false);
}

/// Law: what a selector shows of its replicas: for each in turn the time it has consumed, and
/// whether it is the one that requests go to.
pub proof fn law_snapshots_show_every_replica(
    selector: QuotaSelector,
    snapshots: Vec<ReplicaSnapshot>,
)
    requires
        selector@.valid(),
        call_ensures(QuotaSelector::snapshots, (&selector,), snapshots),
    ensures
        snapshots@.len() == selector@.used.len(),
        forall|i: int|
            0 <= i < snapshots@.len() ==> (#[trigger] snapshots@[i]).used_quota.nanos
                == selector@.used[i] * 1_000,
        forall|i: int|
            0 <= i < snapshots@.len() ==> ((#[trigger] snapshots@[i]).current <==> i
                == selector@.current),
{
}

/// Law: recording one request after the other leaves a replica with the microseconds of both,
/// and with no others: successes cost their own time, however short.
pub proof fn law_recorded_requests_cost_their_time(
    ticket: QuotaTicket,
    start: QuotaSelector,
    once: QuotaSelector,
    twice: QuotaSelector,
    first: Duration,
    second: Duration,
)
    requires
        start@.valid(),
        ticket.position() < start@.used.len(),
        1_000 * start@.used[ticket.position()] + first.nanos + second.nanos < 1_000 * u64::MAX,
        exists|selector: &mut QuotaSelector|
            *selector == start && *final(selector) == once && #[trigger] call_ensures(
                QuotaTicket::record,
                (&ticket, selector, first, true),
                (),
            ),
        exists|selector: &mut QuotaSelector|
            *selector == once && *final(selector) == twice && #[trigger] call_ensures(
                QuotaTicket::record,
                (&ticket, selector, second, true),
                (),
            ),
    ensures
        ({
            let used = twice@.used[ticket.position()] - start@.used[ticket.position()];
            &&& used == first.nanos as int / 1_000 + second.nanos as int / 1_000
            &&& first.nanos + second.nanos - 2_000 < 1_000 * used <= first.nanos + second.nanos
        }),
{
}

} // verus!
