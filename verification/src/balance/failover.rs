//! Retries of one request on other replicas.
use crate::balance::quota::QuotaTicket;
use crate::balance::replicas::ReplicaSet;
use crate::error::SessionError;
use vstd::prelude::*;

verus! {

/// Where one request stands among its attempts.
#[verifier::ext_equal]
pub struct FailoverView {
    /// The replica of the first attempt.
    pub first: int,
    /// How many attempts the request has.
    pub attempts: int,
    /// How many attempts came before the current one.
    pub offset: int,
    /// How many replicas there are.
    pub replicas: int,
}

/// Attempts that a request with so many retries has: one on each of so many replicas.
pub open spec fn attempts_of(retries: int, replicas: int) -> int {
    if retries + 1 < replicas {
        retries + 1
    } else {
        replicas
    }
}

impl FailoverView {
    /// The attempts fit the replicas.
    pub open spec fn valid(self) -> bool {
        &&& 0 <= self.first < self.replicas
        &&& 0 <= self.offset < self.attempts <= self.replicas
    }

    /// The replica of one attempt.
    pub open spec fn position(self, offset: int) -> int {
        (self.first + offset) % self.replicas
    }

    /// The next attempt.
    pub open spec fn moved_on(self) -> Self {
        FailoverView { offset: self.offset + 1, ..self }
    }

    /// Whether an error is worth another attempt, and one is left.
    pub open spec fn retries<E>(self, error: SessionError<E>) -> bool {
        error.retryable() && self.offset + 1 < self.attempts
    }
}

/// What follows one attempt.
pub enum FailoverStep<T, E> {
    /// The request is over.
    Done(Result<T, SessionError<E>>),
    /// The request goes to the replica of this ticket.
    Retry(QuotaTicket),
}

/// One request that moves on to other replicas when the transport fails.
///
/// The attempts are on distinct replicas, so one logical request is never sent to the same
/// physical node twice. Failed replicas are charged, and the selector advances only when
/// a quota is consumed.
pub struct Failover {
    first: usize,
    attempts: usize,
    offset: usize,
    replicas: usize,
}

impl View for Failover {
    type V = FailoverView;

    closed spec fn view(&self) -> FailoverView {
        FailoverView {
            first: self.first as int,
            attempts: self.attempts as int,
            offset: self.offset as int,
            replicas: self.replicas as int,
        }
    }
}

/// `(first + offset) % count` without overflow.
fn wrapped_index(first: usize, offset: usize, count: usize) -> (index: usize)
    requires
        first < count,
        offset < count,
    ensures
        index == (first + offset) % (count as int),
        index < count,
{
    if offset < count - first {
        assert((first + offset) % (count as int) == first + offset) by (nonlinear_arith)
            requires
                0 <= first + offset < count,
        ;
        first + offset
    } else {
        assert((first + offset) % (count as int) == first + offset - count) by (nonlinear_arith)
            requires
                count <= first + offset < 2 * count,
        ;
        offset - (count - first)
    }
}

impl Failover {
    /// Selects the replica of the first attempt.
    pub fn begin<N>(set: &mut ReplicaSet<N>, retries: usize) -> (started: (Failover, QuotaTicket))
        requires
            old(set).wf(),
        ensures
            final(set).wf(),
            final(set).replicas() == old(set).replicas(),
            final(set).selector() == old(set).selector().selected(),
            started.0@.valid(),
            started.0@ == (FailoverView {
                first: final(set).selector().current,
                attempts: attempts_of(retries as int, old(set).replicas().len() as int),
                offset: 0,
                replicas: old(set).replicas().len() as int,
            }),
            started.1.issued_for(final(set).selector().current),
    {
        let replicas = set.len();
        let ticket = set.balancer().select();
        let attempts: usize = if retries < replicas - 1 {
            retries + 1
        } else {
            replicas
        };
        let first = ticket.index();
        (Failover { first, attempts, offset: 0, replicas }, ticket)
    }

    /// The replica of the current attempt.
    pub fn index(&self) -> (index: usize)
        requires
            self@.valid(),
        ensures
            index == self@.position(self@.offset),
            index < self@.replicas,
    {
        wrapped_index(self.first, self.offset, self.replicas)
    }

    /// Takes in how the current attempt ended: charges its replica, and moves on to the
    /// next one when the transport failed and an attempt is left.
    pub fn after<N, T, E>(
        &mut self,
        set: &mut ReplicaSet<N>,
        ticket: QuotaTicket,
        outcome: Result<T, SessionError<E>>,
    ) -> (step: FailoverStep<T, E>)
        requires
            old(self)@.valid(),
            old(set).wf(),
            old(self)@.replicas == old(set).replicas().len(),
            ticket.position() == old(self)@.position(old(self)@.offset),
        ensures
            final(self)@.valid(),
            final(set).wf(),
            final(set).replicas() == old(set).replicas(),
            ticket.may_charge(old(set).selector(), outcome is Ok, final(set).selector()),
            match outcome {
                Ok(_) => step == FailoverStep::Done(outcome) && final(self)@ == old(self)@,
                Err(error) => if old(self)@.retries(error) {
                    &&& final(self)@ == old(self)@.moved_on()
                    &&& step matches FailoverStep::Retry(next)
                    &&& next.issued_for(final(self)@.position(final(self)@.offset))
                } else {
                    step == FailoverStep::Done(outcome) && final(self)@ == old(self)@
                },
            },
    {
        assert(0 <= ticket.position() < self@.replicas) by {
            let view = self@;
            assert(0 <= (view.first + view.offset) % view.replicas < view.replicas)
                by (nonlinear_arith)
                requires
                    view.replicas > 0,
            ;
        }
        match outcome {
            Ok(response) => {
                ticket.success(set.balancer());
                FailoverStep::Done(Ok(response))
            },
            Err(error) => {
                ticket.failure(set.balancer());
                if !error.is_retryable_transport() || self.offset + 1 == self.attempts {
                    FailoverStep::Done(Err(error))
                } else {
                    self.offset = self.offset + 1;
                    let index = self.index();
                    FailoverStep::Retry(set.balancer().ticket(index))
                }
            },
        }
    }
}

/// Law: the attempts of one request are on distinct replicas.
pub proof fn law_failover_never_repeats_a_replica(request: FailoverView, i: int, j: int)
    requires
        request.valid(),
        0 <= i < j < request.attempts,
    ensures
        request.position(i) != request.position(j),
{
    let first = request.first;
    let n = request.replicas;
    assert((first + i) % n != (first + j) % n) by (nonlinear_arith)
        requires
            0 <= first < n,
            0 <= i < j < n,
    {
        assert((first + i) % n == if first + i < n {
            first + i
        } else {
            first + i - n
        });
        assert((first + j) % n == if first + j < n {
            first + j
        } else {
            first + j - n
        });
    }
}

/// Law: a request has one attempt more than retries, but never more than there are
/// replicas, and always one.
pub proof fn law_attempts_are_capped_by_the_replicas(retries: int, replicas: int)
    requires
        retries >= 0,
        replicas >= 1,
    ensures
        1 <= attempts_of(retries, replicas) <= replicas,
        attempts_of(retries, replicas) <= retries + 1,
        retries < replicas ==> attempts_of(retries, replicas) == retries + 1,
        retries + 1 >= replicas ==> attempts_of(retries, replicas) == replicas,
{
}

/// Law: the first attempt is on the selected replica and each later one on the replica after
/// that of the attempt before, the first one after the last. Another attempt follows just an
/// error of the transport, as long as one is left.
pub proof fn law_attempts_go_round_the_replicas<E>(
    request: FailoverView,
    offset: int,
    error: SessionError<E>,
)
    requires
        request.valid(),
        0 <= offset < request.replicas,
    ensures
        request.position(0) == request.first,
        request.first + offset < request.replicas ==> request.position(offset) == request.first
            + offset,
        request.first + offset >= request.replicas ==> request.position(offset) == request.first
            + offset - request.replicas,
        request.moved_on().offset == request.offset + 1,
        request.moved_on().first == request.first,
        request.moved_on().attempts == request.attempts,
        request.moved_on().replicas == request.replicas,
        request.retries(error) <==> request.offset + 1 < request.attempts && match error {
            SessionError::Busy | SessionError::Unavailable | SessionError::Closed => true,
            SessionError::Timeout { .. } | SessionError::Io(_) => true,
            _ => false,
        },
{
    let first = request.first;
    let n = request.replicas;
    assert((first + 0) % n == first) by (nonlinear_arith)
        requires
            0 <= first < n,
    ;
    if first + offset < n {
        assert((first + offset) % n == first + offset) by (nonlinear_arith)
            requires
                0 <= first + offset < n,
        ;
    } else {
        assert((first + offset) % n == first + offset - n) by (nonlinear_arith)
            requires
                n <= first + offset < 2 * n,
        ;
    }
}

/// Law: a request that succeeds, or that fails for good, is over with that outcome; one that the
/// transport failed goes to the next replica while attempts are left. Whatever happens, just the
/// replica of the attempt is charged.
pub proof fn law_failed_attempts_move_on<N, T, E>(
    before: Failover,
    after: Failover,
    set: ReplicaSet<N>,
    charged: ReplicaSet<N>,
    ticket: QuotaTicket,
    outcome: Result<T, SessionError<E>>,
    step: FailoverStep<T, E>,
)
    requires
        before@.valid(),
        set.wf(),
        before@.replicas == set.replicas().len(),
        ticket.position() == before@.position(before@.offset),
        exists|request: &mut Failover, replicas: &mut ReplicaSet<N>|
            *request == before && *final(request) == after && *replicas == set && *final(replicas)
                == charged && #[trigger] call_ensures(
                Failover::after::<N, T, E>,
                (request, replicas, ticket, outcome),
                step,
            ),
    ensures
        ({
            let again = outcome is Err && before@.offset + 1 < before@.attempts && (
            outcome->Err_0 is Busy || outcome->Err_0 is Unavailable || outcome->Err_0 is Closed
                || outcome->Err_0 is Timeout || outcome->Err_0 is Io);
            &&& charged.replicas() == set.replicas()
            &&& charged.selector().current == set.selector().current
            &&& !again ==> after@ == before@ && step is Done && step->Done_0 == outcome
            &&& again ==> {
                &&& step is Retry
                &&& after@.offset == before@.offset + 1
                &&& after@.first == before@.first
                &&& (step->Retry_0).position() == before@.position(before@.offset + 1)
                &&& (step->Retry_0).position() != ticket.position()
            }
        }),
{
    if before@.offset + 1 < before@.attempts {
        law_failover_never_repeats_a_replica(before@, before@.offset, before@.offset + 1);
    }
    assert(ticket.may_charge(set.selector(), outcome is Ok, charged.selector()));
}

} // verus!
