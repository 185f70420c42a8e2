//! When a connection is tried again.
use crate::protocol::SessionProtocol;
use crate::session::driver::{fail_queued, DriveError, Driver};
use crate::session::handshake::Handshake;
use crate::session::options::{next_delay, NodeOptions};
use crate::session::shared::{Envelope, Shared};
use crate::time::Duration;
use vstd::prelude::*;

#[allow(unused_imports)]
use crate::completion::RequestToken;
#[allow(unused_imports)]
use crate::error::SessionError;
#[allow(unused_imports)]
use crate::session::driver::{
    failed_all, law_failure_answers_every_request, pending_tokens, queued_tokens, told_of, Pending,
};
#[allow(unused_imports)]
use crate::session::options::doubled;
#[allow(unused_imports)]
use crate::session::shared::{counted_up, SharedView};
#[allow(unused_imports)]
use crate::session::writes::WritesView;

verus! {

/// How long to wait before a connection is tried again.
pub struct Lifecycle {
    reconnect_delay: Duration,
}

impl View for Lifecycle {
    type V = u128;

    closed spec fn view(&self) -> u128 {
        self.reconnect_delay.nanos
    }
}

/// The shared state after a connection ends: every request on it or on its way to it is
/// answered, and the disconnect is counted unless nobody is left to care.
pub open spec fn ended<R, E>(
    shared: SharedView<R, E>,
    pending: Seq<RequestToken>,
    queued: Seq<RequestToken>,
    error: SessionError<E>,
    over: bool,
) -> SharedView<R, E> {
    let answered = failed_all(failed_all(shared.lost(), pending, error), queued, error);
    if over {
        answered
    } else {
        SharedView { disconnects: counted_up(answered.disconnects), ..answered }
    }
}

impl Lifecycle {
    /// The first wait is the shortest.
    pub fn new(options: &NodeOptions) -> (lifecycle: Self)
        ensures
            lifecycle@ == options.reconnect_delay.nanos,
    {
        Lifecycle { reconnect_delay: options.reconnect_delay }
    }

    /// Connecting or shaking hands failed: how long to wait. The next failure waits twice
    /// as long, up to the maximum.
    pub fn failed(&mut self, options: &NodeOptions) -> (wait: Duration)
        ensures
            wait.nanos == old(self)@,
            final(self)@ == doubled(old(self)@, options.max_reconnect_delay.nanos),
    {
        let wait = self.reconnect_delay;
        self.reconnect_delay = next_delay(wait, options.max_reconnect_delay);
        wait
    }

    /// A connection is established once its handshake is complete, and not before: from
    /// now on requests are accepted, and the next failure waits shortest again.
    pub fn established<R, E>(
        &mut self,
        options: &NodeOptions,
        handshake: &Handshake,
        shared: &mut Shared<R, E>,
    )
        requires
            handshake.done(),
            old(shared).wf(),
        ensures
            final(shared).wf(),
            final(shared)@ == old(shared)@.established(),
            final(self)@ == options.reconnect_delay.nanos,
    {
        self.reconnect_delay = options.reconnect_delay;
        shared.establish();
    }

    /// A connection ended: answers every request on it and on its way to it. Returns how
    /// long to wait before the next attempt, or `None` when every request handle is gone.
    pub fn ended<P: SessionProtocol>(
        &self,
        driver: &mut Driver<P>,
        shared: &mut Shared<P::Response, P::Error>,
        cause: DriveError<P::Error>,
        queued: Vec<Envelope<P::Request>>,
        handles_gone: bool,
    ) -> (wait: Option<Duration>)
        requires
            old(driver).wf(),
            old(shared).wf(),
        ensures
            final(driver).wf(),
            final(shared).wf(),
            final(driver).policy() == old(driver).policy(),
            final(driver).peer() == old(driver).peer(),
            final(driver).codec() == old(driver).codec(),
            final(driver).ring() == old(driver).ring(),
            final(driver).batched() == old(driver).batched(),
            wait is None <==> cause is Closed && handles_gone,
            wait matches Some(wait) ==> wait.nanos == self@,
            exists|error: SessionError<P::Error>|
                ({
                    &&& #[trigger] told_of(cause, old(driver).policy().request_timeout, error)
                    &&& final(shared)@ == ended(
                        old(shared)@,
                        pending_tokens(old(driver).waiting()),
                        queued_tokens(queued@),
                        error,
                        wait is None,
                    )
                }),
            final(driver).queue() == WritesView::<P::Frame>::idle(old(driver).queue().vectors),
            final(driver).waiting() == Seq::<Pending>::empty(),
    {
        let ghost tokens = queued_tokens(queued@);
        shared.lose();
        let closed = match &cause {
            DriveError::Closed => true,
            _ => false,
        };
        let timeout = driver.request_timeout();
        let error = cause.into_session_error(timeout);
        driver.fail_pending(shared, &error);
        fail_queued(shared, queued, &error);
        let over = closed && handles_gone;
        if !over {
            shared.count_disconnect();
        }
        assert(told_of(cause, timeout, error));
        assert(shared@ == ended(
            old(shared)@,
            pending_tokens(old(driver).waiting()),
            tokens,
            error,
            over,
        ));
        if over {
            None
        } else {
            Some(self.reconnect_delay)
        }
    }
}

/// Answers a request that arrived while there is no connection.
pub fn refuse<Q, R, E>(shared: &mut Shared<R, E>, envelope: Envelope<Q>)
    requires
        old(shared).wf(),
    ensures
        final(shared).wf(),
        final(shared)@ == old(shared)@.completed(envelope.token, Err(SessionError::Unavailable)),
{
    let _ = shared.complete(envelope.token, Err(SessionError::Unavailable));
}

/// Law: when a connection ends, no request on it or on its way to it is left without an
/// answer, and all others are left alone.
pub proof fn law_end_answers_every_request<R, E>(
    shared: SharedView<R, E>,
    pending: Seq<RequestToken>,
    queued: Seq<RequestToken>,
    error: SessionError<E>,
    over: bool,
    token: RequestToken,
)
    requires
        shared.table.slots.len() == 256,
        shared.table.current(token),
    ensures
        ({
            let after = ended(shared, pending, queued, error, over);
            let concerned = pending.contains(token) || queued.contains(token);
            &&& !after.connected
            &&& concerned ==> !after.table.owed(token)
            &&& concerned && shared.table.state(token) is Waiting ==> after.table.response(token)
                == Some(Err::<R, SessionError<E>>(error))
            &&& !concerned ==> after.table.state(token) == shared.table.state(token)
        }),
{
    let first = failed_all(shared.lost(), pending, error);
    law_failure_answers_every_request(shared.lost(), pending, error, token);
    law_failure_answers_every_request(first, queued, error, token);
    lemma_failing_keeps_the_rest(shared.lost(), pending, error);
    lemma_failing_keeps_the_rest(first, queued, error);
}

/// Answering requests touches nothing but the table.
proof fn lemma_failing_keeps_the_rest<R, E>(
    shared: SharedView<R, E>,
    tokens: Seq<RequestToken>,
    error: SessionError<E>,
)
    ensures
        failed_all(shared, tokens, error) == (SharedView {
            table: failed_all(shared, tokens, error).table,
            ..shared
        }),
    decreases tokens.len(),
{
    if tokens.len() > 0 {
        lemma_failing_keeps_the_rest(shared, tokens.drop_last(), error);
    }
}

/// Law: the end of a connection counts as a disconnect, unless it was the last handle that
/// ended it; the number of the connection and the count of those established stay.
pub proof fn law_disconnects_are_counted<R, E>(
    shared: SharedView<R, E>,
    pending: Seq<RequestToken>,
    queued: Seq<RequestToken>,
    error: SessionError<E>,
)
    ensures
        shared.disconnects < u64::MAX ==> ended(shared, pending, queued, error, false).disconnects
            == shared.disconnects + 1,
        ended(shared, pending, queued, error, true).disconnects == shared.disconnects,
        forall|over: bool|
            ({
                let after = #[trigger] ended(shared, pending, queued, error, over);
                &&& !after.connected
                &&& after.generation == shared.generation
                &&& after.successful == shared.successful
            }),
{
    let first = failed_all(shared.lost(), pending, error);
    lemma_failing_keeps_the_rest(shared.lost(), pending, error);
    lemma_failing_keeps_the_rest(first, queued, error);
}

/// Law: waits between attempts start with the shortest, and each failure that follows another
/// waits twice as long as that one did, up to the longest; once a connection is established,
/// the next failure waits shortest again.
pub proof fn law_waits_double_until_a_connection_holds<R, E>(
    options: NodeOptions,
    fresh: Lifecycle,
    once: Lifecycle,
    twice: Lifecycle,
    connected: Lifecycle,
    handshake: Handshake,
    before: Shared<R, E>,
    after: Shared<R, E>,
    first: Duration,
    second: Duration,
)
    requires
        options.reconnect_delay.nanos <= options.max_reconnect_delay.nanos,
        call_ensures(Lifecycle::new, (&options,), fresh),
        exists|lifecycle: &mut Lifecycle|
            *lifecycle == fresh && *final(lifecycle) == once && #[trigger] call_ensures(
                Lifecycle::failed,
                (lifecycle, &options),
                first,
            ),
        exists|lifecycle: &mut Lifecycle|
            *lifecycle == once && *final(lifecycle) == twice && #[trigger] call_ensures(
                Lifecycle::failed,
                (lifecycle, &options),
                second,
            ),
        exists|lifecycle: &mut Lifecycle, shared: &mut Shared<R, E>|
            *lifecycle == twice && *final(lifecycle) == connected && *shared == before
                && *final(shared) == after && #[trigger] call_ensures(
                Lifecycle::established::<R, E>,
                (lifecycle, &options, &handshake, shared),
                (),
            ),
    ensures
        first == options.reconnect_delay,
        2 * first.nanos <= options.max_reconnect_delay.nanos ==> second.nanos == 2 * first.nanos,
        2 * first.nanos > options.max_reconnect_delay.nanos ==> second.nanos
            == options.max_reconnect_delay.nanos,
        connected@ == fresh@,
        after@.connected,
        after@.table == before@.table,
{
}

} // verus!
