//! What one connection does with its requests and responses.
use crate::completion::RequestToken;
use crate::error::SessionError;
use crate::outside::{invalid_data, unexpected_eof, write_zero};
use crate::protocol::{Correlation, DecodedResponse, SessionProtocol};
use crate::rx::{RxBuffer, RxCapacityError};
use crate::session::options::{maintenance_jitter, NodeOptions};
use crate::session::shared::{Envelope, Outcome, Shared};
use crate::session::writes::WriteQueue;
use crate::source::Endpoint;
use crate::time::{Duration, Instant};
use std::collections::VecDeque;
use std::sync::Arc;
use vstd::prelude::*;

#[allow(unused_imports)]
use crate::completion::{slot_of, SlotState, TableView};
#[allow(unused_imports)]
use crate::protocol::Frame;
#[allow(unused_imports)]
use crate::rx::{law_reservation_makes_room, RxView};
#[allow(unused_imports)]
use crate::session::options::{endpoint_bytes, fnv_1a, RX_MAINTENANCE_INTERVAL_MILLIS};
#[allow(unused_imports)]
use crate::session::shared::SharedView;
#[allow(unused_imports)]
use crate::session::writes::WritesView;
#[allow(unused_imports)]
use crate::time::later;

verus! {

/// A request whose frame is written or being written, and when its response is due.
#[derive(Clone, Copy, Debug, PartialEq, Eq, Structural)]
pub struct Pending {
    pub token: RequestToken,
    pub deadline: Instant,
}

/// Why a connection cannot go on.
#[derive(Debug)]
pub enum DriveError<E> {
    /// The socket failed.
    Io(std::io::Error),
    /// The peer closed the connection.
    UnexpectedEof,
    /// The socket took no bytes.
    WriteZero,
    /// A response does not fit in the receive ring.
    Overflow(RxCapacityError),
    /// The protocol failed.
    Protocol(E),
    /// The oldest request missed its deadline.
    Timeout,
    /// Every request handle is gone.
    Closed,
    /// A response arrived that no request waits for.
    UnexpectedResponse,
}

/// How reading from a socket ended.
#[derive(Clone, Copy, Debug, PartialEq, Eq, Structural)]
pub enum DrainOutcome {
    /// Everything that had arrived was read.
    Drained,
    /// The receive ring has no room left.
    Full,
    /// The peer closed the connection.
    Eof,
}

/// What came from a socket.
#[derive(Clone, Copy, Debug, PartialEq, Eq, Structural)]
pub enum SocketRead {
    /// Bytes for requests that wait for responses.
    Response(DrainOutcome),
    /// The end of a connection on which nothing was expected.
    IdleEof,
    /// Bytes on a connection on which nothing was expected.
    IdleData,
}

/// What happens to a connection.
#[derive(Debug)]
pub enum LinkEvent {
    /// The deadline of the oldest request has passed. Without a request that waits this
    /// means nothing.
    TimedOut,
    /// Something came from the socket.
    Read(SocketRead),
    /// The socket took so many bytes.
    Written(usize),
    /// The socket failed.
    Failed(std::io::Error),
    /// A batch of requests is complete.
    Batched,
    /// Every request handle is gone.
    HandlesGone,
    /// It is time to check the receive ring.
    Maintenance,
}

/// What one attempt to read brought.
#[derive(Clone, Copy, Debug, PartialEq, Eq, Structural)]
pub enum ReadStep {
    /// So many bytes; none at the end of the stream.
    Bytes(usize),
    /// Nothing has arrived.
    WouldBlock,
}

/// Requests without the first that has this identifier.
pub open spec fn without_first(pending: Seq<Pending>, token: RequestToken) -> Seq<Pending>
    decreases pending.len(),
{
    if pending.len() == 0 {
        pending
    } else if pending[0].token == token {
        pending.drop_first()
    } else {
        seq![pending[0]] + without_first(pending.drop_first(), token)
    }
}

/// The requests of one connection, from admission to response.
#[verifier::ext_equal]
pub struct LinkView<R, E, F: Frame> {
    pub shared: SharedView<R, E>,
    pub writes: WritesView<F>,
    pub pending: Seq<Pending>,
}

impl<R, E, F: Frame> LinkView<R, E, F> {
    /// The link after the outcome of one request is reported.
    pub open spec fn completed(self, token: RequestToken, outcome: Outcome<R, E>) -> Self {
        LinkView { shared: self.shared.completed(token, outcome), ..self }
    }

    /// The link after one request is encoded: its frame is queued and its response is
    /// awaited, or the request is answered with what went wrong.
    pub open spec fn encoded(
        self,
        token: RequestToken,
        encoded: Result<F, Arc<E>>,
        deadline: Instant,
    ) -> Self {
        match encoded {
            Ok(frame) => if frame.wire().len() > 0 {
                LinkView {
                    writes: self.writes.pushed(frame),
                    pending: self.pending.push(Pending { token, deadline }),
                    ..self
                }
            } else {
                self.completed(token, Err(SessionError::EmptyRequestFrame))
            },
            Err(error) => self.completed(token, Err(SessionError::Protocol(error))),
        }
    }

    /// The link after several requests are encoded. One that was meant for an earlier
    /// connection is answered and never encoded.
    pub open spec fn encoded_all<Q>(
        self,
        batch: Seq<Envelope<Q>>,
        encoded: Seq<Result<F, Arc<E>>>,
        deadline: Instant,
    ) -> Self
        decreases batch.len(),
    {
        if batch.len() == 0 {
            self
        } else {
            let before = self.encoded_all(batch.drop_last(), encoded, deadline);
            let envelope = batch.last();
            if envelope.connection_generation != self.shared.generation {
                before.completed(envelope.token, Err(SessionError::Unavailable))
            } else {
                before.encoded(envelope.token, encoded[batch.len() - 1], deadline)
            }
        }
    }

    /// Whether a response can be matched with a request: an untagged one needs a request
    /// that waits.
    pub open spec fn accepts(self, correlation: Correlation) -> bool {
        correlation == Correlation::Fifo ==> self.pending.len() > 0
    }

    /// The link after one response: an untagged one answers the oldest request, a tagged
    /// one the request that it names.
    pub open spec fn routed(self, decoded: DecodedResponse<R>) -> Self {
        match decoded.correlation {
            Correlation::Fifo => LinkView {
                pending: self.pending.drop_first(),
                ..self.completed(self.pending[0].token, Ok(decoded.response))
            },
            Correlation::Tagged(token) => LinkView {
                pending: without_first(self.pending, token),
                ..self.completed(token, Ok(decoded.response))
            },
        }
    }

    /// The link after several responses.
    pub open spec fn routed_all(self, responses: Seq<DecodedResponse<R>>) -> Self
        decreases responses.len(),
    {
        if responses.len() == 0 {
            self
        } else {
            self.routed_all(responses.drop_last()).routed(responses.last())
        }
    }

    /// Whether each of several responses can be matched in its turn.
    pub open spec fn accepts_all(self, responses: Seq<DecodedResponse<R>>) -> bool
        decreases responses.len(),
    {
        responses.len() > 0 ==> self.accepts_all(responses.drop_last()) && self.routed_all(
            responses.drop_last(),
        ).accepts(responses.last().correlation)
    }
}

/// The shared state after several requests are answered with one error.
pub open spec fn failed_all<R, E>(
    shared: SharedView<R, E>,
    tokens: Seq<RequestToken>,
    error: SessionError<E>,
) -> SharedView<R, E>
    decreases tokens.len(),
{
    if tokens.len() == 0 {
        shared
    } else {
        failed_all(shared, tokens.drop_last(), error).completed(tokens.last(), Err(error))
    }
}

/// The identifiers of the requests that wait for responses.
pub open spec fn pending_tokens(pending: Seq<Pending>) -> Seq<RequestToken> {
    pending.map_values(|request: Pending| request.token)
}

/// The identifiers of requests on their way to the connection.
pub open spec fn queued_tokens<Q>(queued: Seq<Envelope<Q>>) -> Seq<RequestToken> {
    queued.map_values(|envelope: Envelope<Q>| envelope.token)
}

/// What the codec returned, its error not yet shared.
pub open spec fn unshared<F, E>(encoded: Result<F, Arc<E>>) -> Result<F, E> {
    match encoded {
        Ok(frame) => Ok(frame),
        Err(error) => Err(*error),
    }
}

/// Whether the codec may turn from `before` into `after` and give `encoded` for a request.
/// One that was meant for another connection never reaches the codec.
pub open spec fn encodes<P: SessionProtocol>(
    envelope: Envelope<P::Request>,
    generation: u64,
    before: P,
    after: P,
    encoded: Result<P::Frame, Arc<P::Error>>,
) -> bool {
    if envelope.connection_generation != generation {
        after == before
    } else {
        before.may_encode(after, envelope.request, envelope.token, unshared(encoded))
    }
}

/// Whether the codec may give `encoded` for several requests, one after the other, and pass
/// through these states.
pub open spec fn encodes_all<P: SessionProtocol>(
    batch: Seq<Envelope<P::Request>>,
    generation: u64,
    codecs: Seq<P>,
    encoded: Seq<Result<P::Frame, Arc<P::Error>>>,
) -> bool {
    &&& encoded.len() == batch.len()
    &&& codecs.len() == batch.len() + 1
    &&& forall|i: int|
        0 <= i < batch.len() ==> encodes(
            batch[i],
            generation,
            codecs[i],
            codecs[i + 1],
            #[trigger] encoded[i],
        )
}

/// The codec, the ring and the requests of one connection.
pub struct LinkState<P: SessionProtocol> {
    pub codec: P,
    pub ring: RxView,
    pub link: LinkView<P::Response, P::Error, P::Frame>,
}

/// Responses that come out of the ring one after the other, with the codec and the ring
/// before the first and after each of them.
pub struct Decoding<P: SessionProtocol> {
    pub codecs: Seq<P>,
    pub rings: Seq<RxView>,
    pub responses: Seq<DecodedResponse<P::Response>>,
}

impl<P: SessionProtocol> Decoding<P> {
    /// Each response is one that the codec may take out of the ring.
    pub open spec fn valid(self) -> bool {
        &&& self.codecs.len() == self.responses.len() + 1
        &&& self.rings.len() == self.responses.len() + 1
        &&& forall|i: int|
            0 <= i < self.responses.len() ==> self.codecs[i].may_decode(
                self.codecs[i + 1],
                self.rings[i],
                self.rings[i + 1],
                Ok(Some(#[trigger] self.responses[i])),
            )
    }

    /// The run with one more response.
    pub open spec fn longer(self, codec: P, ring: RxView, response: DecodedResponse<P::Response>) -> Self {
        Decoding {
            codecs: self.codecs.push(codec),
            rings: self.rings.push(ring),
            responses: self.responses.push(response),
        }
    }

    /// Whether the run leads from `before` to `after` and ends with `decoded`: it goes on
    /// until the codec finds no complete response, fails, or gives a response that no
    /// request waits for.
    pub open spec fn leads(
        self,
        before: LinkState<P>,
        after: LinkState<P>,
        decoded: Result<(), DriveError<P::Error>>,
    ) -> bool {
        &&& self.valid()
        &&& self.codecs[0] == before.codec
        &&& self.rings[0] == before.ring
        &&& match decoded {
            Ok(_) => {
                &&& before.link.accepts_all(self.responses)
                &&& after.link == before.link.routed_all(self.responses)
                &&& self.codecs.last().may_decode(
                    after.codec,
                    self.rings.last(),
                    after.ring,
                    Ok(None),
                )
            },
            Err(DriveError::Protocol(error)) => {
                &&& before.link.accepts_all(self.responses)
                &&& after.link == before.link.routed_all(self.responses)
                &&& self.codecs.last().may_decode(
                    after.codec,
                    self.rings.last(),
                    after.ring,
                    Err(error),
                )
            },
            Err(DriveError::UnexpectedResponse) => {
                &&& self.responses.len() > 0
                &&& before.link.accepts_all(self.responses.drop_last())
                &&& after.link == before.link.routed_all(self.responses.drop_last())
                &&& !after.link.accepts(self.responses.last().correlation)
                &&& after.codec == self.codecs.last()
                &&& after.ring == self.rings.last()
            },
            Err(_) => false,
        }
    }
}

/// Whether decoding may lead from `before` to `after` and end with `decoded`.
pub open spec fn decodes<P: SessionProtocol>(
    before: LinkState<P>,
    after: LinkState<P>,
    decoded: Result<(), DriveError<P::Error>>,
) -> bool {
    exists|run: Decoding<P>| #[trigger] run.leads(before, after, decoded)
}

/// Whether encoding a batch may lead from `before` to `after`.
pub open spec fn encodes_batch<P: SessionProtocol>(
    before: LinkState<P>,
    after: LinkState<P>,
    batch: Seq<Envelope<P::Request>>,
    deadline: Instant,
) -> bool {
    &&& after.ring == before.ring
    &&& exists|codecs: Seq<P>, encoded: Seq<Result<P::Frame, Arc<P::Error>>>|
        ({
            &&& #[trigger] encodes_all(batch, before.link.shared.generation, codecs, encoded)
            &&& codecs[0] == before.codec
            &&& codecs.last() == after.codec
            &&& after.link == before.link.encoded_all(batch, encoded, deadline)
        })
}

/// Whether a ring may be settled so after a read that ended with `outcome`.
pub open spec fn settles<E>(
    before: RxView,
    after: RxView,
    outcome: DrainOutcome,
    settled: Result<(), DriveError<E>>,
) -> bool {
    match settled {
        Ok(_) => before.may_settle(after) && outcome != DrainOutcome::Eof,
        Err(DriveError::Overflow(limit)) => {
            &&& before.may_collect(after)
            &&& after.capacity > 0 && after.available() == 0
            &&& limit.maximum == before.maximum
            &&& limit.required == before.unread.len() + 1
            &&& limit.required > limit.maximum
        },
        Err(error) => {
            &&& before.may_settle(after)
            &&& outcome == DrainOutcome::Eof
            &&& error is UnexpectedEof
        },
    }
}

/// Whether taking in what came from the socket may lead from `before` to `after`: responses
/// are decoded and matched, and then the ring is settled.
pub open spec fn takes_in<P: SessionProtocol>(
    before: LinkState<P>,
    after: LinkState<P>,
    read: SocketRead,
    gone_on: Result<(), DriveError<P::Error>>,
) -> bool {
    match read {
        SocketRead::IdleEof => {
            &&& after == before
            &&& gone_on == Err::<(), DriveError<P::Error>>(DriveError::UnexpectedEof)
        },
        SocketRead::IdleData => {
            &&& after == before
            &&& gone_on == Err::<(), DriveError<P::Error>>(DriveError::UnexpectedResponse)
        },
        SocketRead::Response(outcome) => exists|
            between: LinkState<P>,
            decoded: Result<(), DriveError<P::Error>>,
        |
            ({
                &&& #[trigger] decodes(before, between, decoded)
                &&& match decoded {
                    Ok(_) => {
                        &&& after.codec == between.codec
                        &&& after.link == between.link
                        &&& settles(between.ring, after.ring, outcome, gone_on)
                    },
                    Err(_) => after == between && gone_on == decoded,
                }
            }),
    }
}

/// Whether this is the error for a connection that the peer closed.
pub closed spec fn is_eof(error: std::io::Error) -> bool {
    call_ensures(unexpected_eof, (), error)
}

/// Whether this is the error for a socket that took no bytes.
pub closed spec fn is_write_zero(error: std::io::Error) -> bool {
    call_ensures(write_zero, (), error)
}

/// Whether this is the error for unusable data, with this message.
pub closed spec fn is_invalid_data(error: std::io::Error, message: Seq<char>) -> bool {
    exists|text: String| text@ == message && #[trigger] call_ensures(invalid_data, (text,), error)
}

/// Whether this is what requests are told about the end of a connection.
pub open spec fn told_of<E>(
    cause: DriveError<E>,
    request_timeout: Duration,
    error: SessionError<E>,
) -> bool {
    match cause {
        DriveError::Io(source) => error matches SessionError::Io(shared) && *shared == source,
        DriveError::UnexpectedEof => error matches SessionError::Io(shared) && is_eof(*shared),
        DriveError::WriteZero => error matches SessionError::Io(shared) && is_write_zero(*shared),
        DriveError::Overflow(limit) => error matches SessionError::Io(shared) && is_invalid_data(
            *shared,
            limit.words(),
        ),
        DriveError::Protocol(source) => error matches SessionError::Protocol(shared) && *shared
            == source,
        DriveError::Timeout => error == SessionError::<E>::Timeout { timeout: request_timeout },
        DriveError::Closed => error is Closed,
        DriveError::UnexpectedResponse => error is UnexpectedResponse,
    }
}

impl<E> DriveError<E> {
    /// What the requests of the connection are told.
    pub fn into_session_error(self, request_timeout: Duration) -> (error: SessionError<E>)
        ensures
            told_of(self, request_timeout, error),
            self is Timeout <==> error is Timeout,
            error matches SessionError::Timeout { timeout } ==> timeout == request_timeout,
            self is Closed <==> error is Closed,
            self is UnexpectedResponse <==> error is UnexpectedResponse,
            self is Protocol <==> error is Protocol,
            self matches DriveError::Protocol(source) ==> *error->Protocol_0 == source,
            self is Io || self is UnexpectedEof || self is WriteZero || self is Overflow
                <==> error is Io,
            self matches DriveError::Io(source) ==> *error->Io_0 == source,
    {
        match self {
            DriveError::Io(source) => SessionError::Io(Arc::new(source)),
            DriveError::UnexpectedEof => {
                let source = unexpected_eof();
                assert(is_eof(source));
                SessionError::Io(Arc::new(source))
            },
            DriveError::WriteZero => {
                let source = write_zero();
                assert(is_write_zero(source));
                SessionError::Io(Arc::new(source))
            },
            DriveError::Overflow(limit) => {
                let source = invalid_data(limit.message());
                assert(is_invalid_data(source, limit.words()));
                SessionError::Io(Arc::new(source))
            },
            DriveError::Protocol(source) => SessionError::Protocol(Arc::new(source)),
            DriveError::Timeout => SessionError::Timeout { timeout: request_timeout },
            DriveError::Closed => SessionError::Closed,
            DriveError::UnexpectedResponse => SessionError::UnexpectedResponse,
        }
    }
}

/// Answers requests that never reached the connection.
pub fn fail_queued<Q, R, E>(
    shared: &mut Shared<R, E>,
    queued: Vec<Envelope<Q>>,
    error: &SessionError<E>,
)
    requires
        old(shared).wf(),
    ensures
        final(shared).wf(),
        final(shared)@ == failed_all(old(shared)@, queued_tokens(queued@), *error),
{
    let ghost tokens = queued_tokens(queued@);
    let mut at: usize = 0;
    assert(tokens.take(0) =~= Seq::<RequestToken>::empty());
    while at < queued.len()
        invariant
            at <= queued@.len(),
            tokens == queued_tokens(queued@),
            shared.wf(),
            shared@ == failed_all(old(shared)@, tokens.take(at as int), *error),
        decreases queued@.len() - at,
    {
        assert(tokens.take(at + 1).drop_last() =~= tokens.take(at as int));
        let _ = shared.complete(queued[at].token, Err(error.clone()));
        at = at + 1;
    }
    assert(tokens.take(at as int) =~= tokens);
}

/// What a read on an idle connection means.
pub fn idle_outcome(bytes: usize) -> (outcome: SocketRead)
    ensures
        outcome == if bytes == 0 {
            SocketRead::IdleEof
        } else {
            SocketRead::IdleData
        },
{
    if bytes == 0 {
        SocketRead::IdleEof
    } else {
        SocketRead::IdleData
    }
}

/// Makes the receive ring ready for reads; says so when it has no room.
pub fn begin_drain(buffer: &mut RxBuffer) -> (outcome: Result<Option<DrainOutcome>, RxCapacityError>)
    requires
        old(buffer).wf(),
    ensures
        final(buffer).wf(),
        old(buffer)@.may_prepare(final(buffer)@),
        outcome == Ok::<Option<DrainOutcome>, RxCapacityError>(
            if final(buffer)@.available() == 0 {
                Some(DrainOutcome::Full)
            } else {
                None
            },
        ),
{
    match buffer.prepare_read() {
        Ok(_) => {},
        Err(error) => {
            return Err(error);
        },
    }
    if buffer.available() == 0 {
        Ok(Some(DrainOutcome::Full))
    } else {
        Ok(None)
    }
}

/// How reading ended, if it ended with this step.
pub fn after_read(buffer: &RxBuffer, step: ReadStep) -> (outcome: Option<DrainOutcome>)
    requires
        buffer.wf(),
    ensures
        outcome == match step {
            ReadStep::WouldBlock => Some(DrainOutcome::Drained),
            ReadStep::Bytes(count) => if count == 0 {
                Some(DrainOutcome::Eof)
            } else if buffer@.available() == 0 {
                Some(DrainOutcome::Full)
            } else {
                None
            },
        },
{
    match step {
        ReadStep::WouldBlock => Some(DrainOutcome::Drained),
        ReadStep::Bytes(count) => if count == 0 {
            Some(DrainOutcome::Eof)
        } else if buffer.available() == 0 {
            Some(DrainOutcome::Full)
        } else {
            None
        },
    }
}

/// The state of one connection.
pub struct Driver<P: SessionProtocol> {
    endpoint: Endpoint,
    protocol: P,
    options: NodeOptions,
    read_buffer: RxBuffer,
    writes: WriteQueue<P::Frame>,
    batch: VecDeque<Envelope<P::Request>>,
    pending: VecDeque<Pending>,
}

impl<P: SessionProtocol> Driver<P> {
    /// The ring and the write queue are consistent, and the options are usable.
    pub closed spec fn wf(&self) -> bool {
        &&& self.read_buffer.wf()
        &&& self.writes@.valid()
        &&& self.options.complaint() is None
    }

    /// Where the connection leads.
    pub closed spec fn peer(&self) -> Endpoint {
        self.endpoint
    }

    /// The options of the connection.
    pub closed spec fn policy(&self) -> NodeOptions {
        self.options
    }

    /// The protocol.
    pub closed spec fn codec(&self) -> P {
        self.protocol
    }

    /// The receive ring.
    pub closed spec fn ring(&self) -> RxView {
        self.read_buffer@
    }

    /// Requests that are about to be encoded.
    pub closed spec fn batched(&self) -> Seq<Envelope<P::Request>> {
        self.batch@
    }

    /// The frames that wait for the socket.
    pub closed spec fn queue(&self) -> WritesView<P::Frame> {
        self.writes@
    }

    /// The requests that wait for responses, oldest first.
    pub closed spec fn waiting(&self) -> Seq<Pending> {
        self.pending@
    }

    /// The requests of the connection.
    pub open spec fn link(&self, shared: SharedView<P::Response, P::Error>) -> LinkView<P::Response, P::Error, P::Frame> {
        LinkView { shared, writes: self.queue(), pending: self.waiting() }
    }

    /// The codec, the ring and the requests.
    pub open spec fn state(&self, shared: SharedView<P::Response, P::Error>) -> LinkState<P> {
        LinkState { codec: self.codec(), ring: self.ring(), link: self.link(shared) }
    }

    /// The state of a connection before it is first established.
    pub fn new(endpoint: Endpoint, protocol: P, options: NodeOptions) -> (driver: Self)
        requires
            options.complaint() is None,
        ensures
            driver.wf(),
            driver.policy() == options,
            driver.peer() == endpoint,
            driver.codec() == protocol,
            driver.ring() == RxView::unused(
                options.read_buffer_capacity as nat,
                options.max_read_buffer_capacity as nat,
            ),
            driver.batched() == Seq::<Envelope<P::Request>>::empty(),
            driver.queue() == WritesView::<P::Frame>::idle(options.write_batch as nat),
            driver.waiting() == Seq::<Pending>::empty(),
    {
        Driver {
            endpoint,
            protocol,
            options,
            read_buffer: RxBuffer::new(
                options.read_buffer_capacity,
                options.max_read_buffer_capacity,
            ),
            writes: WriteQueue::new(options.write_batch),
            batch: VecDeque::with_capacity(options.write_batch),
            pending: VecDeque::new(),
        }
    }

    /// Prepares codec and ring for a new connection.
    pub fn begin(&mut self)
        requires
            old(self).wf(),
        ensures
            final(self).wf(),
            final(self).policy() == old(self).policy(),
            final(self).peer() == old(self).peer(),
            exists|codec: &mut P|
                *codec == old(self).codec() && *final(codec) == final(self).codec()
                    && #[trigger] call_ensures(P::reset, (codec,), ()),
            final(self).ring() == old(self).ring().forgotten(),
            final(self).batched() == old(self).batched(),
            final(self).queue() == old(self).queue(),
            final(self).waiting() == old(self).waiting(),
    {
        self.protocol.reset();
        self.read_buffer.reset();
    }

    /// How long a response may take.
    pub fn request_timeout(&self) -> (timeout: Duration)
        ensures
            timeout == self.policy().request_timeout,
    {
        self.options.request_timeout
    }

    /// When the oldest request misses its deadline, if any request waits.
    pub fn deadline(&self) -> (deadline: Option<Instant>)
        ensures
            deadline == if self.waiting().len() > 0 {
                Some(self.waiting()[0].deadline)
            } else {
                None::<Instant>
            },
    {
        if self.pending.len() > 0 {
            Some(self.pending[0].deadline)
        } else {
            None
        }
    }

    /// When the receive ring is first checked.
    pub fn first_maintenance(&self, now: Instant) -> (at: Instant)
        ensures
            at.nanos == later(
                now.nanos,
                ((fnv_1a(endpoint_bytes(self.peer())) % RX_MAINTENANCE_INTERVAL_MILLIS)
                    * 1_000_000) as u128,
            ),
    {
        now.plus(maintenance_jitter(self.endpoint))
    }

    /// Takes a request in; returns whether more may join the batch.
    pub fn accept(&mut self, envelope: Envelope<P::Request>) -> (room: bool)
        requires
            old(self).wf(),
        ensures
            final(self).wf(),
            final(self).policy() == old(self).policy(),
            final(self).peer() == old(self).peer(),
            final(self).codec() == old(self).codec(),
            final(self).ring() == old(self).ring(),
            final(self).batched() == old(self).batched().push(envelope),
            room == (final(self).batched().len() < old(self).policy().write_batch),
            final(self).queue() == old(self).queue(),
            final(self).waiting() == old(self).waiting(),
    {
        self.batch.push_back(envelope);
        self.batch.len() < self.options.write_batch
    }

    /// Takes the encoded form of one request: queues its frame, or answers the request
    /// with what went wrong.
    pub fn enqueue_encoded(
        &mut self,
        shared: &mut Shared<P::Response, P::Error>,
        token: RequestToken,
        encoded: Result<P::Frame, Arc<P::Error>>,
        now: Instant,
    )
        requires
            old(self).wf(),
            old(shared).wf(),
        ensures
            final(self).wf(),
            final(shared).wf(),
            final(self).policy() == old(self).policy(),
            final(self).peer() == old(self).peer(),
            final(self).codec() == old(self).codec(),
            final(self).ring() == old(self).ring(),
            final(self).batched() == old(self).batched(),
            final(self).link(final(shared)@) == old(self).link(old(shared)@).encoded(
                token,
                encoded,
                (Instant { nanos: later(now.nanos, old(self).policy().request_timeout.nanos) }),
            ),
            ({
                let before = old(self).waiting();
                let after = final(self).waiting();
                let limit = now.nanos + old(self).policy().request_timeout.nanos;
                let sent = encoded is Ok && encoded->Ok_0.wire().len() > 0;
                &&& !sent ==> after == before
                &&& sent ==> after.len() == before.len() + 1 && after[before.len() as int].token
                    == token && after[before.len() as int].deadline.nanos == if limit <= u128::MAX {
                    limit
                } else {
                    u128::MAX as int
                }
                &&& forall|i: int| 0 <= i < before.len() ==> #[trigger] after[i] == before[i]
            }),
    {
        match encoded {
            Ok(frame) => {
                if self.writes.push(frame) {
                    let deadline = now.plus(self.options.request_timeout);
                    self.pending.push_back(Pending { token, deadline });
                } else {
                    let _ = shared.complete(token, Err(SessionError::EmptyRequestFrame));
                }
            },
            Err(error) => {
                let _ = shared.complete(token, Err(SessionError::Protocol(error)));
            },
        }
    }

    /// Encodes the batched requests. What each is encoded to is the protocol's choice.
    pub fn encode_batch(&mut self, shared: &mut Shared<P::Response, P::Error>, now: Instant)
        requires
            old(self).wf(),
            old(shared).wf(),
        ensures
            final(self).wf(),
            final(shared).wf(),
            final(self).policy() == old(self).policy(),
            final(self).peer() == old(self).peer(),
            final(self).batched() == Seq::<Envelope<P::Request>>::empty(),
            encodes_batch(
                old(self).state(old(shared)@),
                final(self).state(final(shared)@),
                old(self).batched(),
                (Instant { nanos: later(now.nanos, old(self).policy().request_timeout.nanos) }),
            ),
            ({
                let before = old(self).waiting();
                let after = final(self).waiting();
                let limit = now.nanos + old(self).policy().request_timeout.nanos;
                &&& after.len() >= before.len()
                &&& forall|i: int| 0 <= i < before.len() ==> #[trigger] after[i] == before[i]
                &&& forall|i: int|
                    before.len() <= i < after.len() ==> (#[trigger] after[i]).deadline.nanos
                        == if limit <= u128::MAX {
                        limit
                    } else {
                        u128::MAX as int
                    }
            }),
    {
        let ghost start = self.link(shared@);
        let ghost all = self.batched();
        let ghost deadline = Instant {
            nanos: later(now.nanos, self.policy().request_timeout.nanos),
        };
        let ghost mut encoded: Seq<Result<P::Frame, Arc<P::Error>>> = Seq::empty();
        let ghost mut codecs: Seq<P> = seq![self.codec()];
        let ghost mut done: int = 0;
        assert(all.take(0) =~= Seq::<Envelope<P::Request>>::empty());
        assert(all.skip(0) =~= all);
        while self.batch.len() > 0
            invariant
                0 <= done <= all.len(),
                encodes_all(all.take(done), start.shared.generation, codecs, encoded),
                codecs[0] == old(self).codec(),
                codecs.last() == self.codec(),
                self.wf(),
                shared.wf(),
                self.policy() == old(self).policy(),
                self.peer() == old(self).peer(),
                self.ring() == old(self).ring(),
                self.batched() == all.skip(done),
                deadline == (Instant {
                    nanos: later(now.nanos, old(self).policy().request_timeout.nanos),
                }),
                shared@.generation == start.shared.generation,
                self.link(shared@) == start.encoded_all(all.take(done), encoded, deadline),
            decreases self.batch@.len(),
        {
            let ghost before = self.link(shared@);
            assert(all.take(done + 1).drop_last() =~= all.take(done));
            if let Some(envelope) = self.batch.pop_front() {
                assert(self.batched() =~= all.skip(done + 1));
                assert(envelope == all[done]);
                let ghost mut result: Result<P::Frame, Arc<P::Error>> = Err(arbitrary());
                if envelope.connection_generation != shared.generation() {
                    let _ = shared.complete(envelope.token, Err(SessionError::Unavailable));
                } else {
                    let frame = match self.protocol.encode(envelope.request, envelope.token) {
                        Ok(frame) => Ok(frame),
                        Err(error) => Err(Arc::new(error)),
                    };
                    proof {
                        result = frame;
                    }
                    self.enqueue_encoded(shared, envelope.token, frame, now);
                }
                proof {
                    let longer = encoded.push(result);
                    lemma_encoded_prefix(start, all.take(done), encoded, longer, deadline);
                    encoded = longer;
                    codecs = codecs.push(self.codec());
                    done = done + 1;
                    assert(all.take(done).last() == envelope);
                }
            }
        }
        assert(all.take(done) =~= all);
        assert(encodes_all(all, old(self).state(old(shared)@).link.shared.generation, codecs, encoded));
        assert(self.batched() =~= Seq::<Envelope<P::Request>>::empty());
        proof {
            let sent = law_batches_are_sent_in_order(start, all, encoded, deadline);
            assert forall|i: int|
                start.pending.len() <= i < self.waiting().len() implies (
            #[trigger] self.waiting()[i]).deadline == deadline by {
                let k = i - start.pending.len();
                assert(self.link(shared@).pending[start.pending.len() + k] == (Pending {
                    token: all[sent[k]].token,
                    deadline,
                }));
            }
        }
    }

    /// Matches one response with its request.
    pub fn route_response(
        &mut self,
        shared: &mut Shared<P::Response, P::Error>,
        decoded: DecodedResponse<P::Response>,
    ) -> (routed: Result<(), DriveError<P::Error>>)
        requires
            old(self).wf(),
            old(shared).wf(),
        ensures
            final(self).wf(),
            final(shared).wf(),
            final(self).policy() == old(self).policy(),
            final(self).peer() == old(self).peer(),
            final(self).codec() == old(self).codec(),
            final(self).ring() == old(self).ring(),
            final(self).batched() == old(self).batched(),
            match routed {
                Ok(_) => {
                    &&& old(self).link(old(shared)@).accepts(decoded.correlation)
                    &&& final(self).link(final(shared)@) == old(self).link(old(shared)@).routed(
                        decoded,
                    )
                },
                Err(error) => {
                    &&& !old(self).link(old(shared)@).accepts(decoded.correlation)
                    &&& error is UnexpectedResponse
                    &&& final(self).link(final(shared)@) == old(self).link(old(shared)@)
                },
            },
    {
        match decoded.correlation {
            Correlation::Fifo => {
                let request = match self.pending.pop_front() {
                    Some(request) => request,
                    None => {
                        return Err(DriveError::UnexpectedResponse);
                    },
                };
                let _ = shared.complete(request.token, Ok(decoded.response));
                assert(self.pending@ =~= old(self).pending@.drop_first());
                Ok(())
            },
            Correlation::Tagged(token) => {
                self.forget(token);
                let _ = shared.complete(token, Ok(decoded.response));
                Ok(())
            },
        }
    }

    /// Drops the first waiting request that has this identifier.
    fn forget(&mut self, token: RequestToken)
        requires
            old(self).wf(),
        ensures
            final(self).wf(),
            final(self).policy() == old(self).policy(),
            final(self).peer() == old(self).peer(),
            final(self).codec() == old(self).codec(),
            final(self).ring() == old(self).ring(),
            final(self).batched() == old(self).batched(),
            final(self).queue() == old(self).queue(),
            final(self).waiting() == without_first(old(self).waiting(), token),
    {
        let ghost all = self.pending@;
        let mut at: usize = 0;
        assert(all.skip(0) =~= all);
        assert(all.take(0) + without_first(all, token) =~= without_first(all, token));
        while at < self.pending.len()
            invariant
                at <= all.len(),
                self.wf(),
                *self == *old(self),
                all == self.pending@,
                without_first(all, token) == all.take(at as int) + without_first(
                    all.skip(at as int),
                    token,
                ),
            decreases all.len() - at,
        {
            let ghost rest = all.skip(at as int);
            assert(rest[0] == all[at as int]);
            assert(rest.drop_first() =~= all.skip(at + 1));
            if self.pending[at].token.raw == token.raw {
                let _ = self.pending.remove(at);
                assert(self.pending@ =~= all.take(at as int) + all.skip(at + 1));
                return ;
            }
            assert(all.take(at as int) + (seq![rest[0]] + without_first(rest.drop_first(), token))
                =~= all.take(at + 1) + without_first(all.skip(at + 1), token));
            at = at + 1;
        }
        assert(all.skip(at as int) =~= Seq::<Pending>::empty());
        assert(without_first(all, token) =~= all);
    }

    /// Decodes responses until the ring holds no complete one, and matches each with its
    /// request. Which responses those are is the protocol's choice.
    pub fn decode_responses(&mut self, shared: &mut Shared<P::Response, P::Error>) -> (decoded:
        Result<(), DriveError<P::Error>>)
        requires
            old(self).wf(),
            old(shared).wf(),
        ensures
            final(self).wf(),
            final(shared).wf(),
            final(self).policy() == old(self).policy(),
            final(self).peer() == old(self).peer(),
            final(self).batched() == old(self).batched(),
            decodes(
                old(self).state(old(shared)@),
                final(self).state(final(shared)@),
                decoded,
            ),
    {
        let ghost start = self.state(shared@);
        let ghost mut run: Decoding<P> = Decoding {
            codecs: seq![self.codec()],
            rings: seq![self.ring()],
            responses: Seq::empty(),
        };
        loop
            invariant
                self.wf(),
                shared.wf(),
                self.policy() == old(self).policy(),
                self.peer() == old(self).peer(),
                self.batched() == old(self).batched(),
                start == old(self).state(old(shared)@),
                run.valid(),
                run.codecs[0] == start.codec,
                run.rings[0] == start.ring,
                run.codecs.last() == self.codec(),
                run.rings.last() == self.ring(),
                start.link.accepts_all(run.responses),
                self.link(shared@) == start.link.routed_all(run.responses),
            decreases self.ring().unread.len(),
        {
            let ghost link = self.link(shared@);
            let next = match self.protocol.decode(&mut self.read_buffer) {
                Ok(next) => next,
                Err(error) => {
                    assert(self.link(shared@) == link);
                    let failed = Err(DriveError::Protocol(error));
                    assert(run.leads(start, self.state(shared@), failed));
                    return failed;
                },
            };
            assert(self.link(shared@) == link);
            match next {
                None => {
                    assert(run.leads(start, self.state(shared@), Ok(())));
                    return Ok(());
                },
                Some(response) => {
                    let ghost less = run;
                    proof {
                        run = less.longer(self.codec(), self.ring(), response);
                        assert(run.responses.drop_last() =~= less.responses);
                        assert(run.valid()) by {
                            assert forall|i: int| 0 <= i < run.responses.len() implies run.codecs[i].may_decode(
                                run.codecs[i + 1],
                                run.rings[i],
                                run.rings[i + 1],
                                Ok(Some(#[trigger] run.responses[i])),
                            ) by {
                                if i < less.responses.len() {
                                    assert(less.responses[i] == run.responses[i]);
                                }
                            }
                        }
                    }
                    match self.route_response(shared, response) {
                        Ok(_) => {},
                        Err(error) => {
                            assert(run.leads(start, self.state(shared@), Err(error)));
                            return Err(error);
                        },
                    }
                },
            }
        }
    }

    /// Makes room in a full ring, and ends a connection that the peer closed.
    pub fn settle_ring(&mut self, outcome: DrainOutcome) -> (settled: Result<
        (),
        DriveError<P::Error>,
    >)
        requires
            old(self).wf(),
        ensures
            final(self).wf(),
            final(self).policy() == old(self).policy(),
            final(self).peer() == old(self).peer(),
            final(self).codec() == old(self).codec(),
            final(self).batched() == old(self).batched(),
            final(self).ring().unread == old(self).ring().unread,
            final(self).queue() == old(self).queue(),
            final(self).waiting() == old(self).waiting(),
            settles(old(self).ring(), final(self).ring(), outcome, settled),
            settled is Ok && final(self).ring().capacity > 0 ==> final(self).ring().available() > 0,
            outcome == DrainOutcome::Eof ==> settled is Err,
            outcome != DrainOutcome::Eof && old(self).ring().unread.len() < old(self).ring().maximum
                ==> settled is Ok,
            settled matches Err(error) ==> error is UnexpectedEof || error is Overflow,
            settled matches Err(DriveError::Overflow(limit)) ==> limit.maximum
                == old(self).ring().maximum && limit.required == old(self).ring().unread.len() + 1
                && old(self).ring().unread.len() == old(self).ring().maximum,
    {
        let crowded = self.read_buffer.is_full();
        let ghost full = self.read_buffer@;
        proof {
            self.read_buffer.law_ring_is_valid();
        }
        if crowded {
            match self.read_buffer.reserve(1) {
                Ok(_) => {
                    proof {
                        law_reservation_makes_room(full, 1, self.read_buffer@);
                    }
                },
                Err(limit) => {
                    return Err(DriveError::Overflow(limit));
                },
            }
        }
        match outcome {
            DrainOutcome::Eof => Err(DriveError::UnexpectedEof),
            _ => Ok(()),
        }
    }

    /// Takes in what came from the socket. Which responses it holds is the protocol's
    /// choice.
    pub fn on_read(&mut self, shared: &mut Shared<P::Response, P::Error>, read: SocketRead) -> (gone_on:
        Result<(), DriveError<P::Error>>)
        requires
            old(self).wf(),
            old(shared).wf(),
        ensures
            final(self).wf(),
            final(shared).wf(),
            final(self).policy() == old(self).policy(),
            final(self).peer() == old(self).peer(),
            final(self).batched() == old(self).batched(),
            takes_in(old(self).state(old(shared)@), final(self).state(final(shared)@), read, gone_on),
    {
        match read {
            SocketRead::Response(outcome) => {
                let decoded = self.decode_responses(shared);
                let ghost between = self.state(shared@);
                assert(decodes(old(self).state(old(shared)@), between, decoded));
                match decoded {
                    Ok(_) => self.settle_ring(outcome),
                    Err(error) => Err(error),
                }
            },
            SocketRead::IdleEof => Err(DriveError::UnexpectedEof),
            SocketRead::IdleData => Err(DriveError::UnexpectedResponse),
        }
    }

    /// Takes note of what the socket took.
    pub fn on_written(&mut self, written: usize) -> (gone_on: Result<(), DriveError<P::Error>>)
        requires
            old(self).wf(),
            written <= old(self).queue().unsent().len(),
        ensures
            final(self).wf(),
            final(self).policy() == old(self).policy(),
            final(self).peer() == old(self).peer(),
            final(self).codec() == old(self).codec(),
            final(self).ring() == old(self).ring(),
            final(self).batched() == old(self).batched(),
            final(self).queue() == old(self).queue().advanced(written as nat),
            final(self).waiting() == old(self).waiting(),
            gone_on == if written == 0 {
                Err::<(), DriveError<P::Error>>(DriveError::WriteZero)
            } else {
                Ok(())
            },
    {
        self.writes.advance(written);
        if written == 0 {
            Err(DriveError::WriteZero)
        } else {
            Ok(())
        }
    }

    /// One periodic check of the receive ring.
    pub fn on_maintenance(&mut self)
        requires
            old(self).wf(),
        ensures
            final(self).wf(),
            final(self).policy() == old(self).policy(),
            final(self).peer() == old(self).peer(),
            final(self).codec() == old(self).codec(),
            old(self).ring().may_shrink(final(self).ring()),
            final(self).batched() == old(self).batched(),
            final(self).queue() == old(self).queue(),
            final(self).waiting() == old(self).waiting(),
    {
        self.read_buffer.shrink();
    }

    /// Reacts to what happens to the connection; an error ends it.
    pub fn on_event(
        &mut self,
        shared: &mut Shared<P::Response, P::Error>,
        event: LinkEvent,
        now: Instant,
    ) -> (gone_on: Result<(), DriveError<P::Error>>)
        requires
            old(self).wf(),
            old(shared).wf(),
            event matches LinkEvent::Written(written) ==> written
                <= old(self).queue().unsent().len(),
        ensures
            final(self).wf(),
            final(shared).wf(),
            final(self).policy() == old(self).policy(),
            final(self).peer() == old(self).peer(),
            final(self).batched() == if event is Batched {
                Seq::<Envelope<P::Request>>::empty()
            } else {
                old(self).batched()
            },
            ({
                let before = old(self).state(old(shared)@);
                let after = final(self).state(final(shared)@);
                match event {
                    LinkEvent::TimedOut => after == before && gone_on == if before.link.pending.len()
                        > 0 {
                        Err::<(), DriveError<P::Error>>(DriveError::Timeout)
                    } else {
                        Ok(())
                    },
                    LinkEvent::Failed(error) => after == before && gone_on == Err::<
                        (),
                        DriveError<P::Error>,
                    >(DriveError::Io(error)),
                    LinkEvent::HandlesGone => after == before && gone_on == Err::<
                        (),
                        DriveError<P::Error>,
                    >(DriveError::Closed),
                    LinkEvent::Read(read) => takes_in(before, after, read, gone_on),
                    LinkEvent::Written(written) => {
                        &&& after == (LinkState {
                            link: LinkView {
                                writes: before.link.writes.advanced(written as nat),
                                ..before.link
                            },
                            ..before
                        })
                        &&& gone_on == if written == 0 {
                            Err::<(), DriveError<P::Error>>(DriveError::WriteZero)
                        } else {
                            Ok(())
                        }
                    },
                    LinkEvent::Batched => {
                        &&& encodes_batch(
                            before,
                            after,
                            old(self).batched(),
                            (Instant {
                                nanos: later(now.nanos, old(self).policy().request_timeout.nanos),
                            }),
                        )
                        &&& gone_on is Ok
                        &&& after.link.pending.len() >= before.link.pending.len()
                        &&& forall|i: int|
                            0 <= i < before.link.pending.len()
                                ==> #[trigger] after.link.pending[i] == before.link.pending[i]
                        &&& forall|i: int|
                            before.link.pending.len() <= i < after.link.pending.len() ==> (
                            #[trigger] after.link.pending[i]).deadline.nanos == if now.nanos
                                + old(self).policy().request_timeout.nanos <= u128::MAX {
                                now.nanos + old(self).policy().request_timeout.nanos
                            } else {
                                u128::MAX as int
                            }
                    },
                    LinkEvent::Maintenance => {
                        &&& after == (LinkState { ring: after.ring, ..before })
                        &&& before.ring.may_shrink(after.ring)
                        &&& gone_on is Ok
                    },
                }
            }),
    {
        match event {
            LinkEvent::TimedOut => if self.pending.len() > 0 {
                Err(DriveError::Timeout)
            } else {
                Ok(())
            },
            LinkEvent::Read(read) => self.on_read(shared, read),
            LinkEvent::Written(written) => self.on_written(written),
            LinkEvent::Failed(error) => Err(DriveError::Io(error)),
            LinkEvent::Batched => {
                self.encode_batch(shared, now);
                Ok(())
            },
            LinkEvent::HandlesGone => Err(DriveError::Closed),
            LinkEvent::Maintenance => {
                self.on_maintenance();
                Ok(())
            },
        }
    }

    /// Whether frames wait for the socket.
    pub fn has_writes(&self) -> (waiting: bool)
        ensures
            waiting == (self.queue().frames.len() > 0),
    {
        !self.writes.is_empty()
    }

    /// The frames that wait for the socket.
    pub fn writes(&self) -> (writes: &WriteQueue<P::Frame>)
        ensures
            writes@ == self.queue(),
    {
        &self.writes
    }

    /// The receive ring, for a read from the socket.
    pub fn read_buffer(&mut self) -> (buffer: &mut RxBuffer)
        requires
            old(self).wf(),
        ensures
            buffer.wf(),
            buffer@ == old(self).ring(),
            final(buffer).wf() ==> final(self).wf(),
            final(self).ring() == final(buffer)@,
            final(self).policy() == old(self).policy(),
            final(self).peer() == old(self).peer(),
            final(self).codec() == old(self).codec(),
            final(self).batched() == old(self).batched(),
            final(self).queue() == old(self).queue(),
            final(self).waiting() == old(self).waiting(),
    {
        &mut self.read_buffer
    }

    /// The protocol, for the handshake of a new connection.
    pub fn protocol(&mut self) -> (protocol: &mut P)
        requires
            old(self).wf(),
        ensures
            *protocol == old(self).codec(),
            final(self).codec() == *final(protocol),
            final(self).wf(),
            final(self).ring() == old(self).ring(),
            final(self).policy() == old(self).policy(),
            final(self).peer() == old(self).peer(),
            final(self).batched() == old(self).batched(),
            final(self).queue() == old(self).queue(),
            final(self).waiting() == old(self).waiting(),
    {
        &mut self.protocol
    }

    /// Answers every request that waits for a response with one error, and drops the
    /// frames that the socket has not taken.
    pub fn fail_pending(
        &mut self,
        shared: &mut Shared<P::Response, P::Error>,
        error: &SessionError<P::Error>,
    )
        requires
            old(self).wf(),
            old(shared).wf(),
        ensures
            final(self).wf(),
            final(shared).wf(),
            final(self).policy() == old(self).policy(),
            final(self).peer() == old(self).peer(),
            final(self).codec() == old(self).codec(),
            final(self).ring() == old(self).ring(),
            final(self).batched() == old(self).batched(),
            final(shared)@ == failed_all(
                old(shared)@,
                pending_tokens(old(self).waiting()),
                *error,
            ),
            final(self).queue() == WritesView::<P::Frame>::idle(old(self).queue().vectors),
            final(self).waiting() == Seq::<Pending>::empty(),
    {
        let ghost all = self.pending@;
        let ghost tokens = pending_tokens(all);
        let ghost mut done: int = 0;
        assert(tokens.take(0) =~= Seq::<RequestToken>::empty());
        assert(all.skip(0) =~= all);
        while self.pending.len() > 0
            invariant
                0 <= done <= all.len(),
                self.wf(),
                shared.wf(),
                self.policy() == old(self).policy(),
                self.peer() == old(self).peer(),
                self.codec() == old(self).codec(),
                self.ring() == old(self).ring(),
                self.batched() == old(self).batched(),
                self.writes == old(self).writes,
                self.pending@ == all.skip(done),
                tokens == pending_tokens(all),
                shared@ == failed_all(old(shared)@, tokens.take(done), *error),
            decreases self.pending@.len(),
        {
            assert(tokens.take(done + 1).drop_last() =~= tokens.take(done));
            if let Some(request) = self.pending.pop_front() {
                let _ = shared.complete(request.token, Err(error.clone()));
                proof {
                    assert(request == all[done]);
                    assert(self.pending@ =~= all.skip(done + 1));
                    done = done + 1;
                }
            }
        }
        assert(tokens.take(done) =~= tokens);
        self.writes.clear();
        assert(self.pending@ =~= Seq::<Pending>::empty());
    }
}

/// Law: when a connection fails, every request that waited on it is answered with the
/// error, once, and no other request is touched.
pub proof fn law_failure_answers_every_request<R, E>(
    shared: SharedView<R, E>,
    tokens: Seq<RequestToken>,
    error: SessionError<E>,
    token: RequestToken,
)
    requires
        shared.table.slots.len() == 256,
        shared.table.current(token),
    ensures
        ({
            let after = failed_all(shared, tokens, error).table;
            &&& after.slots.len() == 256
            &&& after.current(token)
            &&& tokens.contains(token) ==> !after.owed(token) && after.state(token)
                == shared.table.completed(token, Err(error)).state(token)
            &&& !tokens.contains(token) ==> after.state(token) == shared.table.state(token)
        }),
    decreases tokens.len(),
{
    if tokens.len() > 0 {
        let less = tokens.drop_last();
        let last = tokens.last();
        let before = failed_all(shared, less, error).table;
        law_failure_answers_every_request(shared, less, error, token);
        assert(tokens.contains(token) <==> less.contains(token) || last == token) by {
            assert(tokens =~= less.push(last));
            if last == token {
                assert(tokens[tokens.len() - 1] == token);
            }
            if less.contains(token) {
                let i = choose|i: int| 0 <= i < less.len() && less[i] == token;
                assert(tokens[i] == token);
            }
        }
        if slot_of(last.raw) == slot_of(token.raw) && before.current(last) {
            assert(last.raw == token.raw);
        }
    }
}

/// Law: a request that was meant for one connection is never written to another: it is
/// answered, and neither its frame is queued nor its response awaited.
pub proof fn law_requests_keep_to_their_connection<R, E, F: Frame, Q>(
    link: LinkView<R, E, F>,
    batch: Seq<Envelope<Q>>,
    encoded: Seq<Result<F, Arc<E>>>,
    deadline: Instant,
)
    requires
        forall|i: int|
            0 <= i < batch.len() ==> (#[trigger] batch[i]).connection_generation
                != link.shared.generation,
    ensures
        link.encoded_all(batch, encoded, deadline) == (LinkView {
            shared: failed_all(link.shared, queued_tokens(batch), SessionError::Unavailable),
            ..link
        }),
    decreases batch.len(),
{
    let tokens = queued_tokens(batch);
    if batch.len() > 0 {
        let less = batch.drop_last();
        assert forall|i: int| 0 <= i < less.len() implies (#[trigger] less[i]).connection_generation
            != link.shared.generation by {
            assert(less[i] == batch[i]);
        }
        law_requests_keep_to_their_connection(link, less, encoded, deadline);
        assert(tokens.drop_last() =~= queued_tokens(less));
        assert(batch[batch.len() - 1].connection_generation != link.shared.generation);
    }
}

/// Law: untagged responses answer requests in the order in which they were written.
pub proof fn law_untagged_responses_answer_in_order<R, E, F: Frame>(
    link: LinkView<R, E, F>,
    first: R,
    second: R,
)
    requires
        link.pending.len() >= 2,
    ensures
        ({
            let one = link.routed(DecodedResponse { correlation: Correlation::Fifo, response: first });
            let two = one.routed(DecodedResponse { correlation: Correlation::Fifo, response: second });
            &&& one.shared == link.shared.completed(link.pending[0].token, Ok(first))
            &&& two.shared == one.shared.completed(link.pending[1].token, Ok(second))
            &&& two.pending == link.pending.skip(2)
        }),
{
    let one = link.routed(DecodedResponse { correlation: Correlation::Fifo, response: first });
    let two = one.routed(DecodedResponse { correlation: Correlation::Fifo, response: second });
    assert(two.pending =~= link.pending.skip(2));
}

/// Law: a tagged response answers the request that it names, wherever that stands among
/// those that wait, and leaves all others waiting in their order.
pub proof fn law_tagged_responses_answer_their_request<R, E, F: Frame>(
    link: LinkView<R, E, F>,
    at: int,
    response: R,
)
    requires
        0 <= at < link.pending.len(),
        forall|i: int| 0 <= i < at ==> (#[trigger] link.pending[i]).token != link.pending[at].token,
    ensures
        ({
            let token = link.pending[at].token;
            let after = link.routed(
                DecodedResponse { correlation: Correlation::Tagged(token), response },
            );
            &&& after.shared == link.shared.completed(token, Ok(response))
            &&& after.pending == link.pending.take(at) + link.pending.skip(at + 1)
            &&& after.writes == link.writes
        }),
{
    lemma_without_first(link.pending, at);
}

proof fn lemma_without_first(pending: Seq<Pending>, at: int)
    requires
        0 <= at < pending.len(),
        forall|i: int| 0 <= i < at ==> (#[trigger] pending[i]).token != pending[at].token,
    ensures
        without_first(pending, pending[at].token) == pending.take(at) + pending.skip(at + 1),
    decreases at,
{
    if at == 0 {
        assert(pending.take(0) + pending.skip(1) =~= pending.drop_first());
    } else {
        let rest = pending.drop_first();
        assert forall|i: int| 0 <= i < at - 1 implies (#[trigger] rest[i]).token
            != rest[at - 1].token by {
            assert(pending[i + 1].token != pending[at].token);
        }
        assert(pending[0].token != pending[at].token);
        lemma_without_first(rest, at - 1);
        assert(seq![pending[0]] + (rest.take(at - 1) + rest.skip(at)) =~= pending.take(at)
            + pending.skip(at + 1));
    }
}

proof fn lemma_encoded_prefix<R, E, F: Frame, Q>(
    link: LinkView<R, E, F>,
    batch: Seq<Envelope<Q>>,
    encoded: Seq<Result<F, Arc<E>>>,
    longer: Seq<Result<F, Arc<E>>>,
    deadline: Instant,
)
    requires
        batch.len() <= encoded.len() <= longer.len(),
        forall|i: int| 0 <= i < encoded.len() ==> encoded[i] == longer[i],
    ensures
        link.encoded_all(batch, encoded, deadline) == link.encoded_all(batch, longer, deadline),
    decreases batch.len(),
{
    if batch.len() > 0 {
        lemma_encoded_prefix(link, batch.drop_last(), encoded, longer, deadline);
    }
}

/// Law: what becomes of a batch. `sent` gives the positions of the requests that are sent, in
/// their order: those that are meant for this connection and that the codec gave bytes for.
/// Their frames are queued and their responses awaited in that order, behind everything that
/// was there, and each is given the one deadline, whatever else waits. What was queued or
/// awaited before stays as it was.
pub proof fn law_batches_are_sent_in_order<R, E, F: Frame, Q>(
    link: LinkView<R, E, F>,
    batch: Seq<Envelope<Q>>,
    encoded: Seq<Result<F, Arc<E>>>,
    deadline: Instant,
) -> (sent: Seq<int>)
    ensures
        ({
            let after = link.encoded_all(batch, encoded, deadline);
            let waited = link.pending.len() as int;
            let queued = link.writes.frames.len() as int;
            &&& forall|k: int| 0 <= k < sent.len() ==> 0 <= #[trigger] sent[k] < batch.len()
            &&& forall|k: int, l: int|
                0 <= k < l < sent.len() ==> #[trigger] sent[k] < #[trigger] sent[l]
            &&& forall|i: int|
                0 <= i < batch.len() ==> (#[trigger] sent.contains(i)
                    <==> batch[i].connection_generation == link.shared.generation && encoded[i] is Ok
                    && encoded[i]->Ok_0.wire().len() > 0)
            &&& after.pending.len() == waited + sent.len()
            &&& forall|i: int| 0 <= i < waited ==> #[trigger] after.pending[i] == link.pending[i]
            &&& forall|k: int|
                0 <= k < sent.len() ==> #[trigger] after.pending[waited + k] == (Pending {
                    token: batch[sent[k]].token,
                    deadline,
                })
            &&& after.writes.frames.len() == queued + sent.len()
            &&& forall|i: int|
                0 <= i < queued ==> #[trigger] after.writes.frames[i] == link.writes.frames[i]
            &&& forall|k: int|
                0 <= k < sent.len() ==> #[trigger] after.writes.frames[queued + k]
                    == encoded[sent[k]]->Ok_0
            &&& after.writes.offset == link.writes.offset
            &&& after.writes.vectors == link.writes.vectors
            &&& after.shared.connected == link.shared.connected
            &&& after.shared.generation == link.shared.generation
            &&& after.shared.successful == link.shared.successful
            &&& after.shared.disconnects == link.shared.disconnects
        }),
    decreases batch.len(),
{
    if batch.len() == 0 {
        Seq::empty()
    } else {
        let less = batch.drop_last();
        let last = batch.len() - 1;
        let rest = law_batches_are_sent_in_order(link, less, encoded, deadline);
        let before = link.encoded_all(less, encoded, deadline);
        let after = link.encoded_all(batch, encoded, deadline);
        let goes = batch[last].connection_generation == link.shared.generation
            && encoded[last] is Ok && encoded[last]->Ok_0.wire().len() > 0;
        let sent = if goes {
            rest.push(last)
        } else {
            rest
        };
        let waited = link.pending.len() as int;
        let queued = link.writes.frames.len() as int;
        assert forall|k: int| 0 <= k < sent.len() implies 0 <= #[trigger] sent[k]
            < batch.len() by {
            if k < rest.len() {
                assert(sent[k] == rest[k]);
            }
        }
        assert forall|k: int, l: int| 0 <= k < l < sent.len() implies #[trigger] sent[k]
            < #[trigger] sent[l] by {
            assert(sent[k] == rest[k]);
            if l < rest.len() {
                assert(sent[l] == rest[l]);
            }
        }
        assert forall|i: int| 0 <= i < batch.len() implies (#[trigger] sent.contains(i)
            <==> batch[i].connection_generation == link.shared.generation && encoded[i] is Ok
            && encoded[i]->Ok_0.wire().len() > 0) by {
            if i < less.len() {
                assert(less[i] == batch[i]);
                assert(rest.contains(i) <==> less[i].connection_generation
                    == link.shared.generation && encoded[i] is Ok && encoded[i]->Ok_0.wire().len()
                    > 0);
                if rest.contains(i) {
                    let k = choose|k: int| 0 <= k < rest.len() && rest[k] == i;
                    assert(sent[k] == i);
                }
                if sent.contains(i) {
                    let k = choose|k: int| 0 <= k < sent.len() && sent[k] == i;
                    assert(rest[k] == i);
                }
            } else {
                if goes {
                    assert(sent[rest.len() as int] == i);
                } else if rest.contains(i) {
                    let k = choose|k: int| 0 <= k < rest.len() && rest[k] == i;
                    assert(rest[k] < less.len());
                }
            }
        }
        assert forall|i: int| 0 <= i < waited implies #[trigger] after.pending[i]
            == link.pending[i] by {
            assert(before.pending[i] == link.pending[i]);
        }
        assert forall|i: int| 0 <= i < queued implies #[trigger] after.writes.frames[i]
            == link.writes.frames[i] by {
            assert(before.writes.frames[i] == link.writes.frames[i]);
        }
        assert forall|k: int| 0 <= k < sent.len() implies #[trigger] after.pending[waited + k] == (
        Pending { token: batch[sent[k]].token, deadline }) by {
            if k < rest.len() {
                assert(before.pending[waited + k] == (Pending {
                    token: less[rest[k]].token,
                    deadline,
                }));
                assert(less[rest[k]] == batch[rest[k]]);
            }
        }
        assert forall|k: int| 0 <= k < sent.len() implies #[trigger] after.writes.frames[queued
            + k] == encoded[sent[k]]->Ok_0 by {
            if k < rest.len() {
                assert(before.writes.frames[queued + k] == encoded[rest[k]]->Ok_0);
            }
        }
        sent
    }
}

/// Law: every request has its own full time. When a batch is encoded, each request that starts
/// to wait is due at the one time given for the batch, and those that waited keep theirs.
pub proof fn law_requests_keep_their_own_deadline<P: SessionProtocol>(
    before: LinkState<P>,
    after: LinkState<P>,
    batch: Seq<Envelope<P::Request>>,
    now: Instant,
    timeout: Duration,
)
    requires
        encodes_batch(before, after, batch, Instant { nanos: later(now.nanos, timeout.nanos) }),
        now.nanos + timeout.nanos <= u128::MAX,
    ensures
        after.link.pending.len() >= before.link.pending.len(),
        after.link.pending.len() <= before.link.pending.len() + batch.len(),
        forall|i: int|
            0 <= i < before.link.pending.len() ==> #[trigger] after.link.pending[i]
                == before.link.pending[i],
        forall|i: int|
            before.link.pending.len() <= i < after.link.pending.len() ==> (
            #[trigger] after.link.pending[i]).deadline.nanos == now.nanos + timeout.nanos,
{
    let deadline = Instant { nanos: later(now.nanos, timeout.nanos) };
    let (codecs, encoded) = choose|codecs: Seq<P>, encoded: Seq<Result<P::Frame, Arc<P::Error>>>|
        ({
            &&& #[trigger] encodes_all(batch, before.link.shared.generation, codecs, encoded)
            &&& codecs[0] == before.codec
            &&& codecs.last() == after.codec
            &&& after.link == before.link.encoded_all(batch, encoded, deadline)
        });
    let sent = law_batches_are_sent_in_order(before.link, batch, encoded, deadline);
    let waited = before.link.pending.len() as int;
    lemma_increasing_fits(sent, batch.len());
    assert forall|i: int| waited <= i < after.link.pending.len() implies (
    #[trigger] after.link.pending[i]).deadline.nanos == now.nanos + timeout.nanos by {
        let k = i - waited;
        assert(after.link.pending[waited + k] == (Pending {
            token: batch[sent[k]].token,
            deadline,
        }));
    }
}

proof fn lemma_increasing_fits(list: Seq<int>, bound: nat)
    requires
        forall|k: int| 0 <= k < list.len() ==> 0 <= #[trigger] list[k] < bound,
        forall|k: int, l: int| 0 <= k < l < list.len() ==> #[trigger] list[k] < #[trigger] list[l],
    ensures
        list.len() <= bound,
    decreases list.len(),
{
    if list.len() > 0 {
        let less = list.drop_last();
        let last = list.last();
        assert forall|k: int| 0 <= k < less.len() implies 0 <= #[trigger] less[k] < last as nat by {
            assert(less[k] == list[k]);
            assert(list[k] < list[list.len() - 1]);
        }
        assert forall|k: int, l: int| 0 <= k < l < less.len() implies #[trigger] less[k]
            < #[trigger] less[l] by {
            assert(list[k] < list[l]);
        }
        assert(0 <= list[list.len() - 1] < bound);
        lemma_increasing_fits(less, last as nat);
    }
}

/// Completing one request of a table leaves the state of any other as it is, and none owed
/// that was not.
proof fn lemma_completing_another<T>(
    table: TableView<T>,
    other: RequestToken,
    value: T,
    token: RequestToken,
)
    requires
        table.slots.len() == 256,
        table.current(token),
    ensures
        table.completed(other, value).slots.len() == 256,
        table.completed(other, value).current(token),
        other != token ==> table.completed(other, value).state(token) == table.state(token),
        other == token ==> !table.completed(other, value).owed(token),
        !table.owed(token) ==> table.completed(other, value).state(token) == table.state(token),
{
    if slot_of(other.raw) == slot_of(token.raw) && table.current(other) {
        assert(other.raw == token.raw);
        assert(other == token);
    }
}

/// Law: a request that is not part of a batch is left alone by it.
pub proof fn law_batches_leave_others_alone<R, E, F: Frame, Q>(
    link: LinkView<R, E, F>,
    batch: Seq<Envelope<Q>>,
    encoded: Seq<Result<F, Arc<E>>>,
    deadline: Instant,
    token: RequestToken,
)
    requires
        link.shared.table.slots.len() == 256,
        link.shared.table.current(token),
        forall|i: int| 0 <= i < batch.len() ==> (#[trigger] batch[i]).token != token,
    ensures
        ({
            let after = link.encoded_all(batch, encoded, deadline).shared.table;
            &&& after.slots.len() == 256
            &&& after.current(token)
            &&& after.state(token) == link.shared.table.state(token)
        }),
    decreases batch.len(),
{
    if batch.len() > 0 {
        let less = batch.drop_last();
        let last = batch.len() - 1;
        assert forall|i: int| 0 <= i < less.len() implies (#[trigger] less[i]).token != token by {
            assert(batch[i].token != token);
        }
        law_batches_leave_others_alone(link, less, encoded, deadline, token);
        lemma_last_of_batch(link, batch, encoded, deadline, token);
    }
}

/// What the last request of a batch does to the state of any request.
proof fn lemma_last_of_batch<R, E, F: Frame, Q>(
    link: LinkView<R, E, F>,
    batch: Seq<Envelope<Q>>,
    encoded: Seq<Result<F, Arc<E>>>,
    deadline: Instant,
    token: RequestToken,
)
    requires
        batch.len() > 0,
        link.encoded_all(batch.drop_last(), encoded, deadline).shared.table.slots.len() == 256,
        link.encoded_all(batch.drop_last(), encoded, deadline).shared.table.current(token),
    ensures
        ({
            let before = link.encoded_all(batch.drop_last(), encoded, deadline).shared.table;
            let after = link.encoded_all(batch, encoded, deadline).shared.table;
            &&& after.slots.len() == 256
            &&& after.current(token)
            &&& batch.last().token != token ==> after.state(token) == before.state(token)
        }),
{
    let before = link.encoded_all(batch.drop_last(), encoded, deadline);
    let other = batch.last().token;
    lemma_completing_another(before.shared.table, other, Err(SessionError::Unavailable), token);
    lemma_completing_another(
        before.shared.table,
        other,
        Err(SessionError::EmptyRequestFrame),
        token,
    );
    if let Err(error) = encoded[batch.len() - 1] {
        lemma_completing_another(
            before.shared.table,
            other,
            Err(SessionError::Protocol(error)),
            token,
        );
    }
}

/// Law: no request of a batch is lost. One that is not sent is answered with the reason: it was
/// meant for another connection, the codec failed, or the codec gave no bytes. One that is sent
/// is left to wait for its response.
pub proof fn law_unsent_requests_are_told_why<R, E, F: Frame, Q>(
    link: LinkView<R, E, F>,
    batch: Seq<Envelope<Q>>,
    encoded: Seq<Result<F, Arc<E>>>,
    deadline: Instant,
    at: int,
)
    requires
        0 <= at < batch.len(),
        link.shared.table.slots.len() == 256,
        link.shared.table.current(batch[at].token),
        link.shared.table.state(batch[at].token) is Waiting,
        forall|i: int, j: int|
            0 <= i < j < batch.len() ==> (#[trigger] batch[i]).token != (#[trigger] batch[j]).token,
    ensures
        ({
            let token = batch[at].token;
            let after = link.encoded_all(batch, encoded, deadline).shared.table;
            &&& after.slots.len() == 256
            &&& after.current(token)
            &&& if batch[at].connection_generation != link.shared.generation {
                after.state(token) == SlotState::Ready(
                    Err::<R, SessionError<E>>(SessionError::Unavailable),
                )
            } else {
                match encoded[at] {
                    Err(error) => after.state(token) == SlotState::Ready(
                        Err::<R, SessionError<E>>(SessionError::Protocol(error)),
                    ),
                    Ok(frame) => if frame.wire().len() == 0 {
                        after.state(token) == SlotState::Ready(
                            Err::<R, SessionError<E>>(SessionError::EmptyRequestFrame),
                        )
                    } else {
                        after.state(token) is Waiting
                    },
                }
            }
        }),
    decreases batch.len(),
{
    let less = batch.drop_last();
    let last = batch.len() - 1;
    let token = batch[at].token;
    if at == last {
        assert forall|i: int| 0 <= i < less.len() implies (#[trigger] less[i]).token != token by {
            assert(batch[i].token != batch[last].token);
        }
        law_batches_leave_others_alone(link, less, encoded, deadline, token);
    } else {
        assert forall|i: int, j: int| 0 <= i < j < less.len() implies (#[trigger] less[i]).token
            != (#[trigger] less[j]).token by {
            assert(batch[i].token != batch[j].token);
        }
        assert(less[at] == batch[at]);
        law_unsent_requests_are_told_why(link, less, encoded, deadline, at);
        assert(batch[at].token != batch[last].token);
        lemma_last_of_batch(link, batch, encoded, deadline, token);
    }
}

/// Law: what a response is matched with. An untagged one needs a request that waits, and then
/// answers the one that has waited longest; a tagged one is always taken, and one that names no
/// request that waits leaves all of them waiting.
pub proof fn law_responses_find_their_request<R, E, F: Frame>(
    link: LinkView<R, E, F>,
    token: RequestToken,
    response: R,
)
    ensures
        link.accepts(Correlation::Fifo) <==> link.pending.len() > 0,
        link.accepts(Correlation::Tagged(token)),
        (forall|i: int| 0 <= i < link.pending.len() ==> (#[trigger] link.pending[i]).token != token)
            ==> link.routed(
            DecodedResponse { correlation: Correlation::Tagged(token), response },
        ).pending == link.pending,
        link.pending.len() > 0 ==> ({
            let after = link.routed(DecodedResponse { correlation: Correlation::Fifo, response });
            &&& link.pending == seq![link.pending[0]] + after.pending
            &&& after.shared.table == link.shared.table.completed(
                link.pending[0].token,
                Ok(response),
            )
            &&& after.writes == link.writes
        }),
{
    if forall|i: int| 0 <= i < link.pending.len() ==> (#[trigger] link.pending[i]).token != token {
        lemma_without_absent(link.pending, token);
    }
    if link.pending.len() > 0 {
        assert(link.pending =~= seq![link.pending[0]] + link.pending.drop_first());
    }
}

proof fn lemma_without_absent(pending: Seq<Pending>, token: RequestToken)
    requires
        forall|i: int| 0 <= i < pending.len() ==> (#[trigger] pending[i]).token != token,
    ensures
        without_first(pending, token) == pending,
    decreases pending.len(),
{
    if pending.len() > 0 {
        let rest = pending.drop_first();
        assert forall|i: int| 0 <= i < rest.len() implies (#[trigger] rest[i]).token != token by {
            assert(pending[i + 1].token != token);
        }
        assert(pending[0].token != token);
        lemma_without_absent(rest, token);
        assert(seq![pending[0]] + rest =~= pending);
    }
}

/// Law: several responses are matched one after the other: nothing for none, and for one more
/// what that one does to what the others left.
pub proof fn law_responses_are_matched_in_turn<R, E, F: Frame>(
    link: LinkView<R, E, F>,
    responses: Seq<DecodedResponse<R>>,
    next: DecodedResponse<R>,
)
    ensures
        link.routed_all(Seq::empty()) == link,
        link.accepts_all(Seq::empty()),
        link.routed_all(responses.push(next)) == link.routed_all(responses).routed(next),
        link.accepts_all(responses.push(next)) <==> link.accepts_all(responses) && link.routed_all(
            responses,
        ).accepts(next.correlation),
{
    assert(responses.push(next).drop_last() =~= responses);
}

/// Law: when several requests are answered with one error, a request that waited for its
/// response has just that error as its response, and one that nobody waits for is over.
pub proof fn law_failed_requests_hold_the_error<R, E>(
    shared: SharedView<R, E>,
    tokens: Seq<RequestToken>,
    error: SessionError<E>,
    token: RequestToken,
)
    requires
        shared.table.slots.len() == 256,
        shared.table.current(token),
    ensures
        ({
            let after = failed_all(shared, tokens, error);
            let before = shared.table.state(token);
            &&& tokens.contains(token) && before is Waiting ==> after.table.state(token)
                == SlotState::Ready(Err::<R, SessionError<E>>(error))
            &&& tokens.contains(token) && before is Abandoned ==> after.table.state(token) is Free
            &&& !tokens.contains(token) || before is Free || before is Ready
                ==> after.table.state(token) == before
        }),
{
    law_failure_answers_every_request(shared, tokens, error, token);
}

/// The errors that requests are told are those that are made for the case.
proof fn lemma_errors_are_made_for_the_case(error: std::io::Error, message: Seq<char>)
    ensures
        is_eof(error) <==> call_ensures(unexpected_eof, (), error),
        is_write_zero(error) <==> call_ensures(write_zero, (), error),
        is_invalid_data(error, message) <==> exists|text: String|
            text@ == message && #[trigger] call_ensures(invalid_data, (text,), error),
{
}

/// Law: what requests are told about the end of a connection. A peer that closed it, a socket
/// that took nothing and a ring that is too small each have an error of their own.
pub proof fn law_ends_are_told_apart<E>(
    cause: DriveError<E>,
    request_timeout: Duration,
    error: SessionError<E>,
)
    requires
        told_of(cause, request_timeout, error),
    ensures
        cause is UnexpectedEof ==> error is Io && is_eof(*error->Io_0),
        cause is WriteZero ==> error is Io && is_write_zero(*error->Io_0),
        cause matches DriveError::Overflow(limit) ==> error is Io && is_invalid_data(
            *error->Io_0,
            limit.words(),
        ),
        cause matches DriveError::Io(source) ==> error is Io && *error->Io_0 == source,
        cause matches DriveError::Protocol(source) ==> error is Protocol && *error->Protocol_0
            == source,
        cause is Timeout ==> error == (SessionError::<E>::Timeout { timeout: request_timeout }),
        cause is Closed ==> error is Closed,
        cause is UnexpectedResponse ==> error is UnexpectedResponse,
{
}

/// Law: decoding goes on until the codec finds no complete response: when it ends well, that is
/// what the codec said last, and each response before was matched with a request that could
/// take it. It ends with an error just when the codec fails or no request waits.
pub proof fn law_decoding_goes_on_to_the_end<P: SessionProtocol>(
    before: LinkState<P>,
    after: LinkState<P>,
    decoded: Result<(), DriveError<P::Error>>,
)
    requires
        decodes(before, after, decoded),
    ensures
        exists|codecs: Seq<P>, rings: Seq<RxView>, responses: Seq<DecodedResponse<P::Response>>|
            ({
                &&& codecs.len() == responses.len() + 1
                &&& rings.len() == responses.len() + 1
                &&& codecs[0] == before.codec
                &&& rings[0] == before.ring
                &&& forall|i: int|
                    0 <= i < responses.len() ==> codecs[i].may_decode(
                        codecs[i + 1],
                        rings[i],
                        rings[i + 1],
                        Ok(Some(#[trigger] responses[i])),
                    )
                &&& decoded is Ok ==> {
                    &&& before.link.accepts_all(responses)
                    &&& after.link == #[trigger] before.link.routed_all(responses)
                    &&& (#[trigger] codecs.last()).may_decode(
                        after.codec,
                        #[trigger] rings.last(),
                        after.ring,
                        Ok(None),
                    )
                }
                &&& decoded is Err ==> {
                    ||| decoded->Err_0 is Protocol && after.link == before.link.routed_all(
                        responses,
                    ) && codecs.last().may_decode(
                        after.codec,
                        rings.last(),
                        after.ring,
                        Err(decoded->Err_0->Protocol_0),
                    )
                    ||| decoded->Err_0 is UnexpectedResponse && responses.len() > 0
                        && after.link.pending.len() == 0 && responses.last().correlation
                        == Correlation::Fifo && after.link == before.link.routed_all(
                        responses.drop_last(),
                    )
                }
            }),
{
    let run = choose|run: Decoding<P>| #[trigger] run.leads(before, after, decoded);
    let codecs = run.codecs;
    let rings = run.rings;
    let responses = run.responses;
    assert(codecs.last() == run.codecs.last() && rings.last() == run.rings.last());
    assert(before.link.routed_all(responses) == before.link.routed_all(run.responses));
}

/// Law: the codec encodes each request of a batch that is meant for this connection, in order
/// and with its own identifier, and sees none that is meant for another.
pub proof fn law_requests_are_encoded_in_order<P: SessionProtocol>(
    batch: Seq<Envelope<P::Request>>,
    generation: u64,
    codecs: Seq<P>,
    encoded: Seq<Result<P::Frame, Arc<P::Error>>>,
    i: int,
)
    requires
        encodes_all(batch, generation, codecs, encoded),
        0 <= i < batch.len(),
    ensures
        encoded.len() == batch.len(),
        codecs.len() == batch.len() + 1,
        batch[i].connection_generation != generation ==> codecs[i + 1] == codecs[i],
        batch[i].connection_generation == generation ==> codecs[i].may_encode(
            codecs[i + 1],
            batch[i].request,
            batch[i].token,
            match encoded[i] {
                Ok(frame) => Ok(frame),
                Err(error) => Err(*error),
            },
        ),
{
    assert(encodes(batch[i], generation, codecs[i], codecs[i + 1], encoded[i]));
}

/// Law: the codec and the frames of a batch belong together: what the codec gave is what is
/// sent and awaited, and the ring is not touched.
pub proof fn law_batches_send_what_was_encoded<P: SessionProtocol>(
    before: LinkState<P>,
    after: LinkState<P>,
    batch: Seq<Envelope<P::Request>>,
    deadline: Instant,
)
    requires
        encodes_batch(before, after, batch, deadline),
    ensures
        after.ring == before.ring,
        exists|codecs: Seq<P>, encoded: Seq<Result<P::Frame, Arc<P::Error>>>|
            ({
                &&& #[trigger] encodes_all(batch, before.link.shared.generation, codecs, encoded)
                &&& codecs[0] == before.codec
                &&& codecs.last() == after.codec
                &&& after.link == before.link.encoded_all(batch, encoded, deadline)
            }),
{
}

/// Law: the end of the stream ends the connection, whatever came before it; so do bytes and the
/// end of the stream while nothing is expected.
pub proof fn law_the_end_of_the_stream_ends_the_connection<P: SessionProtocol>(
    before: LinkState<P>,
    after: LinkState<P>,
    read: SocketRead,
    gone_on: Result<(), DriveError<P::Error>>,
)
    requires
        takes_in(before, after, read, gone_on),
    ensures
        read == SocketRead::Response(DrainOutcome::Eof) ==> gone_on is Err,
        read == SocketRead::IdleEof ==> after == before && gone_on is Err
            && gone_on->Err_0 is UnexpectedEof,
        read == SocketRead::IdleData ==> after == before && gone_on is Err
            && gone_on->Err_0 is UnexpectedResponse,
        read is Response && gone_on is Ok ==> exists|
            between: LinkState<P>,
            decoded: Result<(), DriveError<P::Error>>,
        |
            ({
                &&& #[trigger] decodes(before, between, decoded)
                &&& decoded is Ok
                &&& after.link == between.link
                &&& after.codec == between.codec
                &&& between.ring.may_settle(after.ring)
            }),
        gone_on matches Err(error) ==> error is UnexpectedEof || error is UnexpectedResponse
            || error is Protocol || error is Overflow,
{
    if read is Response {
        let outcome = read->Response_0;
        let (between, decoded) = choose|
            between: LinkState<P>,
            decoded: Result<(), DriveError<P::Error>>,
        |
            ({
                &&& #[trigger] decodes(before, between, decoded)
                &&& match decoded {
                    Ok(_) => {
                        &&& after.codec == between.codec
                        &&& after.link == between.link
                        &&& settles(between.ring, after.ring, outcome, gone_on)
                    },
                    Err(_) => after == between && gone_on == decoded,
                }
            });
        let run = choose|run: Decoding<P>| #[trigger] run.leads(before, between, decoded);
    }
}

/// Law: the deadline of a connection is that of the request that has waited longest, which is
/// the earliest of all when they were sent one after the other; without requests there is none.
pub proof fn law_the_oldest_request_sets_the_deadline<P: SessionProtocol>(
    driver: Driver<P>,
    deadline: Option<Instant>,
)
    requires
        call_ensures(Driver::<P>::deadline, (&driver,), deadline),
    ensures
        deadline is None <==> driver.waiting().len() == 0,
        driver.waiting().len() > 0 ==> deadline == Some(driver.waiting()[0].deadline),
        (forall|i: int, j: int|
            0 <= i < j < driver.waiting().len() ==> (#[trigger] driver.waiting()[i]).deadline.nanos
                <= (#[trigger] driver.waiting()[j]).deadline.nanos) ==> forall|i: int|
            0 <= i < driver.waiting().len() ==> (deadline->0).nanos <= (
            #[trigger] driver.waiting()[i]).deadline.nanos,
{
}

/// Law: requests join the batch in the order in which they come, and more may join until the
/// batch is full.
pub proof fn law_requests_join_the_batch_in_order<P: SessionProtocol>(
    before: Driver<P>,
    after: Driver<P>,
    envelope: Envelope<P::Request>,
    room: bool,
)
    requires
        before.wf(),
        exists|driver: &mut Driver<P>|
            *driver == before && *final(driver) == after && #[trigger] call_ensures(
                Driver::<P>::accept,
                (driver, envelope),
                room,
            ),
    ensures
        after.batched().len() == before.batched().len() + 1,
        after.batched()[before.batched().len() as int] == envelope,
        forall|i: int|
            0 <= i < before.batched().len() ==> #[trigger] after.batched()[i]
                == before.batched()[i],
        room <==> before.batched().len() + 1 < before.policy().write_batch,
        after.waiting() == before.waiting(),
        after.queue() == before.queue(),
{
}

/// Law: reading goes on while bytes come and there is room for more; it ends when nothing has
/// arrived, at the end of the stream, or with a full ring.
pub proof fn law_reading_ends_for_a_reason(
    buffer: RxBuffer,
    step: ReadStep,
    outcome: Option<DrainOutcome>,
)
    requires
        buffer.wf(),
        call_ensures(after_read, (&buffer, step), outcome),
    ensures
        step == ReadStep::WouldBlock <==> outcome == Some(DrainOutcome::Drained),
        step == ReadStep::Bytes(0) <==> outcome == Some(DrainOutcome::Eof),
        outcome is None <==> step is Bytes && step->Bytes_0 > 0 && buffer@.available() > 0,
        outcome == Some(DrainOutcome::Full) ==> buffer@.available() == 0,
{
    buffer.law_ring_is_valid();
}

/// Law: two requests that are sent at different times are due at different times: each gets
/// the full time from its own start, whatever the other has left.
pub proof fn law_later_requests_are_due_later<P: SessionProtocol>(
    start: Driver<P>,
    once: Driver<P>,
    twice: Driver<P>,
    shared: (
        Shared<P::Response, P::Error>,
        Shared<P::Response, P::Error>,
        Shared<P::Response, P::Error>,
    ),
    tokens: (RequestToken, RequestToken),
    frames: (P::Frame, P::Frame),
    times: (Instant, Instant),
)
    requires
        frames.0.wire().len() > 0,
        frames.1.wire().len() > 0,
        times.0.nanos + start.policy().request_timeout.nanos <= u128::MAX,
        times.1.nanos + start.policy().request_timeout.nanos <= u128::MAX,
        exists|driver: &mut Driver<P>, table: &mut Shared<P::Response, P::Error>|
            *driver == start && *final(driver) == once && *table == shared.0 && *final(table)
                == shared.1 && #[trigger] call_ensures(
                Driver::<P>::enqueue_encoded,
                (driver, table, tokens.0, Ok(frames.0), times.0),
                (),
            ),
        exists|driver: &mut Driver<P>, table: &mut Shared<P::Response, P::Error>|
            *driver == once && *final(driver) == twice && *table == shared.1 && *final(table)
                == shared.2 && #[trigger] call_ensures(
                Driver::<P>::enqueue_encoded,
                (driver, table, tokens.1, Ok(frames.1), times.1),
                (),
            ),
    ensures
        ({
            let count = start.waiting().len() as int;
            let timeout = start.policy().request_timeout.nanos;
            &&& twice.waiting().len() == count + 2
            &&& twice.waiting()[count].token == tokens.0
            &&& twice.waiting()[count].deadline.nanos == times.0.nanos + timeout
            &&& twice.waiting()[count + 1].token == tokens.1
            &&& twice.waiting()[count + 1].deadline.nanos == times.1.nanos + timeout
            &&& forall|i: int|
                0 <= i < count ==> #[trigger] twice.waiting()[i] == start.waiting()[i]
        }),
{
    assert(twice.waiting()[start.waiting().len() as int]
        == once.waiting()[start.waiting().len() as int]);
    assert forall|i: int| 0 <= i < start.waiting().len() implies #[trigger] twice.waiting()[i]
        == start.waiting()[i] by {
        assert(twice.waiting()[i] == once.waiting()[i]);
    }
}

} // verus!
