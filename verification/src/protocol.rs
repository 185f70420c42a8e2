//! What a wire protocol supplies to a connection.
use crate::completion::RequestToken;
use crate::outside::bytes_slice;
use crate::rx::RxBuffer;
use vstd::prelude::*;

#[allow(unused_imports)]
use crate::outside::bytes_contents;
#[allow(unused_imports)]
use crate::rx::RxView;

verus! {

/// Progress of protocol setup on a newly established connection.
#[derive(Clone, Copy, Debug, PartialEq, Eq, Structural)]
pub enum HandshakeStatus {
    /// The connection can accept application requests.
    Ready,
    /// More bytes must be read and passed to `decode_handshake`.
    Pending,
}

/// How one decoded response maps to a request in flight.
#[derive(Clone, Copy, Debug, PartialEq, Eq, Structural)]
pub enum Correlation {
    /// The response belongs to the oldest request on this connection.
    Fifo,
    /// The response carries an opaque request identifier.
    Tagged(RequestToken),
}

/// One complete response decoded from the connection's receive ring.
#[derive(Debug)]
pub struct DecodedResponse<R> {
    pub correlation: Correlation,
    pub response: R,
}

impl<R> DecodedResponse<R> {
    /// A response to the oldest request.
    pub fn fifo(response: R) -> (decoded: Self)
        ensures
            decoded == (DecodedResponse { correlation: Correlation::Fifo, response }),
    {
        DecodedResponse { correlation: Correlation::Fifo, response }
    }

    /// A response to the request with this identifier.
    pub fn tagged(request_id: u64, response: R) -> (decoded: Self)
        ensures
            decoded == (DecodedResponse {
                correlation: Correlation::Tagged(RequestToken { raw: request_id }),
                response,
            }),
    {
        DecodedResponse {
            correlation: Correlation::Tagged(RequestToken::from_raw(request_id)),
            response,
        }
    }
}

/// One request in the form in which it goes on the wire.
pub trait Frame: Sized {
    /// The bytes that go on the wire. An implementation says here which those are.
    open spec fn wire(&self) -> Seq<u8> {
        arbitrary()
    }

    /// The bytes that go on the wire.
    fn as_bytes(&self) -> (bytes: &[u8])
        ensures
            bytes@ == self.wire(),
    ;
}

impl Frame for bytes::Bytes {
    open spec fn wire(&self) -> Seq<u8> {
        bytes_contents(*self)
    }

    fn as_bytes(&self) -> (bytes: &[u8]) {
        bytes_slice(self)
    }
}

impl Frame for Vec<u8> {
    open spec fn wire(&self) -> Seq<u8> {
        self@
    }

    fn as_bytes(&self) -> (bytes: &[u8]) {
        self.as_slice()
    }
}

impl<const N: usize> Frame for [u8; N] {
    open spec fn wire(&self) -> Seq<u8> {
        self@
    }

    fn as_bytes(&self) -> (bytes: &[u8]) {
        self.as_slice()
    }
}

impl<'a> Frame for &'a [u8] {
    open spec fn wire(&self) -> Seq<u8> {
        self@
    }

    fn as_bytes(&self) -> (bytes: &[u8]) {
        self
    }
}

/// Protocol-specific framing used by the generic single-connection driver.
///
/// Implementations turn each admitted request into one owned wire frame and remove
/// complete responses from the front of the receive ring. The connection keeps a frame
/// until the socket has taken every byte of it.
pub trait SessionProtocol: Sized + Send + 'static {
    type Request: Send + 'static;

    type Frame: Frame + Send + 'static;

    type Response: Send + 'static;

    type Error: Send + Sync + 'static;

    /// Resets connection-local codec state before a new connection is used.
    fn reset(&mut self) {
    }

    /// Begins protocol setup: an authentication frame may be appended to `dst`. Protocols
    /// with no setup use the default and become available immediately.
    fn begin_handshake(&mut self, dst: &mut bytes::BytesMut) -> (status: Result<
        HandshakeStatus,
        Self::Error,
    >)
        default_ensures
            status == Ok::<HandshakeStatus, Self::Error>(HandshakeStatus::Ready),
            *final(dst) == *old(dst),
    {
        Ok(HandshakeStatus::Ready)
    }

    /// Consumes a handshake response and reports whether setup is complete. A `Pending`
    /// result means either that more bytes are needed or that a further frame was
    /// appended to `dst`.
    fn decode_handshake(&mut self, src: &mut bytes::BytesMut, dst: &mut bytes::BytesMut) -> (status:
        Result<HandshakeStatus, Self::Error>)
        default_ensures
            status == Ok::<HandshakeStatus, Self::Error>(HandshakeStatus::Ready),
            *final(src) == *old(src),
            *final(dst) == *old(dst),
    {
        Ok(HandshakeStatus::Ready)
    }

    /// Whether encoding this request may turn the codec into `after` and give `frame`. An
    /// implementation that promises something of its frames says so here.
    open spec fn may_encode(
        &self,
        after: Self,
        request: Self::Request,
        request_id: RequestToken,
        frame: Result<Self::Frame, Self::Error>,
    ) -> bool {
        true
    }

    /// Produces one complete, non-empty request frame.
    fn encode(&mut self, request: Self::Request, request_id: RequestToken) -> (frame: Result<
        Self::Frame,
        Self::Error,
    >)
        ensures
            old(self).may_encode(*final(self), request, request_id, frame),
    ;

    /// Whether decoding may turn the codec into `after` and the ring from `src` into `left`
    /// and give `decoded`. An implementation that promises something of its responses says
    /// so here.
    open spec fn may_decode(
        &self,
        after: Self,
        src: RxView,
        left: RxView,
        decoded: Result<Option<DecodedResponse<Self::Response>>, Self::Error>,
    ) -> bool {
        true
    }

    /// Decodes at most one complete response, which it removes from the front of the ring.
    fn decode(&mut self, src: &mut RxBuffer) -> (decoded: Result<
        Option<DecodedResponse<Self::Response>>,
        Self::Error,
    >)
        requires
            old(src).wf(),
        ensures
            final(src).wf(),
            old(self).may_decode(*final(self), old(src)@, final(src)@, decoded),
            decoded matches Ok(Some(_)) ==> final(src)@.unread.len() < old(src)@.unread.len(),
    ;
}

} // verus!
