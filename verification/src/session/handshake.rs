//! Protocol setup of a new connection.
use crate::outside::{buffer_advance, buffer_len, empty_buffer};
use crate::protocol::{HandshakeStatus, SessionProtocol};
use crate::session::driver::DriveError;
use bytes::BytesMut;
use vstd::prelude::*;

#[allow(unused_imports)]
use crate::outside::buffer_contents;

verus! {

/// Bytes and progress of protocol setup.
pub struct Handshake {
    status: HandshakeStatus,
    incoming: BytesMut,
    outgoing: BytesMut,
}

impl Handshake {
    /// Progress as the protocol last reported it.
    pub closed spec fn status(&self) -> HandshakeStatus {
        self.status
    }

    /// Bytes that the peer sent and the protocol has not consumed.
    pub closed spec fn received(&self) -> Seq<u8> {
        buffer_contents(self.incoming)
    }

    /// Bytes that the protocol wrote and the socket has not taken.
    pub closed spec fn unsent(&self) -> Seq<u8> {
        buffer_contents(self.outgoing)
    }

    /// Setup is complete: the protocol is ready and the socket took everything.
    pub open spec fn done(&self) -> bool {
        self.status() == HandshakeStatus::Ready && self.unsent().len() == 0
    }

    /// Starts protocol setup.
    pub fn begin<P: SessionProtocol>(protocol: &mut P) -> (handshake: Result<
        Handshake,
        DriveError<P::Error>,
    >)
        ensures
            exists|codec: &mut P, dst: &mut BytesMut, status: Result<HandshakeStatus, P::Error>|
                ({
                    &&& #[trigger] call_ensures(P::begin_handshake, (codec, dst), status)
                    &&& *codec == *old(protocol) && *final(codec) == *final(protocol)
                    &&& buffer_contents(*dst) == Seq::<u8>::empty()
                    &&& match handshake {
                        Ok(handshake) => {
                            &&& status == Ok::<HandshakeStatus, P::Error>(handshake.status())
                            &&& handshake.received() == Seq::<u8>::empty()
                            &&& handshake.unsent() == buffer_contents(*final(dst))
                        },
                        Err(error) => {
                            &&& status is Err
                            &&& error == DriveError::Protocol(status->Err_0)
                        },
                    }
                }),
    {
        let mut outgoing = empty_buffer();
        let status = match protocol.begin_handshake(&mut outgoing) {
            Ok(status) => status,
            Err(error) => {
                return Err(DriveError::Protocol(error));
            },
        };
        Ok(Handshake { status, incoming: empty_buffer(), outgoing })
    }

    /// Whether setup is complete: the protocol is ready and the socket took everything.
    pub fn is_done(&self) -> (done: bool)
        ensures
            done == self.done(),
            done == (self.status() == HandshakeStatus::Ready && self.unsent().len() == 0),
    {
        self.status == HandshakeStatus::Ready && buffer_len(&self.outgoing) == 0
    }

    /// Whether setup waits for bytes from the peer.
    pub fn wants_read(&self) -> (wants: bool)
        ensures
            wants == (self.status() == HandshakeStatus::Pending),
    {
        self.status == HandshakeStatus::Pending
    }

    /// Whether bytes wait for the socket.
    pub fn wants_write(&self) -> (wants: bool)
        ensures
            wants == (self.unsent().len() > 0),
    {
        buffer_len(&self.outgoing) > 0
    }

    /// Where bytes from the peer go.
    pub fn incoming(&mut self) -> (buffer: &mut BytesMut)
        ensures
            buffer_contents(*buffer) == old(self).received(),
            final(self).received() == buffer_contents(*final(buffer)),
            final(self).status() == old(self).status(),
            final(self).unsent() == old(self).unsent(),
    {
        &mut self.incoming
    }

    /// What waits for the socket.
    pub fn outgoing(&self) -> (buffer: &BytesMut)
        ensures
            buffer_contents(*buffer) == self.unsent(),
    {
        &self.outgoing
    }

    /// Takes note of what the protocol reported.
    pub fn report<E>(&mut self, reported: Result<HandshakeStatus, E>) -> (gone_on: Result<
        (),
        DriveError<E>,
    >)
        ensures
            match reported {
                Ok(status) => gone_on is Ok && final(self).status() == status,
                Err(error) => gone_on == Err::<(), DriveError<E>>(DriveError::Protocol(error))
                    && final(self).status() == old(self).status(),
            },
            final(self).received() == old(self).received(),
            final(self).unsent() == old(self).unsent(),
    {
        match reported {
            Ok(status) => {
                self.status = status;
                Ok(())
            },
            Err(error) => Err(DriveError::Protocol(error)),
        }
    }

    /// Bytes arrived, and the protocol takes what it can of them; or the peer closed the
    /// connection.
    pub fn on_read<P: SessionProtocol>(&mut self, protocol: &mut P, count: usize) -> (gone_on: Result<
        (),
        DriveError<P::Error>,
    >)
        ensures
            count == 0 ==> gone_on == Err::<(), DriveError<P::Error>>(DriveError::UnexpectedEof)
                && *final(self) == *old(self) && *final(protocol) == *old(protocol),
            count > 0 ==> exists|
                codec: &mut P,
                src: &mut BytesMut,
                dst: &mut BytesMut,
                reported: Result<HandshakeStatus, P::Error>,
            |
                ({
                    &&& #[trigger] call_ensures(P::decode_handshake, (codec, src, dst), reported)
                    &&& *codec == *old(protocol) && *final(codec) == *final(protocol)
                    &&& buffer_contents(*src) == old(self).received()
                    &&& buffer_contents(*final(src)) == final(self).received()
                    &&& buffer_contents(*dst) == old(self).unsent()
                    &&& buffer_contents(*final(dst)) == final(self).unsent()
                    &&& match reported {
                        Ok(status) => gone_on is Ok && final(self).status() == status,
                        Err(error) => {
                            &&& gone_on == Err::<(), DriveError<P::Error>>(DriveError::Protocol(error))
                            &&& final(self).status() == old(self).status()
                        },
                    }
                }),
    {
        if count == 0 {
            return Err(DriveError::UnexpectedEof);
        }
        let reported = protocol.decode_handshake(&mut self.incoming, &mut self.outgoing);
        self.report(reported)
    }

    /// The socket took bytes.
    pub fn on_written<E>(&mut self, count: usize) -> (gone_on: Result<(), DriveError<E>>)
        requires
            count <= old(self).unsent().len(),
        ensures
            gone_on == if count == 0 {
                Err::<(), DriveError<E>>(DriveError::WriteZero)
            } else {
                Ok(())
            },
            final(self).unsent() == old(self).unsent().skip(count as int),
            final(self).status() == old(self).status(),
            final(self).received() == old(self).received(),
    {
        if count == 0 {
            assert(self.unsent().skip(0) =~= self.unsent());
            return Err(DriveError::WriteZero);
        }
        buffer_advance(&mut self.outgoing, count);
        Ok(())
    }
}

/// Law: setup is complete once the protocol is ready and the socket has taken every byte of it,
/// and not before either.
pub proof fn law_setup_ends_with_its_last_byte(handshake: Handshake)
    ensures
        handshake.done() <==> handshake.status() == HandshakeStatus::Ready
            && handshake.unsent().len() == 0,
{
}

} // verus!
