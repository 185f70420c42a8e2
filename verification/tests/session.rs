//! Requests, frames and responses of one connection.
use brz_net::protocol::{Correlation, DecodedResponse};
use brz_net::session::driver::{
    after_read, begin_drain, idle_outcome, DrainOutcome, DriveError, Driver, LinkEvent, ReadStep,
    SocketRead,
};
use brz_net::session::handshake::Handshake;
use brz_net::session::lifecycle::{refuse, Lifecycle};
use brz_net::session::options::{
    maintenance_jitter, next_delay, RX_MAINTENANCE_INTERVAL_MILLIS,
};
use brz_net::session::shared::{Capacity, Shared};
use brz_net::session::writes::{WriteQueue, MAX_WRITE_VECTORS};
use brz_net::time::{Duration, Instant};
use brz_net::{
    Endpoint, Frame, HandshakeStatus, NetError, NodeOptions, RequestToken, RxBuffer, SessionError,
    SessionProtocol, DEFAULT_MAX_RX_BUFFER_CAPACITY, MAX_IN_FLIGHT,
};
use bytes::{Buf, BufMut, Bytes, BytesMut};
use std::convert::Infallible;
use std::io::IoSlice;
use std::pin::Pin;
use std::task::{Context, Poll, Waker};
use tokio::io::AsyncWrite;

#[derive(Default)]
struct CountingWriter {
    direct_calls: usize,
    vectored_calls: usize,
    maximum_write: usize,
}

impl AsyncWrite for CountingWriter {
    fn poll_write(
        mut self: Pin<&mut Self>,
        _cx: &mut Context<'_>,
        bytes: &[u8],
    ) -> Poll<std::io::Result<usize>> {
        self.direct_calls += 1;
        Poll::Ready(Ok(bytes.len().min(self.maximum_write)))
    }

    fn poll_write_vectored(
        mut self: Pin<&mut Self>,
        _cx: &mut Context<'_>,
        slices: &[IoSlice<'_>],
    ) -> Poll<std::io::Result<usize>> {
        self.vectored_calls += 1;
        let length = slices.iter().map(|slice| slice.len()).sum::<usize>();
        Poll::Ready(Ok(length.min(self.maximum_write)))
    }

    fn is_write_vectored(&self) -> bool {
        true
    }

    fn poll_flush(self: Pin<&mut Self>, _cx: &mut Context<'_>) -> Poll<std::io::Result<()>> {
        Poll::Ready(Ok(()))
    }

    fn poll_shutdown(self: Pin<&mut Self>, _cx: &mut Context<'_>) -> Poll<std::io::Result<()>> {
        Poll::Ready(Ok(()))
    }
}

fn poll_write<F: Frame>(
    writes: &mut WriteQueue<F>,
    cx: &mut Context<'_>,
    writer: &mut CountingWriter,
) -> Poll<std::io::Result<usize>> {
    let polled = if writes.is_vectored(writer.is_write_vectored()) {
        let slices: Vec<IoSlice<'_>> =
            (0..writes.batch_len()).map(|at| IoSlice::new(writes.piece(at))).collect();
        Pin::new(writer).poll_write_vectored(cx, &slices)
    } else {
        Pin::new(writer).poll_write(cx, writes.piece(0))
    };
    if let Poll::Ready(Ok(written)) = &polled {
        writes.advance(*written);
    }
    polled
}

#[test]
fn one_frame_uses_direct_write_and_multiple_frames_use_writev() {
    let mut cx = Context::from_waker(Waker::noop());
    let mut writer = CountingWriter {
        maximum_write: usize::MAX,
        ..CountingWriter::default()
    };
    let mut writes = WriteQueue::new(MAX_WRITE_VECTORS);

    assert!(writes.push(Bytes::from_static(b"one")));
    assert!(matches!(
        poll_write(&mut writes, &mut cx, &mut writer),
        Poll::Ready(Ok(3))
    ));
    assert_eq!(writer.direct_calls, 1);
    assert_eq!(writer.vectored_calls, 0);

    assert!(writes.push(Bytes::from_static(b"two")));
    assert!(writes.push(Bytes::from_static(b"three")));
    assert!(matches!(
        poll_write(&mut writes, &mut cx, &mut writer),
        Poll::Ready(Ok(8))
    ));
    assert_eq!(writer.direct_calls, 1);
    assert_eq!(writer.vectored_calls, 1);
    assert!(writes.is_empty());
}

#[test]
fn partial_write_preserves_the_remaining_frame_offset() {
    let mut cx = Context::from_waker(Waker::noop());
    let mut writer = CountingWriter {
        maximum_write: 4,
        ..CountingWriter::default()
    };
    let mut writes = WriteQueue::new(MAX_WRITE_VECTORS);
    assert!(writes.push(Bytes::from_static(b"abc")));
    assert!(writes.push(Bytes::from_static(b"def")));

    assert!(matches!(
        poll_write(&mut writes, &mut cx, &mut writer),
        Poll::Ready(Ok(4))
    ));
    assert_eq!(writer.vectored_calls, 1);
    assert_eq!(writes.len(), 1);
    assert_eq!(writes.front_offset(), 1);

    assert!(matches!(
        poll_write(&mut writes, &mut cx, &mut writer),
        Poll::Ready(Ok(2))
    ));
    assert_eq!(writer.direct_calls, 1);
    assert!(writes.is_empty());
}

#[test]
fn write_queues_refuse_empty_frames_and_clamp_their_batch() {
    let mut writes = WriteQueue::new(0);
    assert!(!writes.push(Bytes::new()));
    assert!(writes.is_empty());
    for _ in 0..3 {
        assert!(writes.push(Bytes::from_static(b"x")));
    }
    assert_eq!(writes.batch_len(), 1);
    assert!(!writes.is_vectored(true));
    writes.clear();
    assert!(writes.is_empty());

    let mut wide = WriteQueue::new(100);
    for _ in 0..9 {
        assert!(wide.push(Bytes::from_static(b"xy")));
    }
    assert_eq!(wide.batch_len(), MAX_WRITE_VECTORS);
    assert!(wide.is_vectored(true));
    assert!(!wide.is_vectored(false));
    wide.advance(5);
    assert_eq!(wide.len(), 7);
    assert_eq!(wide.piece(0), b"y");
    assert_eq!(wide.piece(1), b"xy");
}

#[test]
fn defaults_use_a_two_kib_receive_ring_and_four_frame_write_batch() {
    let options = NodeOptions::default();

    assert_eq!(options.read_buffer_capacity, 2 * 1024);
    assert_eq!(options.write_batch, MAX_WRITE_VECTORS);
    assert!(options.validate().is_ok());
    assert_eq!(options.request_timeout, Duration::from_millis(500));
    assert_eq!(options.connect_timeout, Duration::from_secs(2));
    assert_eq!(options.reconnect_delay, Duration::from_millis(50));
    assert_eq!(options.max_reconnect_delay, Duration::from_secs(2));
    assert!(options.tcp_nodelay);
    assert_eq!(
        options.max_read_buffer_capacity,
        DEFAULT_MAX_RX_BUFFER_CAPACITY
    );
}

#[test]
fn write_batch_is_bounded_by_the_stack_iovec_array() {
    let options = NodeOptions {
        write_batch: MAX_WRITE_VECTORS + 1,
        ..NodeOptions::default()
    };

    assert!(options.validate().is_err());
}

fn complaint(options: NodeOptions) -> String {
    match options.validate() {
        Err(NetError::InvalidConfig(message)) => message,
        _ => panic!("expected a configuration error"),
    }
}

#[test]
fn node_options_are_checked_one_by_one() {
    let zero = Duration::from_nanos(0);
    let base = NodeOptions::default();
    assert_eq!(
        complaint(NodeOptions { request_timeout: zero, ..base }),
        "request_timeout must be greater than zero"
    );
    assert_eq!(
        complaint(NodeOptions { connect_timeout: zero, ..base }),
        "connect_timeout must be greater than zero"
    );
    assert_eq!(
        complaint(NodeOptions { reconnect_delay: zero, ..base }),
        "reconnect_delay must be greater than zero"
    );
    assert_eq!(
        complaint(NodeOptions { max_reconnect_delay: Duration::from_millis(49), ..base }),
        "max_reconnect_delay must be at least reconnect_delay"
    );
    assert_eq!(
        complaint(NodeOptions { write_batch: 0, ..base }),
        "write_batch must be between 1 and 4"
    );
    assert_eq!(
        complaint(NodeOptions { read_buffer_capacity: 0, ..base }),
        "read_buffer_capacity must be greater than zero"
    );
    assert_eq!(
        complaint(NodeOptions { read_buffer_capacity: 3, ..base }),
        "receive buffer capacities must be powers of two and max must be at least initial"
    );
    assert_eq!(
        complaint(NodeOptions { max_read_buffer_capacity: 1024, ..base }),
        "receive buffer capacities must be powers of two and max must be at least initial"
    );
}

fn v4(ip: [u8; 4], port: u16) -> Endpoint {
    Endpoint::V4 {
        ip: u32::from_be_bytes(ip),
        port,
    }
}

#[test]
fn maintenance_jitter_is_stable_and_bounded() {
    let first = v4([127, 0, 0, 1], 6379);
    let second = v4([127, 0, 0, 2], 6379);
    let interval = Duration::from_millis(RX_MAINTENANCE_INTERVAL_MILLIS);

    assert_eq!(maintenance_jitter(first), maintenance_jitter(first));
    assert!(maintenance_jitter(first).nanos < interval.nanos);
    assert!(maintenance_jitter(second).nanos < interval.nanos);
    assert_ne!(maintenance_jitter(first), maintenance_jitter(second));
}

#[test]
fn maintenance_jitter_hashes_family_address_and_port() {
    fn hash(bytes: &[u8]) -> u64 {
        bytes.iter().fold(0xcbf2_9ce4_8422_2325, |hash: u64, byte| {
            (hash ^ u64::from(*byte)).wrapping_mul(0x0000_0100_0000_01b3)
        })
    }
    assert_eq!(
        maintenance_jitter(v4([127, 0, 0, 1], 6379)),
        Duration::from_millis(hash(&[4, 127, 0, 0, 1, 0x18, 0xeb]) % 60_000)
    );
    let loopback = Endpoint::V6 {
        ip: 1,
        port: 80,
        flowinfo: 7,
        scope_id: 9,
    };
    let mut bytes = vec![6];
    bytes.extend_from_slice(&1_u128.to_be_bytes());
    bytes.extend_from_slice(&80_u16.to_be_bytes());
    assert_eq!(
        maintenance_jitter(loopback),
        Duration::from_millis(hash(&bytes) % 60_000)
    );
}

#[test]
fn reconnect_delays_double_up_to_the_maximum() {
    let maximum = Duration::from_secs(2);
    let mut delay = Duration::from_millis(50);
    let mut seen = Vec::new();
    for _ in 0..7 {
        delay = next_delay(delay, maximum);
        seen.push(delay.nanos / 1_000_000);
    }
    assert_eq!(seen, vec![100, 200, 400, 800, 1_600, 2_000, 2_000]);
    assert_eq!(
        next_delay(Duration { nanos: u128::MAX }, Duration { nanos: u128::MAX }).nanos,
        u128::MAX
    );
}

/// Sends one byte for a request and reads one byte for a response.
struct ByteFifo;

impl SessionProtocol for ByteFifo {
    type Request = u8;
    type Frame = [u8; 1];
    type Response = u8;
    type Error = Infallible;

    fn encode(&mut self, request: u8, _request_id: RequestToken) -> Result<[u8; 1], Infallible> {
        Ok([request])
    }

    fn decode(
        &mut self,
        src: &mut RxBuffer,
    ) -> Result<Option<DecodedResponse<u8>>, Infallible> {
        let Some(response) = src.byte(0) else {
            return Ok(None);
        };
        src.advance(1);
        Ok(Some(DecodedResponse::fifo(response)))
    }
}

/// Writes the identifier before the byte and reads it back.
struct ByteTagged;

impl SessionProtocol for ByteTagged {
    type Request = u8;
    type Frame = Bytes;
    type Response = u8;
    type Error = &'static str;

    fn encode(&mut self, request: u8, request_id: RequestToken) -> Result<Bytes, &'static str> {
        if request == 0 {
            return Ok(Bytes::new());
        }
        if request == 1 {
            return Err("unencodable");
        }
        let mut frame = BytesMut::new();
        frame.put_u64(request_id.as_u64());
        frame.put_u8(request);
        Ok(frame.freeze())
    }

    fn decode(
        &mut self,
        src: &mut RxBuffer,
    ) -> Result<Option<DecodedResponse<u8>>, &'static str> {
        if src.len() < 9 {
            return Ok(None);
        }
        let mut frame = src.take(9).copy_range(0..9);
        let request_id = frame.get_u64();
        let response = frame.get_u8();
        if response == 0xff {
            return Err("undecodable");
        }
        Ok(Some(DecodedResponse::tagged(request_id, response)))
    }
}

/// The handshake of a protocol that needs none.
fn shaken<P: SessionProtocol>(driver: &mut Driver<P>) -> Handshake {
    let handshake = Handshake::begin(driver.protocol());
    match handshake {
        Ok(handshake) if handshake.is_done() => handshake,
        _ => panic!("the protocol is ready at once"),
    }
}

fn connected<P: SessionProtocol>(protocol: P) -> (Driver<P>, Shared<P::Response, P::Error>) {
    let options = NodeOptions::default();
    let mut driver = Driver::new(v4([127, 0, 0, 1], 1), protocol, options);
    let mut shared = Shared::new();
    driver.begin();
    let handshake = shaken(&mut driver);
    Lifecycle::new(&options).established(&options, &handshake, &mut shared);
    (driver, shared)
}

fn at(millis: u128) -> Instant {
    Instant {
        nanos: millis * 1_000_000,
    }
}

/// Moves what the driver wants to write to the peer.
fn flush<P: SessionProtocol>(driver: &mut Driver<P>) -> Vec<u8> {
    let mut sent = Vec::new();
    while driver.has_writes() {
        let mut taken = 0;
        for index in 0..driver.writes().batch_len() {
            let piece = driver.writes().piece(index);
            sent.extend_from_slice(piece);
            taken += piece.len();
        }
        assert!(driver.on_written(taken).is_ok());
    }
    sent
}

fn receive<P: SessionProtocol>(
    driver: &mut Driver<P>,
    shared: &mut Shared<P::Response, P::Error>,
    bytes: &[u8],
) -> Result<(), DriveError<P::Error>> {
    driver.read_buffer().extend_from_slice(bytes).unwrap();
    driver.on_read(shared, SocketRead::Response(DrainOutcome::Drained))
}

#[test]
fn many_fifo_requests_share_exactly_one_tcp_connection() {
    let (mut driver, mut shared) = connected(ByteFifo);
    let mut responses = Vec::new();
    for value in 0_u8..128 {
        let (envelope, future) = shared.request_with(Capacity::Granted, || value).unwrap();
        if !driver.accept(envelope) {
            driver.encode_batch(&mut shared, at(0));
        }
        responses.push((value, future));
    }
    driver.encode_batch(&mut shared, at(0));
    assert_eq!(shared.stats().active_requests, 128);
    let echo = flush(&mut driver);
    assert_eq!(echo, (0_u8..128).collect::<Vec<_>>());
    receive(&mut driver, &mut shared, &echo).unwrap();
    for (expected, mut response) in responses {
        let received = shared.poll(&mut response, Waker::noop()).unwrap();
        assert_eq!(received.unwrap(), expected);
    }
    assert_eq!(shared.stats().successful_connections, 1);
    assert_eq!(shared.stats().active_requests, 0);
    assert_eq!(driver.deadline(), None);
}

#[test]
fn tagged_responses_may_arrive_out_of_order() {
    let (mut driver, mut shared) = connected(ByteTagged);
    let mut futures = Vec::new();
    for value in [11, 22] {
        let (envelope, future) = shared.request_with(Capacity::Granted, || value).unwrap();
        driver.accept(envelope);
        futures.push(future);
    }
    driver.encode_batch(&mut shared, at(0));
    let sent = flush(&mut driver);
    assert_eq!(sent.len(), 18);
    receive(&mut driver, &mut shared, &sent[9..]).unwrap();
    receive(&mut driver, &mut shared, &sent[..9]).unwrap();
    let second = shared.poll(&mut futures[1], Waker::noop()).unwrap().unwrap();
    let first = shared.poll(&mut futures[0], Waker::noop()).unwrap().unwrap();
    assert_eq!(first, 11);
    assert_eq!(second, 22);
    // The same response again is late and changes nothing.
    receive(&mut driver, &mut shared, &sent[..9]).unwrap();
    assert_eq!(shared.stats().active_requests, 0);
}

#[test]
fn capacity_is_strictly_bounded_and_fails_fast() {
    let (_driver, mut shared) = connected(ByteFifo);
    let mut requests = Vec::new();
    for value in 0..MAX_IN_FLIGHT {
        let built = shared.request_with(Capacity::Granted, || value as u8);
        requests.push(built.unwrap().1);
    }
    assert_eq!(shared.stats().active_requests, MAX_IN_FLIGHT);
    assert!(matches!(
        shared.request_with(Capacity::Granted, || panic!("built although refused")),
        Err::<(brz_net::session::shared::Envelope<u8>, _), _>(SessionError::Busy)
    ));
    assert!(matches!(
        shared.set_aside(Capacity::Full),
        Err(SessionError::Busy)
    ));
    assert!(matches!(
        shared.set_aside(Capacity::Closed),
        Err(SessionError::Closed)
    ));
    for request in requests {
        shared.cancel(request);
    }
    assert_eq!(shared.stats().active_requests, MAX_IN_FLIGHT);
}

#[test]
fn batches_are_admitted_whole_or_not_at_all() {
    let (_driver, mut shared) = connected(ByteFifo);
    let first = shared.set_aside_all(Capacity::Granted, MAX_IN_FLIGHT - 2).unwrap();
    assert_eq!(first.len(), MAX_IN_FLIGHT - 2);
    assert!(matches!(
        shared.set_aside_all(Capacity::Granted, 3),
        Err(SessionError::Busy)
    ));
    assert_eq!(shared.stats().active_requests, MAX_IN_FLIGHT - 2);
    let rest = shared.set_aside_all(Capacity::Granted, 2).unwrap();
    assert_eq!(rest.len(), 2);
    for reservation in rest {
        shared.give_up(reservation);
    }
    assert_eq!(shared.stats().active_requests, MAX_IN_FLIGHT - 2);
    assert!(matches!(
        shared.set_aside_all(Capacity::Closed, 1),
        Err(SessionError::Closed)
    ));
    shared.lose();
    assert!(matches!(
        shared.set_aside_all(Capacity::Granted, 1),
        Err(SessionError::Unavailable)
    ));
}

#[test]
fn batched_requests_are_answered_by_their_own_handles() {
    let (mut driver, mut shared) = connected(ByteFifo);
    let mut futures = Vec::new();
    let submitted = shared
        .request_batch(Capacity::Granted, vec![10, 20, 30])
        .unwrap();
    assert_eq!(submitted.len(), 3);
    for ((envelope, future), request) in submitted.into_iter().zip([10, 20, 30]) {
        assert_eq!(envelope.request, request);
        assert_eq!(envelope.connection_generation, 1);
        assert_eq!(envelope.token, future.request_token());
        driver.accept(envelope);
        futures.push((future, request));
    }
    driver.encode_batch(&mut shared, at(0));
    let echo = flush(&mut driver);
    assert_eq!(echo, vec![10, 20, 30]);
    receive(&mut driver, &mut shared, &echo).unwrap();
    for (mut future, request) in futures {
        let response = shared.poll(&mut future, Waker::noop()).unwrap();
        assert_eq!(response.unwrap(), request);
    }
    assert_eq!(shared.stats().active_requests, 0);

    let many = vec![0; MAX_IN_FLIGHT + 1];
    assert!(matches!(
        shared.request_batch(Capacity::Granted, many),
        Err(SessionError::Busy)
    ));
    assert!(matches!(
        shared.request_batch(Capacity::Full, vec![1]),
        Err(SessionError::Busy)
    ));
    assert_eq!(shared.stats().active_requests, 0);
}

#[test]
fn requests_never_cross_connections() {
    let options = NodeOptions::default();
    let (mut driver, mut shared) = connected(ByteFifo);
    let unbuilt = shared.set_aside(Capacity::Granted).unwrap();
    let unsent = shared.set_aside(Capacity::Granted).unwrap();
    let (stale, mut future) = shared.request_with(Capacity::Granted, || 5).unwrap();
    shared.lose();
    assert!(matches!(shared.confirm(unbuilt), Err(SessionError::Unavailable)));
    Lifecycle::new(&options).established(&options, &shaken(&mut driver), &mut shared);
    assert_eq!(shared.generation(), 2);
    assert!(matches!(
        shared.publish(unsent, 7_u8),
        Err(SessionError::Unavailable)
    ));
    driver.accept(stale);
    driver.encode_batch(&mut shared, at(0));
    assert!(!driver.has_writes());
    assert!(matches!(
        shared.poll(&mut future, Waker::noop()),
        Some(Err(SessionError::Unavailable))
    ));
    assert_eq!(shared.stats().active_requests, 0);
}

#[test]
fn oldest_timeout_closes_connection_fails_all_and_reconnects() {
    let options = NodeOptions {
        request_timeout: Duration::from_millis(40),
        ..NodeOptions::default()
    };
    let mut driver = Driver::new(v4([127, 0, 0, 1], 1), ByteFifo, options);
    let mut shared = Shared::new();
    let mut lifecycle = Lifecycle::new(&options);
    lifecycle.established(&options, &shaken(&mut driver), &mut shared);

    let mut futures = Vec::new();
    for value in [1, 2] {
        let (envelope, future) = shared.request_with(Capacity::Granted, || value).unwrap();
        driver.accept(envelope);
        driver.encode_batch(&mut shared, at(u128::from(value)));
        futures.push(future);
    }
    assert_eq!(driver.deadline(), Some(at(41)));
    let (queued, late) = shared.request_with(Capacity::Granted, || 3).unwrap();
    futures.push(late);
    let wait = lifecycle.ended(
        &mut driver,
        &mut shared,
        DriveError::Timeout,
        vec![queued],
        false,
    );
    assert_eq!(wait, Some(Duration::from_millis(50)));
    for mut future in futures {
        match shared.poll(&mut future, Waker::noop()) {
            Some(Err(SessionError::Timeout { timeout })) => {
                assert_eq!(timeout, Duration::from_millis(40))
            }
            _ => panic!("every request fails with the connection"),
        }
    }
    assert!(!shared.is_connected());
    assert!(!driver.has_writes());
    assert_eq!(driver.deadline(), None);

    lifecycle.established(&options, &shaken(&mut driver), &mut shared);
    let (envelope, mut future) = shared.request_with(Capacity::Granted, || 3).unwrap();
    driver.accept(envelope);
    driver.encode_batch(&mut shared, at(100));
    let echo = flush(&mut driver);
    receive(&mut driver, &mut shared, &echo).unwrap();
    assert_eq!(
        shared.poll(&mut future, Waker::noop()).unwrap().unwrap(),
        3
    );
    assert_eq!(shared.stats().disconnects, 1);
}

#[test]
fn events_drive_a_request_from_admission_to_response() {
    let (mut driver, mut shared) = connected(ByteFifo);
    let (envelope, mut future) = shared.request_with(Capacity::Granted, || 7).unwrap();
    assert!(driver.accept(envelope));
    assert!(driver
        .on_event(&mut shared, LinkEvent::Batched, at(0))
        .is_ok());
    assert_eq!(driver.deadline(), Some(at(500)));
    assert_eq!(driver.writes().piece(0), &[7]);
    assert!(driver
        .on_event(&mut shared, LinkEvent::Written(1), at(1))
        .is_ok());
    assert!(!driver.has_writes());
    driver.read_buffer().extend_from_slice(&[7]).unwrap();
    let read = SocketRead::Response(DrainOutcome::Drained);
    assert!(driver
        .on_event(&mut shared, LinkEvent::Read(read), at(2))
        .is_ok());
    assert_eq!(shared.poll(&mut future, Waker::noop()).unwrap().unwrap(), 7);
    assert!(driver
        .on_event(&mut shared, LinkEvent::Maintenance, at(3))
        .is_ok());
}

#[test]
fn events_end_a_connection() {
    let (mut driver, mut shared) = connected(ByteFifo);
    assert!(driver
        .on_event(&mut shared, LinkEvent::TimedOut, at(0))
        .is_ok());
    let (envelope, _future) = shared.request_with(Capacity::Granted, || 1).unwrap();
    driver.accept(envelope);
    driver.encode_batch(&mut shared, at(0));
    assert!(matches!(
        driver.on_event(&mut shared, LinkEvent::TimedOut, at(500)),
        Err(DriveError::Timeout)
    ));

    let (mut driver, mut shared) = connected(ByteFifo);
    assert!(matches!(
        driver.on_event(&mut shared, LinkEvent::HandlesGone, at(0)),
        Err(DriveError::Closed)
    ));
    assert!(matches!(
        driver.on_event(&mut shared, LinkEvent::Written(0), at(0)),
        Err(DriveError::WriteZero)
    ));
    let broken = std::io::Error::from(std::io::ErrorKind::BrokenPipe);
    assert!(matches!(
        driver.on_event(&mut shared, LinkEvent::Failed(broken), at(0)),
        Err(DriveError::Io(error)) if error.kind() == std::io::ErrorKind::BrokenPipe
    ));
    assert!(matches!(
        driver.on_event(&mut shared, LinkEvent::Read(SocketRead::IdleEof), at(0)),
        Err(DriveError::UnexpectedEof)
    ));
    assert!(matches!(
        driver.on_event(&mut shared, LinkEvent::Read(SocketRead::IdleData), at(0)),
        Err(DriveError::UnexpectedResponse)
    ));
}

#[test]
fn the_last_handle_ends_the_connection_for_good() {
    let options = NodeOptions::default();
    let (mut driver, mut shared) = connected(ByteFifo);
    let lifecycle = Lifecycle::new(&options);
    let wait = lifecycle.ended(&mut driver, &mut shared, DriveError::Closed, Vec::new(), true);
    assert_eq!(wait, None);
    assert_eq!(shared.stats().disconnects, 0);
}

#[test]
fn failed_connects_back_off_and_success_resets() {
    let options = NodeOptions::default();
    let mut shared = Shared::<u8, Infallible>::new();
    let mut lifecycle = Lifecycle::new(&options);
    assert_eq!(lifecycle.failed(&options), Duration::from_millis(50));
    assert_eq!(lifecycle.failed(&options), Duration::from_millis(100));
    lifecycle.established(&options, &Handshake::begin(&mut ByteFifo).unwrap(), &mut shared);
    assert_eq!(lifecycle.failed(&options), Duration::from_millis(50));
}

#[test]
fn requests_without_a_connection_are_refused() {
    let mut shared = Shared::<u8, Infallible>::new();
    assert!(matches!(
        shared.set_aside(Capacity::Granted),
        Err(SessionError::Unavailable)
    ));
    let options = NodeOptions::default();
    Lifecycle::new(&options).established(&options, &Handshake::begin(&mut ByteFifo).unwrap(), &mut shared);
    let (envelope, mut future) = shared.request_with(Capacity::Granted, || 1_u8).unwrap();
    shared.lose();
    refuse(&mut shared, envelope);
    assert!(matches!(
        shared.poll(&mut future, Waker::noop()),
        Some(Err(SessionError::Unavailable))
    ));
}

#[test]
fn encoding_failures_answer_only_their_request() {
    let (mut driver, mut shared) = connected(ByteTagged);
    let mut futures = Vec::new();
    for value in [0, 1, 2] {
        let (envelope, future) = shared.request_with(Capacity::Granted, || value).unwrap();
        driver.accept(envelope);
        futures.push(future);
    }
    driver.encode_batch(&mut shared, at(0));
    assert!(matches!(
        shared.poll(&mut futures[0], Waker::noop()),
        Some(Err(SessionError::EmptyRequestFrame))
    ));
    match shared.poll(&mut futures[1], Waker::noop()) {
        Some(Err(SessionError::Protocol(error))) => assert_eq!(*error, "unencodable"),
        _ => panic!("the protocol failed"),
    }
    assert!(shared.poll(&mut futures[2], Waker::noop()).is_none());
    assert_eq!(flush(&mut driver).len(), 9);
}

#[test]
fn responses_nobody_waits_for_end_the_connection() {
    let (mut driver, mut shared) = connected(ByteFifo);
    assert!(matches!(
        receive(&mut driver, &mut shared, b"x"),
        Err(DriveError::UnexpectedResponse)
    ));
    assert!(matches!(
        driver.on_read(&mut shared, SocketRead::IdleData),
        Err(DriveError::UnexpectedResponse)
    ));
    assert!(matches!(
        driver.on_read(&mut shared, SocketRead::IdleEof),
        Err(DriveError::UnexpectedEof)
    ));
    assert!(matches!(
        driver.on_read(&mut shared, SocketRead::Response(DrainOutcome::Eof)),
        Err(DriveError::UnexpectedEof)
    ));
    assert!(matches!(driver.on_written(0), Err(DriveError::WriteZero)));
}

#[test]
fn undecodable_responses_end_the_connection() {
    let (mut driver, mut shared) = connected(ByteTagged);
    let result = receive(&mut driver, &mut shared, &[0xff; 9]);
    match result {
        Err(DriveError::Protocol(error)) => assert_eq!(error, "undecodable"),
        _ => panic!("the protocol failed"),
    }
}

#[test]
fn full_rings_grow_until_the_limit() {
    let options = NodeOptions {
        read_buffer_capacity: 4,
        max_read_buffer_capacity: 8,
        ..NodeOptions::default()
    };
    let mut driver = Driver::new(v4([127, 0, 0, 1], 1), ByteTagged, options);
    let mut shared = Shared::new();
    driver.read_buffer().extend_from_slice(b"1234").unwrap();
    driver
        .on_read(&mut shared, SocketRead::Response(DrainOutcome::Full))
        .unwrap();
    assert_eq!(driver.read_buffer().capacity(), 8);
    driver.read_buffer().extend_from_slice(b"5678").unwrap();
    match driver.on_read(&mut shared, SocketRead::Response(DrainOutcome::Full)) {
        Err(DriveError::Overflow(limit)) => {
            assert_eq!((limit.required, limit.maximum), (9, 8));
            let error: SessionError<&str> =
                DriveError::Overflow(limit).into_session_error(options.request_timeout);
            match error {
                SessionError::Io(error) => {
                    assert_eq!(error.kind(), std::io::ErrorKind::InvalidData);
                    assert_eq!(
                        error.to_string(),
                        "receive buffer requires 9 bytes, above its 8-byte limit"
                    );
                }
                _ => panic!("an overflow is an I/O failure"),
            }
        }
        _ => panic!("the ring may not grow further"),
    }
}

#[test]
fn drive_errors_become_session_errors() {
    let timeout = Duration::from_millis(7);
    let told = |error: DriveError<&'static str>| error.into_session_error(timeout);
    match told(DriveError::UnexpectedEof) {
        SessionError::Io(error) => {
            assert_eq!(error.kind(), std::io::ErrorKind::UnexpectedEof)
        }
        _ => panic!("the end of the stream is an I/O failure"),
    }
    match told(DriveError::WriteZero) {
        SessionError::Io(error) => assert_eq!(error.kind(), std::io::ErrorKind::WriteZero),
        _ => panic!("a blocked write is an I/O failure"),
    }
    match told(DriveError::Io(std::io::Error::other("reset"))) {
        SessionError::Io(error) => assert_eq!(error.to_string(), "reset"),
        _ => panic!("I/O failures stay what they are"),
    }
    match told(DriveError::Protocol("bad")) {
        SessionError::Protocol(error) => assert_eq!(*error, "bad"),
        _ => panic!("protocol failures stay what they are"),
    }
    assert!(matches!(
        told(DriveError::Timeout),
        SessionError::Timeout { timeout: told } if told == timeout
    ));
    assert!(matches!(told(DriveError::Closed), SessionError::Closed));
    assert!(matches!(
        told(DriveError::UnexpectedResponse),
        SessionError::UnexpectedResponse
    ));
}

#[test]
fn reading_ends_when_drained_full_or_closed() {
    let mut buffer = RxBuffer::new(4, 8);
    assert_eq!(begin_drain(&mut buffer).unwrap(), None);
    buffer.extend_from_slice(b"abc").unwrap();
    assert_eq!(after_read(&buffer, ReadStep::Bytes(3)), None);
    assert_eq!(
        after_read(&buffer, ReadStep::WouldBlock),
        Some(DrainOutcome::Drained)
    );
    assert_eq!(
        after_read(&buffer, ReadStep::Bytes(0)),
        Some(DrainOutcome::Eof)
    );
    buffer.extend_from_slice(b"d").unwrap();
    assert_eq!(
        after_read(&buffer, ReadStep::Bytes(1)),
        Some(DrainOutcome::Full)
    );
    assert_eq!(begin_drain(&mut buffer).unwrap(), Some(DrainOutcome::Full));
    assert_eq!(idle_outcome(0), SocketRead::IdleEof);
    assert_eq!(idle_outcome(1), SocketRead::IdleData);
}

#[test]
fn maintenance_is_planned_and_shrinks_the_ring() {
    let (mut driver, _shared) = connected(ByteFifo);
    let planned = driver.first_maintenance(at(5));
    assert_eq!(
        planned.nanos,
        at(5).nanos + maintenance_jitter(v4([127, 0, 0, 1], 1)).nanos
    );
    driver.read_buffer().reserve(8_192).unwrap();
    assert_eq!(driver.read_buffer().capacity(), 8_192);
    for _ in 0..20 {
        driver.on_maintenance();
    }
    assert_eq!(driver.read_buffer().capacity(), 2_048);
    assert_eq!(driver.request_timeout(), Duration::from_millis(500));
}

/// A frame of a type of its own.
struct OneByte([u8; 1]);

impl Frame for OneByte {
    fn as_bytes(&self) -> &[u8] {
        &self.0
    }
}

struct Authenticated;

impl SessionProtocol for Authenticated {
    type Request = u8;
    type Frame = OneByte;
    type Response = u8;
    type Error = &'static str;

    fn begin_handshake(&mut self, dst: &mut BytesMut) -> Result<HandshakeStatus, &'static str> {
        dst.put_u8(0xaa);
        Ok(HandshakeStatus::Pending)
    }

    fn decode_handshake(
        &mut self,
        src: &mut BytesMut,
        _dst: &mut BytesMut,
    ) -> Result<HandshakeStatus, &'static str> {
        if src.is_empty() {
            return Ok(HandshakeStatus::Pending);
        }
        if src.get_u8() == 0xbb {
            Ok(HandshakeStatus::Ready)
        } else {
            Err("denied")
        }
    }

    fn encode(&mut self, request: u8, _request_id: RequestToken) -> Result<OneByte, &'static str> {
        Ok(OneByte([request]))
    }

    fn decode(
        &mut self,
        _src: &mut RxBuffer,
    ) -> Result<Option<DecodedResponse<u8>>, &'static str> {
        Ok(None)
    }
}

#[test]
fn node_becomes_available_only_after_protocol_handshake() {
    let options = NodeOptions::default();
    let mut shared = Shared::<u8, &'static str>::new();
    let mut driver = Driver::new(v4([127, 0, 0, 1], 1), Authenticated, options);
    assert!(!shared.is_connected());
    assert!(matches!(
        shared.request_with(Capacity::Granted, || 7_u8),
        Err(SessionError::Unavailable)
    ));
    let mut handshake = Handshake::begin(driver.protocol()).unwrap();
    assert!(!handshake.is_done());
    assert!(handshake.wants_read());
    assert!(handshake.wants_write());
    assert_eq!(&handshake.outgoing()[..], &[0xaa]);
    handshake.on_written::<&str>(1).unwrap();
    assert!(!handshake.wants_write());
    assert!(!handshake.is_done());
    handshake.incoming().put_u8(0xbb);
    handshake.on_read(driver.protocol(), 1).unwrap();
    assert!(handshake.is_done());
    assert!(!handshake.wants_read());
    Lifecycle::new(&options).established(&options, &handshake, &mut shared);
    assert!(shared.request_with(Capacity::Granted, || 7_u8).is_ok());
    assert_eq!(shared.stats().successful_connections, 1);
}

#[test]
fn handshakes_fail_with_their_connection() {
    let mut protocol = Authenticated;
    let mut handshake = Handshake::begin(&mut protocol).unwrap();
    assert!(matches!(
        handshake.on_read(&mut protocol, 0),
        Err(DriveError::UnexpectedEof)
    ));
    assert!(matches!(
        handshake.on_written::<&str>(0),
        Err(DriveError::WriteZero)
    ));
    handshake.incoming().put_u8(0xcc);
    assert!(matches!(
        handshake.on_read(&mut protocol, 1),
        Err(DriveError::Protocol("denied"))
    ));
    let mut plain = ByteFifo;
    let done = match Handshake::begin(&mut plain) {
        Ok(handshake) => handshake.is_done(),
        Err(_) => panic!("nothing to do"),
    };
    assert!(done);
}

#[test]
fn decoded_responses_carry_their_correlation() {
    assert_eq!(DecodedResponse::fifo(1).correlation, Correlation::Fifo);
    assert_eq!(
        DecodedResponse::tagged(0x105, 1).correlation,
        Correlation::Tagged(RequestToken::from_raw(0x105))
    );
}
