//! Endpoints, pooled connections, leases and process-wide settings.
use brz_net::client::conclude_operation;
use brz_net::maintenance::{enqueue, Maintainer, MAX_BACKGROUND_CONNECTS};
use brz_net::node::{
    validate_options, AcquireAction, ConnectionState, EndpointRotation, IdleConnection,
};
use brz_net::source::{contains, normalize, EndpointSnapshot};
use brz_net::time::{Duration, Instant};
use brz_net::{
    CallError, Endpoint, EndpointSet, NetError, NodePoolOptions, RequestArenaConfig, StreamLease,
    TcpClient, DEFAULT_REQUEST_ARENA_CHUNK_SIZE,
};
use std::collections::{HashSet, VecDeque};

fn local(port: u16) -> Endpoint {
    Endpoint::V4 {
        ip: u32::from_be_bytes([127, 0, 0, 1]),
        port,
    }
}

fn at(millis: u128) -> Instant {
    Instant {
        nanos: millis * 1_000_000,
    }
}

#[test]
fn endpoint_updates_publish_immutable_cow_snapshots() {
    let first = local(1001);
    let second = local(1002);
    let mut endpoints = EndpointSet::new(vec![first]);

    let before = endpoints.snapshot();
    assert!(endpoints.replace(vec![second]));
    let after = endpoints.snapshot();

    assert_eq!(*before, vec![first]);
    assert_eq!(*after, vec![second]);
}

#[test]
fn only_real_changes_are_published() {
    let mut endpoints = EndpointSet::new(vec![local(2), local(1), local(2)]);
    assert_eq!(*endpoints.snapshot(), vec![local(1), local(2)]);
    assert!(!endpoints.replace(vec![local(1), local(2), local(1)]));
    assert!(endpoints.replace(Vec::new()));
    assert!(endpoints.snapshot().is_empty());

    let snapshot = EndpointSnapshot::new(vec![local(3)]);
    assert!(snapshot.replacement(vec![local(3), local(3)]).is_none());
    let next = snapshot.replacement(vec![local(4)]).unwrap();
    assert_eq!(*next.endpoints(), vec![local(4)]);
    assert_eq!(*snapshot.endpoints(), vec![local(3)]);
}

#[test]
fn endpoints_are_ordered_by_family_address_and_port() {
    let v6 = Endpoint::V6 {
        ip: 0,
        port: 1,
        flowinfo: 0,
        scope_id: 0,
    };
    let scoped = Endpoint::V6 {
        ip: 0,
        port: 1,
        flowinfo: 0,
        scope_id: 1,
    };
    let sorted = normalize(vec![scoped, v6, local(9), local(1), v6]);
    assert_eq!(sorted, vec![local(1), local(9), v6, scoped]);
    assert!(contains(&sorted, local(9)));
    assert!(!contains(&sorted, local(2)));
}

#[test]
fn node_pool_defaults_prioritize_ready_low_latency_connections() {
    let options = NodePoolOptions::default();
    assert_eq!(options.min_connections, 1);
    assert_eq!(options.max_connections, 256);
    assert_eq!(options.idle_timeout, Duration::from_secs(300));
    assert!(options.tcp_nodelay);
}

#[test]
fn node_pool_options_are_checked_one_by_one() {
    let base = NodePoolOptions::default();
    assert!(validate_options(base).is_ok());
    let cases = [
        (
            NodePoolOptions { max_connections: 0, ..base },
            "max_connections must be greater than zero",
        ),
        (
            NodePoolOptions { min_connections: 257, ..base },
            "min_connections cannot exceed max_connections",
        ),
        (
            NodePoolOptions { idle_timeout: Duration::from_nanos(0), ..base },
            "idle_timeout must be greater than zero",
        ),
    ];
    for (options, expected) in cases {
        match ConnectionState::<u8>::new(options) {
            Err(NetError::InvalidConfig(message)) => assert_eq!(message, expected),
            _ => panic!("expected: {expected}"),
        }
    }
}

fn pool(min: usize, max: usize) -> ConnectionState<u8> {
    ConnectionState::new(NodePoolOptions {
        min_connections: min,
        max_connections: max,
        idle_timeout: Duration::from_millis(50),
        ..NodePoolOptions::default()
    })
    .ok()
    .unwrap()
}

#[test]
fn zero_operation_timeout_is_rejected() {
    let error = TcpClient::new(pool(0, 1), Duration::from_nanos(0)).err().unwrap();
    match error {
        NetError::InvalidConfig(message) => {
            assert_eq!(message, "operation_timeout must be greater than zero")
        }
        _ => panic!("a zero timeout is rejected"),
    }
}

#[test]
fn clients_apply_one_deadline() {
    let client = TcpClient::new('p', Duration::from_millis(100)).unwrap();
    assert_eq!(client.operation_timeout(), Duration::from_millis(100));
    assert_eq!(*client.provider(), 'p');
    assert_eq!(client.deadline(at(5)), at(105));
    assert!(matches!(
        client.conclude::<u8, &str>(None),
        Err(CallError::Timeout { timeout }) if timeout == Duration::from_millis(100)
    ));
    assert!(matches!(
        client.conclude(Some(Ok::<u8, CallError<&str>>(3))),
        Ok(3)
    ));
    assert_eq!(client.into_inner(), 'p');
}

#[test]
fn exhausted_pool_fails_without_invoking_the_operation() {
    let mut node = pool(0, 1);
    assert!(matches!(node.acquire(false), AcquireAction::NoEndpoints));
    assert!(matches!(node.acquire(true), AcquireAction::Connect));
    assert!(matches!(node.acquire(true), AcquireAction::Exhausted));
    node.finish_request_connection();
    assert!(matches!(node.acquire(true), AcquireAction::Exhausted));
    assert_eq!(node.stats().total_connections, 1);
    assert_eq!(node.stats().checked_out_connections, 1);

    node.recycle(71, local(1), at(0));
    assert_eq!(node.stats().total_connections, 1);
    assert_eq!(node.stats().idle_connections, 1);
}

#[test]
fn successful_operations_reuse_the_same_connection() {
    let mut node = pool(0, 4);
    assert!(matches!(node.acquire(true), AcquireAction::Connect));
    node.finish_request_connection();
    node.recycle(7, local(1), at(0));
    match node.acquire(true) {
        AcquireAction::Reuse(IdleConnection { connection, endpoint, since }) => {
            assert_eq!(connection, 7);
            assert_eq!(endpoint, local(1));
            assert_eq!(since, at(0));
        }
        _ => panic!("a waiting connection is used again"),
    }
    node.recycle(7, local(1), at(1));
    assert_eq!(node.stats().total_connections, 1);
    assert_eq!(node.stats().idle_connections, 1);
}

#[test]
fn the_connection_used_last_is_used_first() {
    let mut node = pool(0, 4);
    for _ in 0..2 {
        assert!(matches!(node.acquire(true), AcquireAction::Connect));
        node.finish_request_connection();
    }
    node.recycle(1, local(1), at(0));
    node.recycle(2, local(1), at(1));
    match node.acquire(true) {
        AcquireAction::Reuse(idle) => assert_eq!(idle.connection, 2),
        _ => panic!("a waiting connection is used again"),
    }
}

#[test]
fn cancellation_discards_a_checked_out_connection() {
    let mut node = pool(0, 4);
    assert!(matches!(node.acquire(true), AcquireAction::Connect));
    assert_eq!(node.stats().connecting_connections, 1);
    node.release_reservation();
    assert_eq!(node.stats().total_connections, 0);
    assert!(matches!(node.acquire(true), AcquireAction::Connect));
    node.finish_request_connection();
    assert_eq!(node.stats().checked_out_connections, 1);
    node.discard_connection();
    assert_eq!(node.stats().total_connections, 0);
}

#[test]
fn default_min_connection_is_created_in_the_background() {
    let mut node = pool(1, 2);
    let endpoints = vec![local(1)];
    assert!(node.maintenance_tick(&endpoints, at(0)));
    assert!(!node.maintenance_tick(&Vec::new(), at(0)));
    assert!(!node.reserve_background_connection(false));
    assert!(node.reserve_background_connection(true));
    assert!(!node.reserve_background_connection(true));
    assert!(!node.maintenance_tick(&endpoints, at(0)));
    assert_eq!(
        node.finish_background_connection(Some((10, local(1))), &endpoints, at(1)),
        (false, None)
    );
    assert_eq!(node.stats().idle_connections, 1);
    assert_eq!(node.stats().total_connections, 1);
}

#[test]
fn background_connections_to_old_addresses_are_not_kept() {
    let mut node = pool(2, 2);
    let endpoints = vec![local(1)];
    assert!(node.reserve_background_connection(true));
    assert_eq!(
        node.finish_background_connection(Some((5, local(9))), &endpoints, at(0)),
        (true, Some(5))
    );
    assert!(node.reserve_background_connection(true));
    assert_eq!(
        node.finish_background_connection(None, &endpoints, at(0)),
        (false, None)
    );
    assert!(node.reserve_background_connection(true));
    assert_eq!(
        node.finish_background_connection(Some((6, local(1))), &endpoints, at(0)),
        (true, None)
    );
    assert_eq!(node.stats().idle_connections, 1);
}

#[test]
fn background_maintenance_reaps_idle_connections_but_preserves_minimum() {
    let mut node = pool(1, 2);
    let endpoints = vec![local(1)];
    for _ in 0..2 {
        assert!(matches!(node.acquire(true), AcquireAction::Connect));
        node.finish_request_connection();
    }
    node.recycle(13, local(1), at(0));
    node.recycle(14, local(1), at(10));
    assert_eq!(node.stats().idle_connections, 2);
    assert!(!node.maintenance_tick(&endpoints, at(49)));
    assert_eq!(node.stats().idle_connections, 2);
    assert!(!node.maintenance_tick(&endpoints, at(500)));
    assert_eq!(node.stats().total_connections, 1);
    match node.acquire(true) {
        AcquireAction::Reuse(idle) => assert_eq!(idle.connection, 14),
        _ => panic!("the younger connection stays"),
    }
}

#[test]
fn endpoint_updates_stop_reusing_removed_addresses() {
    let mut node = pool(1, 2);
    assert!(node.reserve_background_connection(true));
    node.finish_background_connection(Some((11, local(1))), &vec![local(1)], at(0));
    assert!(node.maintenance_tick(&vec![local(2)], at(1)));
    assert_eq!(node.stats().idle_connections, 0);
    assert!(node.reserve_background_connection(true));
    node.finish_background_connection(Some((12, local(2))), &vec![local(2)], at(1));
    match node.acquire(true) {
        AcquireAction::Reuse(idle) => assert_eq!(idle.connection, 12),
        _ => panic!("the new address is used"),
    }
    assert_eq!(node.stats().total_connections, 1);
}

#[test]
fn searches_try_each_address_once_and_start_one_later() {
    let mut counter = 4;
    let mut rotation = EndpointRotation::begin(&mut counter, 3);
    assert_eq!(counter, 5);
    let mut seen = Vec::new();
    while let Some(index) = rotation.next() {
        seen.push(index);
    }
    assert_eq!(seen, vec![1, 2, 0]);
    assert_eq!(rotation.next(), None);
    assert_eq!(EndpointRotation::begin(&mut counter, 3).next(), Some(2));
    assert_eq!(EndpointRotation::begin(&mut counter, 0).next(), None);
    let mut last = usize::MAX;
    EndpointRotation::begin(&mut last, 1);
    assert_eq!(last, 0);
    assert!(matches!(
        EndpointRotation::exhausted(None),
        NetError::NoEndpoints
    ));
    let refused = NetError::Connect {
        endpoint: local(1),
        source: std::io::Error::other("refused"),
    };
    assert!(matches!(
        EndpointRotation::exhausted(Some(refused)),
        NetError::Connect { .. }
    ));
}

#[test]
fn operation_errors_discard_the_connection() {
    let mut lease = StreamLease::new();
    assert!(matches!(
        conclude_operation::<(), _>(&mut lease, Err("failed")),
        Err(CallError::Operation("failed"))
    ));
    assert!(!lease.is_kept());
    assert!(matches!(
        conclude_operation::<_, &str>(&mut lease, Ok(8)),
        Ok(8)
    ));
    assert!(lease.is_kept());
}

#[test]
fn damaged_connections_are_not_kept() {
    let damages: [fn(&mut StreamLease); 7] = [
        |lease| lease.discard(),
        |lease| lease.mark_broken(),
        |lease| lease.after_read(true, 1, 1),
        |lease| lease.after_read(false, 4, 0),
        |lease| lease.after_write(false, 4, 0),
        |lease| lease.after_write(true, 4, 4),
        |lease| lease.after_flush(true),
    ];
    for damage in damages {
        let mut lease = StreamLease::new();
        damage(&mut lease);
        lease.finish_success();
        assert!(!lease.is_kept());
    }
    let mut lease = StreamLease::new();
    lease.after_read(false, 0, 0);
    lease.after_read(false, 4, 2);
    lease.after_write(false, 0, 0);
    lease.after_write(false, 3, 3);
    lease.after_flush(false);
    lease.finish_success();
    assert!(lease.is_kept());
}

#[test]
fn the_maintainer_serves_nodes_in_turn() {
    let mut maintainer = Maintainer::new();
    maintainer.registered(1, true);
    maintainer.registered(2, false);
    maintainer.scanned(2, true, true);
    maintainer.scanned(2, true, true);
    assert_eq!(maintainer.next(), Some(1));
    maintainer.started();
    assert_eq!(MAX_BACKGROUND_CONNECTS, 1);
    assert_eq!(maintainer.next(), None);
    maintainer.finished(1, true);
    assert_eq!(maintainer.next(), Some(2));
    assert_eq!(maintainer.next(), Some(1));
    assert_eq!(maintainer.next(), None);
    maintainer.scanned(3, true, true);
    maintainer.scanned(3, false, false);
    maintainer.finished(9, false);
    assert_eq!(maintainer.next(), Some(3));

    let mut ready = VecDeque::new();
    let mut queued = HashSet::new();
    enqueue(5, &mut ready, &mut queued);
    enqueue(5, &mut ready, &mut queued);
    assert_eq!(ready.len(), 1);
}

#[test]
fn invalid_chunk_size_does_not_initialize_the_global_arena() {
    let mut arena = RequestArenaConfig::new();
    assert!(matches!(arena.init(0), Err(NetError::InvalidConfig(_))));
    match arena.init(u32::MAX as usize) {
        Err(NetError::InvalidConfig(message)) => assert_eq!(
            message,
            "global request arena chunk size must be in 1..4294967295, got 4294967295"
        ),
        _ => panic!("the largest offset is reserved"),
    }
    assert_eq!(arena.init(32).unwrap(), 32);
}

#[test]
fn global_arena_is_shared_and_cannot_be_resized() {
    let mut arena = RequestArenaConfig::new();
    let first = arena.get();
    assert_eq!(first, DEFAULT_REQUEST_ARENA_CHUNK_SIZE);

    let second = arena.init(DEFAULT_REQUEST_ARENA_CHUNK_SIZE).unwrap();
    assert_eq!(first, second);

    assert!(matches!(
        arena.init(DEFAULT_REQUEST_ARENA_CHUNK_SIZE + 1),
        Err(NetError::RequestArenaAlreadyInitialized {
            configured: DEFAULT_REQUEST_ARENA_CHUNK_SIZE,
            requested,
        }) if requested == DEFAULT_REQUEST_ARENA_CHUNK_SIZE + 1
    ));
}
