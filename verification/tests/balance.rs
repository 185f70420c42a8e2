//! Replica selection, failover and pools.
use brz_net::balance::quota::{duration_micros, validate_options};
use brz_net::balance::replicas::{pick, shuffle, shuffle_with};
use brz_net::time::Duration;
use brz_net::{
    Failover, FailoverStep, NetError, Pool, QuotaBalancerOptions, QuotaSelector, QuotaTicket,
    ReplicaSet, RequestTarget, SessionError, SessionReplica, Sharded,
};
use std::io;
use std::sync::Arc;

fn finish(selector: &mut QuotaSelector, guard: QuotaTicket, elapsed: Duration, succeeded: bool) {
    guard.record(selector, elapsed, succeeded);
}

#[test]
fn requests_stay_on_one_replica_until_its_quota_is_consumed() {
    let mut balancer = QuotaSelector::new(3, QuotaBalancerOptions::default()).unwrap();

    let first = balancer.select();
    assert_eq!(first.index(), 0);
    finish(&mut balancer, first, Duration::from_millis(1_200), true);

    let second = balancer.select();
    assert_eq!(second.index(), 0);
    finish(&mut balancer, second, Duration::from_millis(900), true);

    let third = balancer.select();
    assert_eq!(third.index(), 1);
    finish(&mut balancer, third, Duration::from_nanos(0), true);

    let snapshots = balancer.snapshots();
    assert_eq!(snapshots[0].used_quota, Duration::from_nanos(0));
    assert!(snapshots[1].current);
}

#[test]
fn failed_requests_consume_at_least_five_hundred_milliseconds() {
    let mut balancer = QuotaSelector::new(2, QuotaBalancerOptions::default()).unwrap();

    for _ in 0..4 {
        let guard = balancer.select();
        assert_eq!(guard.index(), 0);
        finish(&mut balancer, guard, Duration::from_millis(1), false);
    }

    assert_eq!(balancer.snapshots()[0].used_quota, Duration::from_secs(2));
    let next = balancer.select();
    assert_eq!(next.index(), 1);
    finish(&mut balancer, next, Duration::from_nanos(0), true);
}

#[test]
fn local_failover_does_not_advance_the_global_selector() {
    let mut balancer = QuotaSelector::new(2, QuotaBalancerOptions::default()).unwrap();

    let first = balancer.select();
    assert_eq!(first.index(), 0);
    finish(&mut balancer, first, Duration::from_millis(1), false);

    let retry = balancer.ticket(1);
    assert_eq!(retry.index(), 1);
    finish(&mut balancer, retry, Duration::from_millis(1), true);

    let next_global = balancer.select();
    assert_eq!(next_global.index(), 0);
    finish(&mut balancer, next_global, Duration::from_nanos(0), true);
}

#[test]
fn concurrent_selectors_observe_one_atomic_quota_rotation() {
    let mut balancer = QuotaSelector::new(3, QuotaBalancerOptions::default()).unwrap();
    let first = balancer.select();
    finish(&mut balancer, first, Duration::from_secs(2), true);

    let workers = 16;
    for _ in 0..workers {
        let guard = balancer.select();
        let index = guard.index();
        finish(&mut balancer, guard, Duration::from_nanos(0), true);
        assert_eq!(index, 1);
    }
    assert!(balancer.snapshots()[1].current);
}

#[test]
fn invalid_sub_microsecond_options_are_rejected() {
    let error = QuotaSelector::new(
        2,
        QuotaBalancerOptions {
            quota: Duration::from_nanos(999),
            ..QuotaBalancerOptions::default()
        },
    )
    .err()
    .unwrap();
    assert!(matches!(error, NetError::InvalidConfig(_)));
}

#[test]
fn transport_retry_classification_excludes_deterministic_failures() {
    let retryable = [
        SessionError::<io::Error>::Busy,
        SessionError::Unavailable,
        SessionError::Timeout {
            timeout: Duration::from_millis(1),
        },
        SessionError::Closed,
        SessionError::Io(Arc::new(io::Error::other("broken"))),
    ];
    assert!(retryable.iter().all(SessionError::is_retryable_transport));

    let deterministic = [
        SessionError::<io::Error>::Protocol(Arc::new(io::Error::other("protocol"))),
        SessionError::Routing(Arc::new(NetError::NoReplicas)),
        SessionError::UnexpectedResponse,
        SessionError::EmptyRequestFrame,
    ];
    assert!(
        deterministic
            .iter()
            .all(|error| !error.is_retryable_transport())
    );
}

#[test]
fn option_errors_name_the_option() {
    let quota = QuotaBalancerOptions {
        quota: Duration::from_nanos(999),
        ..QuotaBalancerOptions::default()
    };
    match validate_options(quota) {
        Err(NetError::InvalidConfig(message)) => {
            assert_eq!(message, "quota must be at least one microsecond")
        }
        _ => panic!("expected a configuration error"),
    }
    let penalty = QuotaBalancerOptions {
        failure_penalty: Duration::from_nanos(0),
        ..QuotaBalancerOptions::default()
    };
    match validate_options(penalty) {
        Err(NetError::InvalidConfig(message)) => {
            assert_eq!(message, "failure_penalty must be at least one microsecond")
        }
        _ => panic!("expected a configuration error"),
    }
    assert!(matches!(
        QuotaSelector::new(0, QuotaBalancerOptions::default()),
        Err(NetError::NoReplicas)
    ));
    assert_eq!(duration_micros(Duration::from_nanos(1_999)), 1);
}

#[test]
fn the_initial_replica_wraps_around() {
    let mut balancer =
        QuotaSelector::with_initial(3, QuotaBalancerOptions::default(), 5).unwrap();
    let ticket = balancer.select();
    assert_eq!(ticket.index(), 2);
    let sibling = ticket.sibling();
    assert_eq!(sibling.index(), 2);
    finish(&mut balancer, ticket, Duration::from_secs(2), true);
    assert_eq!(balancer.select().index(), 0);
}

#[test]
fn real_time_is_charged() {
    let mut balancer = QuotaSelector::new(2, QuotaBalancerOptions::default()).unwrap();
    let ticket = balancer.select();
    ticket.failure(&mut balancer);
    let charged = balancer.snapshots()[0].used_quota;
    assert!(charged.nanos >= Duration::from_millis(500).nanos);
    assert!(charged.nanos < Duration::from_secs(2).nanos);

    let start = std::time::Instant::now();
    let ticket = balancer.ticket(1);
    while start.elapsed() < std::time::Duration::from_millis(5) {}
    ticket.success(&mut balancer);
    let charged = balancer.snapshots()[1].used_quota;
    assert!(charged.nanos >= Duration::from_millis(4).nanos);
}

#[test]
fn tickets_that_are_given_up_cost_the_penalty_once() {
    let mut selector = QuotaSelector::new(2, QuotaBalancerOptions::default()).unwrap();
    let ticket = selector.ticket(1);
    ticket.give_up(&mut selector);
    let snapshots = selector.snapshots();
    assert_eq!(snapshots[0].used_quota, Duration::from_millis(0));
    assert_eq!(snapshots[1].used_quota, Duration::from_millis(500));
    assert!(snapshots[0].current);
}

#[test]
fn shuffling_keeps_every_item() {
    let mut values = vec!['a', 'b', 'c', 'd'];
    shuffle_with(&mut values, &vec![0, 0, 1, 2]);
    assert_eq!(values, vec!['d', 'a', 'b', 'c']);

    let mut numbers: Vec<usize> = (0..100).collect();
    shuffle(&mut numbers);
    assert_ne!(numbers, (0..100).collect::<Vec<usize>>());
    numbers.sort_unstable();
    assert_eq!(numbers, (0..100).collect::<Vec<usize>>());
}

#[test]
fn hashes_pick_one_of_the_places_up_to_a_limit() {
    assert_eq!(pick(7, 2), 1);
    assert_eq!(pick(9, 2), 0);
    assert_eq!(pick(1, 5), 1);
    assert_eq!(pick(u64::MAX, 1), 1);
}

/// Answers with its own number and the request, unless it is down.
#[derive(Clone)]
struct Replica {
    number: u8,
    down: bool,
}

impl SessionReplica for Replica {
    type Request = u8;
    type Response = (u8, u8);
    type Error = io::Error;
    type Future = (u8, u8);

    fn request(&self, request: u8) -> Result<(u8, u8), SessionError<io::Error>> {
        if self.down {
            Err(SessionError::Unavailable)
        } else {
            Ok((self.number, request))
        }
    }

    fn request_with<F: FnOnce() -> u8>(
        &self,
        build: F,
    ) -> Result<(u8, u8), SessionError<io::Error>> {
        if self.down {
            Err(SessionError::Unavailable)
        } else {
            Ok((self.number, build()))
        }
    }

    fn request_batch(
        &self,
        requests: Vec<u8>,
    ) -> Result<Vec<(u8, u8)>, SessionError<io::Error>> {
        if self.down {
            Err(SessionError::Busy)
        } else {
            Ok(requests.into_iter().map(|request| (self.number, request)).collect())
        }
    }
}

impl RequestTarget<u64> for Replica {
    type Request = u8;
    type Response = (u8, u8);
    type Error = io::Error;
    type Future = (u8, u8);

    fn request_for(
        &mut self,
        _key: &u64,
        request: u8,
    ) -> Result<(u8, u8), SessionError<io::Error>> {
        self.request(request)
    }
}

fn up(number: u8) -> Replica {
    Replica {
        number,
        down: false,
    }
}

#[test]
fn sharding_and_replica_selection_compose_in_either_order() {
    let router = |key: &u64, shard_count: usize| *key as usize % shard_count;
    let mut redis_order =
        Sharded::new(router, vec![ReplicaSet::new(vec![up(1), up(1)]).unwrap()]).unwrap();
    let mut response = redis_order.request_for(&7, 31).unwrap();
    assert_eq!(response.inner().1, 31);

    let mut mc_order = ReplicaSet::new(vec![
        Sharded::new(router, vec![up(1)]).unwrap(),
        Sharded::new(router, vec![up(1)]).unwrap(),
    ])
    .unwrap();
    let mut response = mc_order.request_for(&9, 47).unwrap();
    assert_eq!(response.inner().1, 47);
}

#[test]
fn refused_requests_are_charged_to_the_selected_replica() {
    let mut set = ReplicaSet::new(vec![Replica {
        number: 3,
        down: true,
    }])
    .unwrap();
    assert_eq!(set.len(), 1);
    assert!(!set.is_empty());
    assert!(matches!(set.request(1), Err(SessionError::Unavailable)));
    assert!(set.snapshots()[0].used_quota.nanos >= 500_000_000);
    assert!(matches!(
        set.request_with(|| 1),
        Err(SessionError::Unavailable)
    ));
    assert!(set.snapshots()[0].used_quota.nanos >= 1_000_000_000);
    assert!(matches!(
        set.request_batch(vec![1, 2]),
        Err(SessionError::Busy)
    ));
    assert!(set.snapshots()[0].used_quota.nanos >= 1_500_000_000);
    assert!(matches!(
        ReplicaSet::<Replica>::new(Vec::new()),
        Err(NetError::NoReplicas)
    ));
}

#[test]
fn submissions_conclude_with_their_own_ticket() {
    let mut set = ReplicaSet::new(vec![up(4)]).unwrap();
    let ticket = set.balancer().select();
    let submitted: Result<u8, SessionError<()>> = Ok(7);
    let mut response = set.conclude(ticket, submitted).unwrap();
    assert_eq!(*response.inner(), 7);
    assert_eq!(set.snapshots()[0].used_quota.nanos, 0);
    response.settle(set.balancer(), false);
    let charged = set.snapshots()[0].used_quota.nanos;
    assert!(charged >= 500_000_000);

    let ticket = set.balancer().select();
    let submitted: Result<u8, SessionError<()>> = Err(SessionError::Busy);
    assert!(matches!(
        set.conclude(ticket, submitted),
        Err(SessionError::Busy)
    ));
    assert!(set.snapshots()[0].used_quota.nanos >= charged + 500_000_000);
}

#[test]
fn responses_settle_their_ticket_once() {
    let mut set = ReplicaSet::new(vec![up(9)]).unwrap();
    let mut response = set.request(5).unwrap();
    assert_eq!(*response.inner(), (9, 5));
    response.settle(set.balancer(), false);
    let charged = set.snapshots()[0].used_quota;
    assert!(charged.nanos >= 500_000_000);
    response.abandon(set.balancer());
    assert_eq!(set.snapshots()[0].used_quota, charged);

    let cancelled = set.request_with(|| 6).unwrap();
    cancelled.abandon(set.balancer());
    assert!(set.snapshots()[0].used_quota.nanos >= charged.nanos + 500_000_000);
}

#[test]
fn batches_select_one_replica_and_time_each_response() {
    let mut set = ReplicaSet::new(vec![up(1), up(2)]).unwrap();
    assert!(set.request_batch(Vec::new()).unwrap().is_empty());
    let mut responses = set.request_batch(vec![10, 11, 12]).unwrap();
    assert_eq!(responses.len(), 3);
    let number = responses[0].inner().0;
    for (at, response) in responses.iter_mut().enumerate() {
        assert_eq!(*response.inner(), (number, 10 + at as u8));
    }
    for response in responses {
        response.abandon(set.balancer());
    }
    assert!(set.snapshots()[0].used_quota.nanos >= 1_500_000_000);
}

#[test]
fn failover_tries_distinct_replicas_and_stops_on_success() {
    let mut set = ReplicaSet::new(vec![up(1), up(2), up(3)]).unwrap();
    let (mut request, ticket) = Failover::begin(&mut set, 10);
    let mut seen = vec![request.index()];
    assert_eq!(ticket.index(), 0);
    let mut ticket = ticket;
    for _ in 0..2 {
        match request.after(
            &mut set,
            ticket,
            Err::<(), SessionError<io::Error>>(SessionError::Closed),
        ) {
            FailoverStep::Retry(next) => {
                assert_eq!(next.index(), request.index());
                seen.push(next.index());
                ticket = next;
            }
            FailoverStep::Done(_) => panic!("attempts are left"),
        }
    }
    assert_eq!(seen, vec![0, 1, 2]);
    match request.after(
        &mut set,
        ticket,
        Err::<(), SessionError<io::Error>>(SessionError::Busy),
    ) {
        FailoverStep::Done(Err(SessionError::Busy)) => {}
        _ => panic!("every replica was tried"),
    }
    for snapshot in set.snapshots() {
        assert!(snapshot.used_quota.nanos >= 500_000_000);
    }
    assert!(set.snapshots()[0].current);
}

#[test]
fn failover_does_not_hide_deterministic_failures() {
    let mut set = ReplicaSet::new(vec![up(1), up(2)]).unwrap();
    let (mut request, ticket) = Failover::begin(&mut set, 1);
    match request.after(
        &mut set,
        ticket,
        Err::<(), SessionError<io::Error>>(SessionError::EmptyRequestFrame),
    ) {
        FailoverStep::Done(Err(SessionError::EmptyRequestFrame)) => {}
        _ => panic!("a protocol failure is final"),
    }
    let (mut request, ticket) = Failover::begin(&mut set, 0);
    match request.after(&mut set, ticket, Ok::<u8, SessionError<io::Error>>(4)) {
        FailoverStep::Done(Ok(4)) => {}
        _ => panic!("a response is final"),
    }
    let (mut request, ticket) = Failover::begin(&mut set, 0);
    match request.after(
        &mut set,
        ticket,
        Err::<(), SessionError<io::Error>>(SessionError::Busy),
    ) {
        FailoverStep::Done(Err(SessionError::Busy)) => {}
        _ => panic!("no retry was asked for"),
    }
}

fn quick_quota() -> QuotaBalancerOptions {
    QuotaBalancerOptions {
        quota: Duration::from_micros(1),
        ..QuotaBalancerOptions::default()
    }
}

#[test]
fn quota_pool_rotates_only_after_the_current_replica_consumes_its_quota() {
    let mut pool = Pool::with_options(vec![60, 61], quick_quota()).unwrap();
    assert_eq!(pool.replica_count(), 2);
    let mut identities = Vec::new();
    for _ in 0..3 {
        let ticket = pool.select();
        identities.push(*pool.replica(ticket.index()));
        ticket.record(pool.balancer(), Duration::from_millis(1), true);
    }
    assert_ne!(identities[0], identities[1]);
    assert_eq!(identities[2], identities[0]);
}

#[test]
fn pools_keep_the_order_of_their_providers() {
    let pool = Pool::new(vec!['x', 'y', 'z']).unwrap();
    assert_eq!(*pool.replica(0), 'x');
    assert_eq!(*pool.replica(2), 'z');
    assert!(pool.snapshots()[0].current);
    assert!(matches!(
        Pool::<char>::new(Vec::new()),
        Err(NetError::NoReplicas)
    ));
    assert!(matches!(
        Pool::with_options(
            vec!['x'],
            QuotaBalancerOptions {
                quota: Duration::from_nanos(1),
                ..QuotaBalancerOptions::default()
            }
        ),
        Err(NetError::InvalidConfig(_))
    ));
}

#[test]
fn redis_composition_shards_before_balancing_replicas() {
    let modulo = |key: &u64, shard_count: usize| *key as usize % shard_count;
    let shard_zero = ReplicaSet::with_options(vec![up(20), up(21)], quick_quota()).unwrap();
    let shard_one = ReplicaSet::with_options(vec![up(30)], quick_quota()).unwrap();
    let mut redis = Sharded::new(modulo, vec![shard_zero, shard_one]).unwrap();
    assert_eq!(redis.shard_count(), 2);

    assert_eq!(redis.request_for(&1, 0).unwrap().inner().0, 30);
    assert!(redis.get(&0).is_ok());
    assert_eq!(redis.at(0).unwrap().len(), 2);
    let first = redis.request_for(&0, 0).unwrap().inner().0;
    assert!(first == 20 || first == 21);
}

#[test]
fn routers_that_name_no_shard_are_reported() {
    let beyond = |_key: &u64, shard_count: usize| shard_count + 3;
    let mut sharded = Sharded::new(beyond, vec![up(1), up(2)]).unwrap();
    match sharded.get(&0) {
        Err(NetError::InvalidShard { index, shard_count }) => {
            assert_eq!((index, shard_count), (5, 2))
        }
        _ => panic!("no shard has this index"),
    }
    match sharded.request_for(&0, 1) {
        Err(SessionError::Routing(error)) => match *error {
            NetError::InvalidShard { index, shard_count } => {
                assert_eq!((index, shard_count), (5, 2))
            }
            _ => panic!("expected a routing error"),
        },
        _ => panic!("no shard has this index"),
    }
    assert!(matches!(
        Sharded::<Replica, _>::new(beyond, Vec::new()),
        Err(NetError::NoShards)
    ));
}
