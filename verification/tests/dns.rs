//! Name resolution.
use brz_net::dns::actor::{Lookup, LookupResult, Publication, ResolverActor};
use brz_net::dns::addresses::{ipv4_addresses, Ipv4Fingerprint, Ipv4Snapshot};
use brz_net::dns::authority::Authority;
use brz_net::dns::options::{source_authorities, validate_resolver_options};
use brz_net::dns::record::{host_hash, jittered, jittered_with, retry_delay, InitialError};
use brz_net::error::LookupFailure;
use brz_net::time::{Duration, Instant};
use brz_net::{DnsOptions, DnsResolverOptions, Endpoint, NetError};
use std::io::ErrorKind;

fn ip(a: u8, b: u8, c: u8, d: u8) -> u32 {
    u32::from_be_bytes([a, b, c, d])
}

fn v4(ip: u32, port: u16) -> Endpoint {
    Endpoint::V4 { ip, port }
}

fn at(millis: u64) -> Instant {
    Instant {
        nanos: u128::from(millis) * 1_000_000,
    }
}

fn authorities(names: &[&str]) -> Vec<Authority> {
    names
        .iter()
        .map(|name| Authority::parse(String::from(*name)).unwrap())
        .collect()
}

fn answer(lookup: &Lookup, addresses: &[u32]) -> LookupResult {
    LookupResult {
        host: lookup.host.clone(),
        query_id: lookup.query_id,
        result: Ok(Ipv4Snapshot::new(addresses.to_vec()).unwrap()),
    }
}

fn failure(lookup: &Lookup, message: &str) -> LookupResult {
    LookupResult {
        host: lookup.host.clone(),
        query_id: lookup.query_id,
        result: Err(LookupFailure {
            kind: ErrorKind::TimedOut,
            message: String::from(message),
        }),
    }
}

fn hosts(lookups: &[Lookup]) -> Vec<&str> {
    lookups.iter().map(|lookup| lookup.host.as_str()).collect()
}

fn only(publications: &[Publication]) -> &Publication {
    assert_eq!(publications.len(), 1);
    &publications[0]
}

#[test]
fn new_hosts_are_looked_up_on_the_next_tick_not_the_refresh_interval() {
    let mut actor = ResolverActor::new(1);
    let (id, told) = actor.register(
        authorities(&["new.example:80"]),
        Duration::from_secs(3600),
        at(0),
    );
    assert!(told.is_none());
    assert!(actor.prepare(at(0)).is_empty());
    assert!(actor.prepare(at(999)).is_empty());

    assert!(actor.tick().is_empty());
    let lookups = actor.prepare(at(1_000));
    assert_eq!(hosts(&lookups), ["new.example"]);
    let told = actor.handle_result(answer(&lookups[0], &[ip(127, 0, 0, 1)]), at(1_000));
    let published = only(&told);
    assert_eq!(published.id, id);
    assert_eq!(published.endpoints, vec![v4(ip(127, 0, 0, 1), 80)]);
    assert!(matches!(published.initial, Some(Ok(()))));
}

#[test]
fn new_hosts_have_priority_over_the_refresh_backlog() {
    let mut actor = ResolverActor::new(1);
    actor.register(
        authorities(&["refresh.example:80"]),
        Duration::from_secs(30),
        at(0),
    );
    actor.tick();
    let lookups = actor.prepare(at(0));
    actor.handle_result(answer(&lookups[0], &[1]), at(0));
    actor.enqueue(String::from("refresh.example"));
    actor.register(
        authorities(&["new.example:80"]),
        Duration::from_secs(30),
        at(0),
    );
    actor.activate_new_hosts();

    let lookups = actor.dispatch_ready();
    assert_eq!(hosts(&lookups), ["new.example"]);
    assert!(actor.dispatch_ready().is_empty());
    actor.handle_result(answer(&lookups[0], &[2]), at(0));
    assert_eq!(hosts(&actor.dispatch_ready()), ["refresh.example"]);
}

#[test]
fn shared_hosts_are_resolved_once_and_publish_ipv4_changes() {
    let mut actor = ResolverActor::new(4);
    let refresh = Duration::from_millis(20);
    let (first, _) = actor.register(authorities(&["shared.example:6379"]), refresh, at(0));
    let (second, _) = actor.register(authorities(&["shared.example:6380"]), refresh, at(0));
    actor.tick();
    let lookups = actor.prepare(at(2));
    assert_eq!(lookups.len(), 1);
    let told = actor.handle_result(answer(&lookups[0], &[ip(192, 0, 2, 1)]), at(2));
    assert_eq!(told.len(), 2);
    assert_eq!(told[0].id, first);
    assert_eq!(told[0].endpoints, vec![v4(ip(192, 0, 2, 1), 6379)]);
    assert_eq!(told[1].id, second);
    assert_eq!(told[1].endpoints, vec![v4(ip(192, 0, 2, 1), 6380)]);

    let lookups = actor.prepare(at(30));
    assert_eq!(lookups.len(), 1);
    assert!(actor
        .handle_result(answer(&lookups[0], &[ip(192, 0, 2, 2)]), at(30))
        .is_empty());
    let told = actor.tick();
    assert_eq!(told.len(), 2);
    assert_eq!(told[0].endpoints, vec![v4(ip(192, 0, 2, 2), 6379)]);
    assert!(told[0].initial.is_none());
    assert_eq!(told[1].endpoints, vec![v4(ip(192, 0, 2, 2), 6380)]);

    // The same addresses again publish nothing.
    let lookups = actor.prepare(at(60));
    assert!(actor
        .handle_result(answer(&lookups[0], &[ip(192, 0, 2, 2), ip(192, 0, 2, 2)]), at(60))
        .is_empty());
    assert!(actor.tick().is_empty());
}

#[test]
fn lookup_failures_keep_the_last_good_snapshot() {
    let mut actor = ResolverActor::new(2);
    let refresh = Duration::from_millis(15);
    let (id, _) = actor.register(authorities(&["stable.example:80"]), refresh, at(0));
    actor.tick();
    let lookups = actor.prepare(at(0));
    actor.handle_result(answer(&lookups[0], &[ip(198, 51, 100, 1)]), at(0));
    let lookups = actor.prepare(at(20));
    assert!(actor
        .handle_result(failure(&lookups[0], "resolver down"), at(20))
        .is_empty());
    assert!(actor.tick().is_empty());
    let published = actor.publish_subscriber(id).unwrap();
    assert_eq!(published.endpoints, vec![v4(ip(198, 51, 100, 1), 80)]);
    // A failed lookup is tried again after the retry delay.
    assert!(actor.prepare(at(30)).is_empty());
    assert_eq!(actor.prepare(at(40)).len(), 1);
}

#[test]
fn ten_thousand_names_use_bounded_lookup_concurrency() {
    const NAMES: usize = 10_000;
    const LIMIT: usize = 16;
    let mut actor = ResolverActor::new(LIMIT);
    for index in 0..NAMES {
        actor.register(
            authorities(&[format!("host-{index}.example:80").as_str()]),
            Duration::from_secs(3600),
            at(0),
        );
    }
    actor.tick();
    let mut done = 0;
    let mut running = actor.prepare(at(1));
    assert_eq!(running.len(), LIMIT);
    assert!(actor.prepare(at(1)).is_empty());
    while let Some(lookup) = running.pop() {
        let told = actor.handle_result(answer(&lookup, &[1]), at(1));
        assert!(matches!(only(&told).initial, Some(Ok(()))));
        done += 1;
        running.extend(actor.prepare(at(1)));
        assert!(running.len() <= LIMIT);
    }
    assert_eq!(done, NAMES);
}

#[test]
fn fingerprint_never_replaces_exact_set_comparison() {
    let first = Ipv4Snapshot::new(vec![ip(192, 0, 2, 4), ip(192, 0, 2, 7)]).unwrap();
    let colliding = Ipv4Snapshot::new(vec![ip(192, 0, 2, 5), ip(192, 0, 2, 6)]).unwrap();

    assert_eq!(first.fingerprint().len, colliding.fingerprint().len);
    assert_eq!(first.fingerprint().sum, colliding.fingerprint().sum);
    assert_eq!(first.fingerprint().xor, colliding.fingerprint().xor);
    assert!(!first.same_set(&colliding));
}

#[test]
fn answers_are_sets_of_addresses() {
    assert!(Ipv4Snapshot::new(Vec::new()).is_none());
    let sorted = Ipv4Snapshot::new(vec![3, 1, 2, 1]).unwrap();
    assert_eq!(sorted.addresses(), &vec![1, 2, 3]);
    assert!(sorted.same_set(&Ipv4Snapshot::new(vec![2, 3, 1]).unwrap()));
    assert_eq!(
        Ipv4Fingerprint::of(&[1, 2, 3]),
        Ipv4Fingerprint {
            len: 3,
            sum: 6,
            xor: 0
        }
    );
    let answer = vec![
        v4(7, 0),
        Endpoint::V6 {
            ip: 1,
            port: 0,
            flowinfo: 0,
            scope_id: 0,
        },
        v4(5, 0),
    ];
    assert_eq!(ipv4_addresses(&answer), vec![7, 5]);
}

#[test]
fn authorities_are_normalized() {
    let parsed = Authority::parse(String::from("  Cache.Example.COM.. : 6379 ")).unwrap();
    assert_eq!(parsed.host, "cache.example.com");
    assert_eq!(parsed.port, 6379);
    assert_eq!(parsed.name(), "cache.example.com:6379");
    for name in ["no-port", ":80", "...:80", "host:0", "host:65536", "host:x", "::1:80", ""] {
        match Authority::parse(String::from(name)) {
            Err(NetError::InvalidConfig(message)) => assert_eq!(
                message,
                format!("invalid DNS authority '{name}', expected an IPv4 hostname and port")
            ),
            _ => panic!("{name} names no authority"),
        }
    }
}

#[test]
fn sources_follow_each_authority_once() {
    let names = |list: &[&str]| list.iter().map(|name| String::from(*name)).collect();
    let options = DnsOptions::default();
    assert_eq!(options.refresh_interval, Duration::from_secs(30));
    let list = source_authorities(names(&["b:2", "a:9", "B.:2", "a:1"]), options).unwrap();
    let written: Vec<String> = list.iter().map(|authority| authority.name()).collect();
    assert_eq!(written, ["a:1", "a:9", "b:2"]);
    assert!(matches!(
        source_authorities(Vec::new(), options),
        Err(NetError::NoEndpoints)
    ));
    match source_authorities(names(&["a:1", "bad", "worse"]), options) {
        Err(NetError::InvalidConfig(message)) => assert!(message.contains("'bad'")),
        _ => panic!("the first bad name is reported"),
    }
    let never = DnsOptions {
        refresh_interval: Duration::from_nanos(0),
    };
    match source_authorities(names(&["a:1"]), never) {
        Err(NetError::InvalidConfig(message)) => {
            assert_eq!(message, "DNS refresh interval must be greater than zero")
        }
        _ => panic!("a zero interval is rejected"),
    }
}

#[test]
fn resolver_options_are_checked_one_by_one() {
    let base = DnsResolverOptions::default();
    assert_eq!(base.max_concurrent_lookups, 1);
    assert_eq!(base.scheduler_tick, Duration::from_secs(1));
    assert_eq!(base.lookup_timeout, Duration::from_secs(5));
    assert!(validate_resolver_options(base).is_ok());
    let zero = Duration::from_nanos(0);
    let cases = [
        (
            DnsResolverOptions { max_concurrent_lookups: 0, ..base },
            "max_concurrent_lookups must be greater than zero",
        ),
        (
            DnsResolverOptions { scheduler_tick: zero, ..base },
            "DNS scheduler_tick must be greater than zero",
        ),
        (
            DnsResolverOptions { lookup_timeout: zero, ..base },
            "DNS lookup_timeout must be greater than zero",
        ),
    ];
    for (options, expected) in cases {
        match validate_resolver_options(options) {
            Err(NetError::InvalidConfig(message)) => assert_eq!(message, expected),
            _ => panic!("expected: {expected}"),
        }
    }
}

#[test]
fn retries_back_off_within_the_refresh_interval() {
    let long = Duration::from_secs(3600);
    let delays: Vec<u128> = (0..9)
        .map(|failures| retry_delay(failures, long).nanos / 1_000_000_000)
        .collect();
    assert_eq!(delays, [1, 1, 2, 4, 8, 16, 32, 64, 64]);
    assert_eq!(retry_delay(u32::MAX, long), Duration::from_secs(64));
    assert_eq!(
        retry_delay(5, Duration::from_secs(3)),
        Duration::from_secs(3)
    );
}

#[test]
fn jitter_stretches_by_less_than_a_tenth() {
    let second = Duration::from_secs(1);
    assert_eq!(jittered_with(second, 0), second);
    assert_eq!(
        jittered_with(second, 123_456_789).nanos,
        1_000_000_000 + 23_456_789
    );
    assert_eq!(
        jittered_with(Duration::from_nanos(9), 5),
        Duration::from_nanos(9)
    );
    let first = jittered(second, "a.example");
    assert_eq!(first, jittered_with(second, host_hash("a.example")));
    assert!(first.nanos >= second.nanos && first.nanos < 1_100_000_000);
    assert_ne!(host_hash("a.example"), host_hash("b.example"));
}

#[test]
fn subscribers_hear_when_their_last_host_is_answered() {
    let mut actor = ResolverActor::new(8);
    let refresh = Duration::from_secs(30);
    let (id, _) = actor.register(authorities(&["a:1", "b:2"]), refresh, at(0));
    actor.tick();
    let lookups = actor.prepare(at(0));
    assert_eq!(hosts(&lookups), ["a", "b"]);
    assert!(actor.handle_result(failure(&lookups[0], "no such host"), at(0)).is_empty());
    let told = actor.handle_result(failure(&lookups[1], "timed out"), at(0));
    let published = only(&told);
    assert_eq!(published.id, id);
    assert!(published.endpoints.is_empty());
    match &published.initial {
        Some(Err(InitialError::Resolve { name, failure })) => {
            assert_eq!(name, "a:1");
            assert_eq!(failure.message, "no such host");
            assert_eq!(failure.kind, ErrorKind::TimedOut);
        }
        _ => panic!("the first failure is reported"),
    }

    // Both hosts are known to fail, so another subscriber hears at once.
    let (_, told) = actor.register(authorities(&["b:3"]), refresh, at(0));
    match told.unwrap().initial {
        Some(Err(error)) => match error.into_net_error() {
            NetError::Resolve { name, source } => {
                assert_eq!(name, "b:3");
                assert_eq!(source.message, "timed out");
            }
            _ => panic!("the failure is reported"),
        },
        _ => panic!("there is no endpoint"),
    }
    assert!(matches!(
        InitialError::NoEndpoints.into_net_error(),
        NetError::NoEndpoints
    ));
}

#[test]
fn hosts_are_dropped_with_their_last_subscriber() {
    let mut actor = ResolverActor::new(8);
    let slow = Duration::from_secs(3600);
    let fast = Duration::from_secs(10);
    let (first, _) = actor.register(authorities(&["a:1"]), slow, at(0));
    actor.tick();
    let lookups = actor.prepare(at(0));
    actor.handle_result(answer(&lookups[0], &[1]), at(0));
    let (second, told) = actor.register(authorities(&["a:2"]), fast, at(0));
    assert_eq!(told.unwrap().endpoints, vec![v4(1, 2)]);
    // The shorter interval brings the next lookup forward.
    assert!(actor.prepare(at(9_999)).is_empty());
    let lookups = actor.prepare(at(10_000));
    assert_eq!(hosts(&lookups), ["a"]);
    actor.unregister(second, at(10_000));
    actor.unregister(second, at(10_000));
    actor.unregister(first, at(10_000));
    // The answer of a dropped host is ignored.
    assert!(actor.handle_result(answer(&lookups[0], &[9]), at(10_001)).is_empty());
    actor.tick();
    assert!(actor.prepare(at(100_000_000)).is_empty());
    assert!(actor.publish_subscriber(first).is_none());

    let (third, told) = actor.register(authorities(&["a:1"]), fast, at(20_000));
    assert!(told.is_none());
    assert_ne!(third, first);
    actor.tick();
    assert_eq!(hosts(&actor.prepare(at(20_000))), ["a"]);
}
