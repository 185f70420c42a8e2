//! Runtime policy of one connection.
use crate::error::NetError;
use crate::pow2::is_power_of_two;
use crate::rx::DEFAULT_MAX_RX_BUFFER_CAPACITY;
use crate::session::writes::MAX_WRITE_VECTORS;
use crate::source::Endpoint;
use crate::time::Duration;
use vstd::prelude::*;

#[allow(unused_imports)]
use crate::pow2::is_pow2;

verus! {

/// Receive ring that a connection starts with.
pub const DEFAULT_READ_BUFFER_CAPACITY: usize = 2 * 1024;

/// Milliseconds between two checks of the receive ring.
pub const RX_MAINTENANCE_INTERVAL_MILLIS: u64 = 60_000;

/// Runtime policy for one physical node and its one persistent connection.
#[derive(Clone, Copy, Debug, PartialEq, Eq, Structural)]
pub struct NodeOptions {
    pub request_timeout: Duration,
    pub connect_timeout: Duration,
    pub reconnect_delay: Duration,
    pub max_reconnect_delay: Duration,
    pub tcp_nodelay: bool,
    pub write_batch: usize,
    pub read_buffer_capacity: usize,
    pub max_read_buffer_capacity: usize,
}

impl Default for NodeOptions {
    fn default() -> (options: Self)
        ensures
            options.request_timeout.nanos == 500_000_000,
            options.connect_timeout.nanos == 2_000_000_000,
            options.reconnect_delay.nanos == 50_000_000,
            options.max_reconnect_delay.nanos == 2_000_000_000,
            options.tcp_nodelay,
            options.write_batch == 4,
            options.read_buffer_capacity == 2_048,
            options.max_read_buffer_capacity == DEFAULT_MAX_RX_BUFFER_CAPACITY,
    {
        NodeOptions {
            request_timeout: Duration::from_millis(500),
            connect_timeout: Duration::from_secs(2),
            reconnect_delay: Duration::from_millis(50),
            max_reconnect_delay: Duration::from_secs(2),
            tcp_nodelay: true,
            write_batch: 4,
            read_buffer_capacity: DEFAULT_READ_BUFFER_CAPACITY,
            max_read_buffer_capacity: DEFAULT_MAX_RX_BUFFER_CAPACITY,
        }
    }
}

impl NodeOptions {
    /// What is wrong with the options, if anything.
    pub open spec fn complaint(self) -> Option<Seq<char>> {
        if self.request_timeout.nanos == 0 {
            Some("request_timeout must be greater than zero"@)
        } else if self.connect_timeout.nanos == 0 {
            Some("connect_timeout must be greater than zero"@)
        } else if self.reconnect_delay.nanos == 0 {
            Some("reconnect_delay must be greater than zero"@)
        } else if self.max_reconnect_delay.nanos < self.reconnect_delay.nanos {
            Some("max_reconnect_delay must be at least reconnect_delay"@)
        } else if !(1 <= self.write_batch <= MAX_WRITE_VECTORS) {
            Some("write_batch must be between 1 and 4"@)
        } else if self.read_buffer_capacity == 0 {
            Some("read_buffer_capacity must be greater than zero"@)
        } else if !is_pow2(self.read_buffer_capacity as nat) || !is_pow2(
            self.max_read_buffer_capacity as nat,
        ) || self.max_read_buffer_capacity < self.read_buffer_capacity {
            Some(
                "receive buffer capacities must be powers of two and max must be at least initial"@,
            )
        } else {
            None
        }
    }

    /// Checks the options.
    pub fn validate(self) -> (checked: Result<Self, NetError>)
        ensures
            match checked {
                Ok(options) => options == self && self.complaint() is None,
                Err(error) => self.complaint() matches Some(message) && error.rejects(message),
            },
            checked is Ok <==> self.request_timeout.nanos > 0 && self.connect_timeout.nanos > 0
                && 0 < self.reconnect_delay.nanos <= self.max_reconnect_delay.nanos && 1
                <= self.write_batch <= 4 && self.read_buffer_capacity
                <= self.max_read_buffer_capacity && is_pow2(self.read_buffer_capacity as nat)
                && is_pow2(self.max_read_buffer_capacity as nat),
    {
        if self.request_timeout.is_zero() {
            return Err(NetError::invalid_config("request_timeout must be greater than zero"));
        }
        if self.connect_timeout.is_zero() {
            return Err(NetError::invalid_config("connect_timeout must be greater than zero"));
        }
        if self.reconnect_delay.is_zero() {
            return Err(NetError::invalid_config("reconnect_delay must be greater than zero"));
        }
        if self.max_reconnect_delay.nanos < self.reconnect_delay.nanos {
            return Err(
                NetError::invalid_config("max_reconnect_delay must be at least reconnect_delay"),
            );
        }
        if self.write_batch < 1 || self.write_batch > MAX_WRITE_VECTORS {
            return Err(NetError::invalid_config("write_batch must be between 1 and 4"));
        }
        if self.read_buffer_capacity == 0 {
            return Err(NetError::invalid_config("read_buffer_capacity must be greater than zero"));
        }
        if !is_power_of_two(self.read_buffer_capacity) || !is_power_of_two(
            self.max_read_buffer_capacity,
        ) || self.max_read_buffer_capacity < self.read_buffer_capacity {
            return Err(
                NetError::invalid_config(
                    "receive buffer capacities must be powers of two and max must be at least initial",
                ),
            );
        }
        Ok(self)
    }
}

/// What is known of a node from outside.
#[derive(Clone, Copy, Debug, PartialEq, Eq, Structural)]
pub struct NodeStats {
    pub connected: bool,
    pub active_requests: usize,
    pub successful_connections: u64,
    pub disconnects: u64,
}

/// Twice the current delay, or the maximum.
pub open spec fn doubled(current: u128, maximum: u128) -> u128 {
    if 2 * current < maximum {
        (2 * current) as u128
    } else {
        maximum
    }
}

/// The delay before the next attempt to connect.
pub fn next_delay(current: Duration, maximum: Duration) -> (delay: Duration)
    ensures
        delay.nanos == doubled(current.nanos, maximum.nanos),
{
    Duration { nanos: current.nanos.saturating_add(current.nanos) }.min(maximum)
}

/// Law: delays double until they reach the maximum, and stay there.
pub proof fn law_delays_double_up_to_the_maximum(current: u128, maximum: u128)
    requires
        0 < current <= maximum,
    ensures
        current <= doubled(current, maximum) <= maximum,
        2 * current <= maximum ==> doubled(current, maximum) == 2 * current,
        current == maximum ==> doubled(current, maximum) == maximum,
        current < maximum ==> current < doubled(current, maximum),
{
}

/// The last `count` bytes of `n`, most significant first.
pub open spec fn octets_of(n: nat, count: nat) -> Seq<u8>
    decreases count,
{
    if count == 0 {
        Seq::empty()
    } else {
        octets_of(n / 256, (count - 1) as nat).push((n % 256) as u8)
    }
}

/// The last `count` bytes of `n`, most significant first.
pub fn octets(n: u128, count: usize) -> (bytes: Vec<u8>)
    ensures
        bytes@ == octets_of(n as nat, count as nat),
    decreases count,
{
    if count == 0 {
        return Vec::new();
    }
    let mut bytes = octets(n / 256, count - 1);
    bytes.push((n % 256) as u8);
    bytes
}

/// The bytes that identify an endpoint: its family, its address and its port.
pub open spec fn endpoint_bytes(endpoint: Endpoint) -> Seq<u8> {
    match endpoint {
        Endpoint::V4 { ip, port } => seq![4u8] + octets_of(ip as nat, 4) + octets_of(port as nat, 2),
        Endpoint::V6 { ip, port, .. } => seq![6u8] + octets_of(ip as nat, 16) + octets_of(
            port as nat,
            2,
        ),
    }
}

/// The 64-bit FNV-1a hash.
pub open spec fn fnv_1a(bytes: Seq<u8>) -> u64
    decreases bytes.len(),
{
    if bytes.len() == 0 {
        0xcbf2_9ce4_8422_2325
    } else {
        (((fnv_1a(bytes.drop_last()) ^ (bytes.last() as u64)) * 0x100_0000_01b3)
            % 0x1_0000_0000_0000_0000) as u64
    }
}

/// Feeds bytes to a 64-bit FNV-1a hash.
fn mix(hash: u64, bytes: &Vec<u8>, Ghost(before): Ghost<Seq<u8>>) -> (mixed: u64)
    requires
        hash == fnv_1a(before),
    ensures
        mixed == fnv_1a(before + bytes@),
{
    let mut mixed: u64 = hash;
    let mut at: usize = 0;
    assert(before + bytes@.take(0) =~= before);
    while at < bytes.len()
        invariant
            at <= bytes@.len(),
            mixed == fnv_1a(before + bytes@.take(at as int)),
        decreases bytes@.len() - at,
    {
        assert((before + bytes@.take(at + 1)).drop_last() =~= before + bytes@.take(at as int));
        mixed = (mixed ^ (bytes[at] as u64)).wrapping_mul(0x100_0000_01b3);
        at = at + 1;
    }
    assert(bytes@.take(at as int) =~= bytes@);
    mixed
}

/// When the receive ring of a connection to this endpoint is first checked. Different
/// endpoints spread over one interval, so that many connections that start together do
/// not check together.
pub fn maintenance_jitter(endpoint: Endpoint) -> (delay: Duration)
    ensures
        delay.nanos == (fnv_1a(endpoint_bytes(endpoint)) % RX_MAINTENANCE_INTERVAL_MILLIS)
            * 1_000_000,
{
    let mut family: Vec<u8> = Vec::new();
    let (address, port) = match endpoint {
        Endpoint::V4 { ip, port } => {
            family.push(4);
            (octets(ip as u128, 4), port)
        },
        Endpoint::V6 { ip, port, .. } => {
            family.push(6);
            (octets(ip, 16), port)
        },
    };
    let ghost none = Seq::<u8>::empty();
    let hash = mix(0xcbf2_9ce4_8422_2325, &family, Ghost(none));
    let hash = mix(hash, &address, Ghost(none + family@));
    let port = octets(port as u128, 2);
    let hash = mix(hash, &port, Ghost(none + family@ + address@));
    assert(none + family@ + address@ + port@ =~= endpoint_bytes(endpoint));
    Duration::from_millis(hash % RX_MAINTENANCE_INTERVAL_MILLIS)
}

/// Law: the first check of a receive ring comes within one interval.
pub proof fn law_maintenance_starts_within_an_interval(endpoint: Endpoint)
    ensures
        fnv_1a(endpoint_bytes(endpoint)) % RX_MAINTENANCE_INTERVAL_MILLIS
            < RX_MAINTENANCE_INTERVAL_MILLIS,
{
}

/// Law: the bytes of a number are its digits to the base 256, most significant first: each of
/// them counts, and together they give the number back.
pub proof fn law_octets_write_the_number(n: nat, count: nat)
    ensures
        octets_of(n, count).len() == count,
        count > 0 ==> octets_of(n, count)[count - 1] == n % 256,
        count > 0 ==> octets_of(n, count).take(count - 1) == octets_of(n / 256, (count - 1) as nat),
    decreases count,
{
    if count > 0 {
        law_octets_write_the_number(n / 256, (count - 1) as nat);
        assert(octets_of(n, count).take(count - 1) =~= octets_of(n / 256, (count - 1) as nat));
    }
}

/// How many numbers so many bytes can write.
spec fn range_of(count: nat) -> nat
    decreases count,
{
    if count == 0 {
        1
    } else {
        256 * range_of((count - 1) as nat)
    }
}

proof fn lemma_octets_differ(a: nat, b: nat, count: nat)
    requires
        octets_of(a, count) == octets_of(b, count),
        a < range_of(count),
        b < range_of(count),
    ensures
        a == b,
    decreases count,
{
    if count > 0 {
        law_octets_write_the_number(a, count);
        law_octets_write_the_number(b, count);
        lemma_octets_differ(a / 256, b / 256, (count - 1) as nat);
    }
}

/// Law: endpoints are told apart by the bytes that identify them: different families, addresses
/// or ports have different bytes.
pub proof fn law_endpoints_have_bytes_of_their_own(a: Endpoint, b: Endpoint)
    requires
        endpoint_bytes(a) == endpoint_bytes(b),
    ensures
        a is V4 <==> b is V4,
        a is V4 ==> a->V4_ip == b->V4_ip && a->V4_port == b->V4_port,
        a is V6 ==> a->V6_ip == b->V6_ip && a->V6_port == b->V6_port,
{
    reveal_with_fuel(range_of, 17);
    let one = endpoint_bytes(a);
    let two = endpoint_bytes(b);
    assert(one[0] == if a is V4 {
        4u8
    } else {
        6
    });
    assert(two[0] == if b is V4 {
        4u8
    } else {
        6
    });
    match (a, b) {
        (Endpoint::V4 { ip, port }, Endpoint::V4 { ip: other, port: gate }) => {
            law_octets_write_the_number(ip as nat, 4);
            law_octets_write_the_number(other as nat, 4);
            assert(one.subrange(1, 5) =~= octets_of(ip as nat, 4));
            assert(two.subrange(1, 5) =~= octets_of(other as nat, 4));
            lemma_octets_differ(ip as nat, other as nat, 4);
            assert(one.skip(5) =~= octets_of(port as nat, 2));
            assert(two.skip(5) =~= octets_of(gate as nat, 2));
            lemma_octets_differ(port as nat, gate as nat, 2);
        },
        (Endpoint::V6 { ip, port, .. }, Endpoint::V6 { ip: other, port: gate, .. }) => {
            law_octets_write_the_number(ip as nat, 16);
            law_octets_write_the_number(other as nat, 16);
            assert(one.subrange(1, 17) =~= octets_of(ip as nat, 16));
            assert(two.subrange(1, 17) =~= octets_of(other as nat, 16));
            lemma_octets_differ(ip as nat, other as nat, 16);
            assert(one.skip(17) =~= octets_of(port as nat, 2));
            assert(two.skip(17) =~= octets_of(gate as nat, 2));
            lemma_octets_differ(port as nat, gate as nat, 2);
        },
        _ => {},
    }
}

/// Law: the hash takes every byte in: it starts from its offset basis, and each further byte is
/// mixed in by exclusive or and a multiplication with the prime, modulo 2^64.
pub proof fn law_hashes_mix_every_byte(bytes: Seq<u8>, byte: u8)
    ensures
        fnv_1a(Seq::empty()) == 14_695_981_039_346_656_037,
        fnv_1a(bytes.push(byte)) as int == ((fnv_1a(bytes) ^ (byte as u64)) as int
            * 1_099_511_628_211) % 18_446_744_073_709_551_616,
{
    assert(bytes.push(byte).drop_last() =~= bytes);
}

} // verus!
