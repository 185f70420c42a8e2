//! Connection-local, dynamically resized receive ring.
use crate::outside::{another_handle, bytes_from_vec, handle_count};
use crate::pow2::next_power_of_two;
use crate::text::number_text;
use bytes::Bytes;
use std::ops::Range;
use std::sync::Arc;
use vstd::prelude::*;

#[allow(unused_imports)]
use crate::outside::bytes_contents;
#[allow(unused_imports)]
use crate::pow2::{ceil_pow2, is_pow2, lemma_ceil_pow2, lemma_pow2_gap, lemma_top_pow2, top_pow2};
#[allow(unused_imports)]
use crate::text::digits_of;

verus! {

/// Default maximum capacity of a receive ring: 64 MiB.
pub const DEFAULT_MAX_RX_BUFFER_CAPACITY: usize = 67_108_864;

/// Checks of low usage that an empty ring waits for before it shrinks.
pub const EMPTY_SHRINK_CYCLES: u8 = 10;

/// Checks of low usage that a ring with unparsed bytes waits for before it shrinks.
pub const NON_EMPTY_SHRINK_CYCLES: u8 = 32;

/// A receive buffer cannot satisfy a protocol's reservation without exceeding
/// its configured upper bound.
#[derive(Clone, Copy, Debug, PartialEq, Eq, Structural)]
pub struct RxCapacityError {
    pub required: usize,
    pub maximum: usize,
}

impl RxCapacityError {
    /// The error in words.
    pub open spec fn words(self) -> Seq<char> {
        "receive buffer requires "@ + digits_of(self.required as nat) + " bytes, above its "@
            + digits_of(self.maximum as nat) + "-byte limit"@
    }

    /// The error in words.
    pub fn message(&self) -> (text: String)
        ensures
            text@ == self.words(),
    {
        let mut text = "receive buffer requires ".to_owned();
        text.append(number_text(self.required).as_str());
        text.append(" bytes, above its ");
        text.append(number_text(self.maximum).as_str());
        text.append("-byte limit");
        text
    }
}

/// Longest use seen and checks passed since the ring was last judged too large.
#[derive(Clone, Copy, Debug, PartialEq, Eq, Structural)]
pub struct ShrinkPolicy {
    pub peak_len: usize,
    pub low_usage_cycles: u8,
}

/// The larger of two lengths.
pub open spec fn larger(a: nat, b: nat) -> nat {
    if a < b {
        b
    } else {
        a
    }
}

impl ShrinkPolicy {
    /// A policy that has seen nothing.
    pub open spec fn idle() -> Self {
        ShrinkPolicy { peak_len: 0, low_usage_cycles: 0 }
    }

    /// The policy after it sees `len` bytes in use.
    pub open spec fn recorded(self, len: nat) -> Self {
        ShrinkPolicy {
            peak_len: larger(self.peak_len as nat, len) as usize,
            low_usage_cycles: self.low_usage_cycles,
        }
    }

    /// The policy at the start of an observation window.
    pub open spec fn window(len: nat) -> Self {
        ShrinkPolicy { peak_len: len as usize, low_usage_cycles: 0 }
    }

    /// Number of low-usage checks after one more.
    pub open spec fn next_cycles(self) -> u8 {
        if self.low_usage_cycles == u8::MAX {
            u8::MAX
        } else {
            (self.low_usage_cycles + 1) as u8
        }
    }

    /// Whether one check finds the ring worth its size: it is minimal already, or the
    /// peak since the last window exceeds a quarter of it.
    pub open spec fn worth_keeping(self, len: nat, capacity: nat, minimum: nat) -> bool {
        capacity <= minimum || larger(self.peak_len as nat, len) > capacity / 4
    }

    /// Whether one check is the last that a shrink waits for.
    pub open spec fn waited_enough(self, len: nat) -> bool {
        self.next_cycles() >= if len == 0 {
            EMPTY_SHRINK_CYCLES
        } else {
            NON_EMPTY_SHRINK_CYCLES
        }
    }

    /// Twice the recent peak, at least the minimum, as a power of two.
    pub open spec fn snug(self, len: nat, minimum: nat) -> nat {
        ceil_pow2(larger(2 * larger(self.peak_len as nat, len), minimum))
    }

    /// The policy after one check.
    pub open spec fn checked(self, len: nat, capacity: nat, minimum: nat) -> Self {
        if self.worth_keeping(len, capacity, minimum) || self.waited_enough(len) {
            Self::window(len)
        } else {
            ShrinkPolicy {
                peak_len: self.recorded(len).peak_len,
                low_usage_cycles: self.next_cycles(),
            }
        }
    }

    /// The capacity that one check asks the ring to shrink to, if any.
    pub open spec fn target_of(self, len: nat, capacity: nat, minimum: nat) -> Option<nat> {
        if self.worth_keeping(len, capacity, minimum) || !self.waited_enough(len) || self.snug(
            len,
            minimum,
        ) >= capacity {
            None
        } else {
            Some(self.snug(len, minimum))
        }
    }

    /// Notes that `len` bytes are in use.
    pub fn record(&mut self, len: usize)
        ensures
            *final(self) == old(self).recorded(len as nat),
    {
        if self.peak_len < len {
            self.peak_len = len;
        }
    }

    /// Starts a new observation window.
    pub fn reset(&mut self, current_len: usize)
        ensures
            *final(self) == Self::window(current_len as nat),
    {
        self.peak_len = current_len;
        self.low_usage_cycles = 0;
    }

    /// One periodic check: the capacity to shrink to, once usage has stayed low for
    /// long enough.
    pub fn target(&mut self, current_len: usize, capacity: usize, minimum: usize) -> (target:
        Option<usize>)
        requires
            minimum <= top_pow2(),
        ensures
            *final(self) == old(self).checked(
                current_len as nat,
                capacity as nat,
                minimum as nat,
            ),
            match target {
                Some(smaller) => old(self).target_of(
                    current_len as nat,
                    capacity as nat,
                    minimum as nat,
                ) == Some(smaller as nat),
                None => old(self).target_of(
                    current_len as nat,
                    capacity as nat,
                    minimum as nat,
                ) is None,
            },
    {
        self.record(current_len);
        if capacity <= minimum {
            self.reset(current_len);
            return None;
        }
        if self.peak_len > capacity / 4 {
            self.reset(current_len);
            return None;
        }
        self.low_usage_cycles = self.low_usage_cycles.saturating_add(1);
        let required_cycles = if current_len == 0 {
            EMPTY_SHRINK_CYCLES
        } else {
            NON_EMPTY_SHRINK_CYCLES
        };
        if self.low_usage_cycles < required_cycles {
            return None;
        }
        let twice = self.peak_len * 2;
        let wanted = if twice < minimum {
            minimum
        } else {
            twice
        };
        let target = next_power_of_two(wanted);
        self.reset(current_len);
        if target < capacity {
            Some(target)
        } else {
            None
        }
    }
}

/// A receive ring as contracts see it.
pub struct RxView {
    /// Bytes that the protocol has not parsed, oldest first.
    pub unread: Seq<u8>,
    /// Size of the ring; zero before the first read.
    pub capacity: nat,
    /// Place of the first unread byte in the ring.
    pub start: nat,
    /// Bytes in front of it that response guards hold.
    pub held: nat,
    /// Responses that were taken out and not yet found released.
    pub frames: nat,
    /// Number of the release marker that those responses share with the ring.
    pub round: u64,
    pub minimum: nat,
    pub maximum: nat,
    pub policy: ShrinkPolicy,
}

impl RxView {
    /// A ring that has received nothing.
    pub open spec fn unused(minimum: nat, maximum: nat) -> Self {
        RxView {
            unread: Seq::empty(),
            capacity: 0,
            start: 0,
            held: 0,
            frames: 0,
            round: 0,
            minimum,
            maximum,
            policy: ShrinkPolicy::idle(),
        }
    }

    /// The ring after everything received is forgotten.
    pub open spec fn forgotten(self) -> Self {
        RxView { round: next_round(self.round), ..RxView::unused(self.minimum, self.maximum) }
    }

    /// What holds of every ring: its size is a power of two between its limits, and the
    /// bytes in it, held or unread, fit.
    pub open spec fn valid(self) -> bool {
        &&& is_pow2(self.minimum)
        &&& is_pow2(self.maximum)
        &&& self.minimum <= self.maximum
        &&& self.capacity > 0 ==> is_pow2(self.capacity) && self.minimum <= self.capacity
            <= self.maximum
        &&& self.held + self.unread.len() <= self.capacity
        &&& self.start <= self.capacity
        &&& self.frames <= self.held
        &&& self.frames == 0 ==> self.held == 0
    }

    /// Room for bytes that have not arrived.
    pub open spec fn available(self) -> int {
        self.capacity - self.held - self.unread.len()
    }

    /// Length of the longest writable run that lies in one piece behind the unread bytes.
    pub open spec fn chunk_len(self) -> int {
        let at = if self.available() == 0 {
            0
        } else {
            wrapped(self.start + self.unread.len(), self.capacity)
        };
        if self.available() < self.capacity - at {
            self.available()
        } else {
            self.capacity - at
        }
    }

    /// The ring once every response taken out of it is found released.
    pub open spec fn collected(self) -> Self {
        RxView {
            start: if self.unread.len() == 0 {
                0
            } else {
                self.start
            },
            held: 0,
            frames: 0,
            round: next_round(self.round),
            ..self
        }
    }

    /// The ring after a look for released responses, when so many handles to their release
    /// marker exist: the last one is the ring's own.
    pub open spec fn collected_with(self, handles: usize) -> Self {
        if self.frames > 0 && handles <= 1 {
            self.collected()
        } else {
            self
        }
    }

    /// Whether looking for released responses may lead from this ring to `next`: the handles
    /// that are found decide. Without responses there is nothing to look for.
    pub open spec fn may_collect(self, next: Self) -> bool {
        if self.frames > 0 {
            exists|handles: usize|
                (#[trigger] may_find(self.round, handles)) && next == self.collected_with(handles)
        } else {
            next == self
        }
    }

    /// The ring after its unread bytes move to fresh storage.
    pub open spec fn resized(self, capacity: nat) -> Self {
        RxView {
            capacity,
            start: 0,
            held: 0,
            frames: 0,
            round: next_round(self.round),
            policy: ShrinkPolicy::window(self.unread.len()),
            ..self
        }
    }

    /// The capacity that holds `additional` more bytes.
    pub open spec fn grown_capacity(self, additional: nat) -> nat {
        ceil_pow2(larger(self.unread.len() + additional, self.minimum))
    }

    /// The ring after room for `additional` bytes is secured, guards left alone.
    pub open spec fn roomy(self, additional: nat) -> Self {
        if additional <= self.available() {
            self
        } else {
            self.resized(self.grown_capacity(additional))
        }
    }

    /// Whether reserving room for `additional` bytes may lead from this ring to `next`.
    pub open spec fn may_reserve(self, additional: nat, next: Self) -> bool {
        exists|settled: RxView|
            (#[trigger] self.may_collect(settled)) && next == settled.roomy(additional)
    }

    /// Whether making room may lead from this ring to `next`, if it is full.
    pub open spec fn may_relieve(self, next: Self) -> bool {
        if self.capacity > 0 && self.available() == 0 {
            self.may_reserve(1, next)
        } else {
            next == self
        }
    }

    /// Whether looking for released responses, and making room in a ring that is still
    /// full, may lead from this ring to `next`.
    pub open spec fn may_settle(self, next: Self) -> bool {
        exists|settled: RxView| (#[trigger] self.may_collect(settled)) && settled.may_relieve(next)
    }

    /// The ring after `bytes` arrive.
    pub open spec fn appended(self, bytes: Seq<u8>) -> Self {
        RxView {
            unread: self.unread + bytes,
            policy: if bytes.len() == 0 {
                self.policy
            } else {
                self.policy.recorded((self.unread + bytes).len())
            },
            ..self
        }
    }

    /// The ring after one response of `length` bytes is taken out.
    pub open spec fn taken(self, length: nat) -> Self {
        RxView {
            unread: self.unread.skip(length as int),
            start: wrapped(self.start + length, self.capacity),
            held: self.held + length,
            frames: self.frames + 1,
            ..self
        }
    }

    /// The ring after one periodic check, guards left alone.
    pub open spec fn shrunk(self) -> Self {
        let len = self.unread.len();
        match self.policy.target_of(len, self.capacity, self.minimum) {
            Some(target) => self.resized(target),
            None => RxView {
                policy: self.policy.checked(len, self.capacity, self.minimum),
                ..self
            },
        }
    }

    /// Whether one periodic check may lead from this ring to `next`.
    pub open spec fn may_shrink(self, next: Self) -> bool {
        exists|settled: RxView| (#[trigger] self.may_collect(settled)) && next == settled.shrunk()
    }

    /// The ring ready for a read from the socket, guards left alone.
    pub open spec fn readable(self) -> Self {
        if self.capacity == 0 || (self.available() == 0 && self.unread.len() == 0) {
            self.resized(self.minimum)
        } else {
            self
        }
    }

    /// Whether getting ready for a read may lead from this ring to `next`.
    pub open spec fn may_prepare(self, next: Self) -> bool {
        exists|settled: RxView| (#[trigger] self.may_collect(settled)) && next == settled.readable()
    }
}

/// Whether so many handles to the release marker with this number may be found.
pub closed spec fn may_find(round: u64, handles: usize) -> bool {
    exists|marker: &Arc<Releases>|
        marker.round == round && #[trigger] call_ensures(
            handle_count::<Releases>,
            (marker,),
            handles,
        )
}

/// The number of the release marker after the one with this number.
pub open spec fn next_round(round: u64) -> u64 {
    if round == u64::MAX {
        0
    } else {
        (round + 1) as u64
    }
}

/// The place in a ring of `capacity` bytes of a position less than two rounds in.
pub open spec fn wrapped(position: nat, capacity: nat) -> nat {
    if position >= capacity {
        (position - capacity) as nat
    } else {
        position
    }
}

/// The place in the ring of a position less than two rounds in.
fn ring_index(position: usize, capacity: usize) -> (index: usize)
    requires
        position < 2 * capacity,
    ensures
        index == wrapped(position as nat, capacity as nat),
        index == position as int % capacity as int,
        index < capacity,
{
    proof {
        if position < capacity {
            vstd::arithmetic::div_mod::lemma_small_mod(position as nat, capacity as nat);
        } else {
            vstd::arithmetic::div_mod::lemma_small_mod((position - capacity) as nat, capacity as nat);
            vstd::arithmetic::div_mod::lemma_mod_sub_multiples_vanish(
                position as int,
                capacity as int,
            );
        }
    }
    if position >= capacity {
        position - capacity
    } else {
        position
    }
}

/// Shared by the guards of the responses taken out since the ring was last collected.
///
/// The ring holds one handle to it and each of those responses another, so the ring sees
/// when all of them have been dropped. Every collection starts a marker with a new number.
pub struct Releases {
    round: u64,
}

impl Releases {
    /// The marker that takes the place of this one.
    fn renewed(&self) -> (next: Self)
        ensures
            next.round == next_round(self.round),
    {
        Releases { round: self.round.wrapping_add(1) }
    }
}

/// Dynamically resized ring buffer of one connection.
///
/// Three counters obey `read <= taken <= write`: bytes before `read` are reusable, bytes
/// between `read` and `taken` belong to responses that were taken out, and bytes between
/// `taken` and `write` are available to the protocol. Resizing copies only the unparsed
/// suffix, so a caller that keeps a response never stops the connection from receiving.
pub struct RxBuffer {
    backing: Vec<u8>,
    minimum: usize,
    maximum: usize,
    read: usize,
    taken: usize,
    write: usize,
    taken_frames: usize,
    releases: Arc<Releases>,
    shrink: ShrinkPolicy,
}

/// `length` bytes of a ring from position `from` on.
spec fn ring_bytes(ring: Seq<u8>, from: int, length: int) -> Seq<u8> {
    Seq::new(length as nat, |i: int| ring[wrapped((from + i) as nat, ring.len()) as int])
}

impl RxBuffer {
    spec fn ring(&self) -> Seq<u8> {
        self.backing@
    }

    /// The counters fit the ring, the ring fits its limits, and guards are counted.
    pub closed spec fn wf(&self) -> bool {
        let capacity = self.ring().len();
        &&& is_pow2(self.minimum as nat)
        &&& is_pow2(self.maximum as nat)
        &&& self.minimum <= self.maximum
        &&& capacity > 0 ==> {
            &&& is_pow2(capacity)
            &&& self.minimum <= capacity <= self.maximum
            &&& self.read < capacity
        }
        &&& self.read <= self.taken <= self.write <= self.read + capacity
        &&& self.taken_frames <= self.taken - self.read
        &&& self.taken_frames == 0 ==> self.taken == self.read
        &&& capacity == 0 ==> self.read == 0
    }
}

impl View for RxBuffer {
    type V = RxView;

    closed spec fn view(&self) -> RxView {
        RxView {
            unread: ring_bytes(self.ring(), self.taken as int, self.write - self.taken),
            capacity: self.ring().len(),
            start: wrapped(self.taken as nat, self.ring().len()),
            held: (self.taken - self.read) as nat,
            frames: self.taken_frames as nat,
            round: self.releases.round,
            minimum: self.minimum as nat,
            maximum: self.maximum as nat,
            policy: self.shrink,
        }
    }
}

impl RxBuffer {
    /// A ring that starts at `minimum` bytes and may grow to `maximum`. Storage is
    /// allocated by the first read.
    pub fn new(minimum: usize, maximum: usize) -> (buffer: Self)
        requires
            is_pow2(minimum as nat),
            is_pow2(maximum as nat),
            minimum <= maximum,
        ensures
            buffer.wf(),
            buffer@ == RxView::unused(minimum as nat, maximum as nat),
    {
        let buffer = RxBuffer {
            backing: Vec::new(),
            minimum,
            maximum,
            read: 0,
            taken: 0,
            write: 0,
            taken_frames: 0,
            releases: Arc::new(Releases { round: 0 }),
            shrink: ShrinkPolicy { peak_len: 0, low_usage_cycles: 0 },
        };
        assert(buffer@.unread =~= Seq::empty());
        buffer
    }

    /// An in-memory receive buffer for protocol tests and adapters.
    pub fn with_capacity(capacity: usize) -> (buffer: Self)
        requires
            capacity <= top_pow2(),
        ensures
            buffer.wf(),
            buffer@ == RxView::unused(
                ceil_pow2(capacity as nat),
                larger(DEFAULT_MAX_RX_BUFFER_CAPACITY as nat, ceil_pow2(capacity as nat)),
            ),
    {
        proof {
            lemma_ceil_pow2(capacity as nat);
            lemma_default_maximum();
        }
        let minimum = next_power_of_two(capacity);
        let maximum = if DEFAULT_MAX_RX_BUFFER_CAPACITY < minimum {
            minimum
        } else {
            DEFAULT_MAX_RX_BUFFER_CAPACITY
        };
        Self::new(minimum, maximum)
    }

    /// Number of unparsed bytes that the protocol can see.
    pub fn len(&self) -> (len: usize)
        requires
            self.wf(),
        ensures
            len == self@.unread.len(),
    {
        self.write - self.taken
    }

    /// Whether the protocol has parsed everything.
    pub fn is_empty(&self) -> (empty: bool)
        requires
            self.wf(),
        ensures
            empty == (self@.unread.len() == 0),
    {
        self.len() == 0
    }

    /// Size of the ring; zero before the first read.
    pub fn capacity(&self) -> (capacity: usize)
        requires
            self.wf(),
        ensures
            capacity == self@.capacity,
    {
        self.backing.len()
    }

    /// Size that the ring never exceeds.
    pub fn maximum_capacity(&self) -> (maximum: usize)
        ensures
            maximum == self@.maximum,
    {
        self.maximum
    }

    /// Room for bytes that have not arrived.
    pub fn available(&self) -> (room: usize)
        requires
            self.wf(),
        ensures
            room == self@.available(),
    {
        self.capacity() - (self.write - self.read)
    }

    /// One byte relative to the first unparsed one.
    pub fn byte(&self, offset: usize) -> (byte: Option<u8>)
        requires
            self.wf(),
        ensures
            byte == if offset < self@.unread.len() {
                Some(self@.unread[offset as int])
            } else {
                None::<u8>
            },
    {
        if offset >= self.len() {
            return None;
        }
        Some(self.backing[ring_index(self.taken + offset, self.backing.len())])
    }

    /// Position of the first CRLF pair at or after `offset`.
    pub fn find_crlf(&self, offset: usize) -> (found: Option<usize>)
        requires
            self.wf(),
        ensures
            match found {
                Some(at) => {
                    &&& offset <= at
                    &&& crlf_at(self@.unread, at as int)
                    &&& forall|i: int| offset <= i < at ==> !crlf_at(self@.unread, i)
                },
                None => forall|i: int| offset <= i ==> !crlf_at(self@.unread, i),
            },
    {
        let len = self.len();
        let mut at = offset;
        while at < len && len - at > 1
            invariant
                self.wf(),
                len == self@.unread.len(),
                offset <= at,
                forall|i: int| offset <= i < at ==> !crlf_at(self@.unread, i),
            decreases len - at,
        {
            if self.byte(at) == Some(13u8) && self.byte(at + 1) == Some(10u8) {
                return Some(at);
            }
            at = at + 1;
        }
        None
    }

    /// Compares a range of the unparsed bytes with `expected`.
    pub fn range_eq(&self, range: Range<usize>, expected: &[u8]) -> (equal: bool)
        requires
            self.wf(),
        ensures
            equal == (range.end <= self@.unread.len() && span(
                self@.unread,
                range.start as int,
                range.end as int,
            ) == expected@),
    {
        let length = if range.start < range.end {
            range.end - range.start
        } else {
            0
        };
        if range.end > self.len() || length != expected.len() {
            return false;
        }
        let mut index: usize = 0;
        while index < expected.len()
            invariant
                self.wf(),
                index <= expected@.len(),
                range.end <= self@.unread.len(),
                expected@.len() == span(self@.unread, range.start as int, range.end as int).len(),
                expected@.len() > 0 ==> expected@.len() == range.end - range.start,
                forall|i: int|
                    0 <= i < index ==> span(
                        self@.unread,
                        range.start as int,
                        range.end as int,
                    )[i] == expected@[i],
            decreases expected@.len() - index,
        {
            if self.byte(range.start + index) != Some(expected[index]) {
                return false;
            }
            index = index + 1;
        }
        assert(span(self@.unread, range.start as int, range.end as int) =~= expected@);
        true
    }

    /// Whether so many handles may be found to the release marker that the ring shares with
    /// the responses taken out of it.
    pub closed spec fn may_count(&self, handles: usize) -> bool {
        call_ensures(handle_count::<Releases>, (&self.releases,), handles)
    }

    /// Reclaims the room of responses that were taken out, when `handles` says that the
    /// ring holds the last handle to their release marker.
    pub fn gc_with(&mut self, handles: usize)
        requires
            old(self).wf(),
        ensures
            final(self).wf(),
            final(self)@ == old(self)@.collected_with(handles),
    {
        if self.taken_frames == 0 || handles > 1 {
            return;
        }
        let ghost unread = self@.unread;
        let capacity = self.capacity();
        let rest = self.write - self.taken;
        let at = if rest == 0 {
            0
        } else {
            ring_index(self.taken, capacity)
        };
        self.read = at;
        self.taken = at;
        self.write = at + rest;
        self.taken_frames = 0;
        self.releases = Arc::new(self.releases.renewed());
        assert(self@.unread =~= unread);
    }

    /// Reclaims the room of responses that were taken out, if all of them have been
    /// dropped: as [`RxBuffer::gc_with`] does for the handles that exist right now.
    pub fn gc(&mut self)
        requires
            old(self).wf(),
        ensures
            final(self).wf(),
            old(self)@.may_collect(final(self)@),
            old(self)@.frames > 0 ==> exists|handles: usize|
                ({
                    &&& #[trigger] old(self).may_count(handles)
                    &&& final(self)@ == old(self)@.collected_with(handles)
                }),
    {
        if self.taken_frames == 0 {
            return;
        }
        let handles = handle_count(&self.releases);
        assert(self.may_count(handles) && may_find(self@.round, handles));
        self.gc_with(handles);
    }

    /// Moves the unread bytes to fresh storage. Responses that were taken out keep their
    /// own bytes.
    fn resize(&mut self, capacity: usize)
        requires
            old(self).wf(),
            is_pow2(capacity as nat),
            old(self)@.minimum <= capacity <= old(self)@.maximum,
            capacity >= old(self)@.unread.len(),
        ensures
            final(self).wf(),
            final(self)@ == old(self)@.resized(capacity as nat),
    {
        let ghost unread = self@.unread;
        let rest = self.len();
        let mut replacement: Vec<u8> = Vec::with_capacity(capacity);
        let mut offset: usize = 0;
        while offset < rest
            invariant
                self.wf(),
                unread == self@.unread,
                rest == unread.len(),
                offset <= rest,
                replacement@ =~= unread.take(offset as int),
            decreases rest - offset,
        {
            match self.byte(offset) {
                Some(byte) => {
                    replacement.push(byte);
                },
                None => {},
            }
            offset = offset + 1;
        }
        replacement.resize(capacity, 0u8);
        assert(replacement@.take(rest as int) =~= unread);
        self.backing = replacement;
        self.read = 0;
        self.taken = 0;
        self.write = rest;
        self.taken_frames = 0;
        self.releases = Arc::new(self.releases.renewed());
        self.shrink.reset(rest);
        assert(self@.unread =~= unread);
    }

    /// Secures room for `additional` bytes, so that a large frame whose length is known
    /// grows the ring only once. Fails, keeping the ring, exactly when the unread bytes
    /// and the additional ones exceed the maximum together.
    pub fn reserve(&mut self, additional: usize) -> (secured: Result<(), RxCapacityError>)
        requires
            old(self).wf(),
        ensures
            final(self).wf(),
            secured is Err <==> old(self)@.unread.len() + additional > old(self)@.maximum,
            match secured {
                Ok(()) => old(self)@.may_reserve(additional as nat, final(self)@),
                Err(error) => {
                    &&& error.required == if old(self)@.unread.len() + additional > usize::MAX {
                        usize::MAX as int
                    } else {
                        old(self)@.unread.len() + additional
                    }
                    &&& error.maximum == old(self)@.maximum
                    &&& old(self)@.may_collect(final(self)@)
                },
            },
    {
        self.gc();
        if additional <= self.available() {
            return Ok(());
        }
        let required = match self.len().checked_add(additional) {
            Some(required) => required,
            None => {
                return Err(RxCapacityError { required: usize::MAX, maximum: self.maximum });
            },
        };
        if required > self.maximum {
            return Err(RxCapacityError { required, maximum: self.maximum });
        }
        let wanted = if required < self.minimum {
            self.minimum
        } else {
            required
        };
        proof {
            lemma_top_pow2();
            lemma_ceil_pow2(wanted as nat);
        }
        let capacity = next_power_of_two(wanted);
        self.resize(capacity);
        Ok(())
    }

    /// Appends bytes as though they had been read from a socket. Fails exactly when
    /// [`RxBuffer::reserve`] does.
    pub fn extend_from_slice(&mut self, bytes: &[u8]) -> (appended: Result<(), RxCapacityError>)
        requires
            old(self).wf(),
        ensures
            final(self).wf(),
            appended is Err <==> old(self)@.unread.len() + bytes@.len() > old(self)@.maximum,
            match appended {
                Ok(()) => exists|roomy: RxView, settled: RxView|
                    #![trigger old(self)@.may_reserve(bytes@.len(), roomy), settled.appended(bytes@)]
                    {
                        &&& old(self)@.may_reserve(bytes@.len(), roomy)
                        &&& if bytes@.len() > 0 {
                            roomy.may_collect(settled)
                        } else {
                            settled == roomy
                        }
                        &&& final(self)@ == settled.appended(bytes@)
                    },
                Err(error) => {
                    &&& error.required == if old(self)@.unread.len() + bytes@.len() > usize::MAX {
                        usize::MAX as int
                    } else {
                        (old(self)@.unread.len() + bytes@.len()) as int
                    }
                    &&& error.maximum == old(self)@.maximum
                    &&& old(self)@.may_collect(final(self)@)
                },
            },
    {
        match self.reserve(bytes.len()) {
            Ok(()) => {},
            Err(error) => {
                return Err(error);
            },
        }
        let ghost roomy = self@;
        proof {
            lemma_ceil_pow2(larger(old(self)@.unread.len() + bytes@.len(), old(self)@.minimum));
        }
        let settled = self.put_slice(bytes);
        Ok(())
    }

    /// The `length` bytes of the ring that follow the unread ones.
    pub closed spec fn upcoming(&self, length: int) -> Seq<u8> {
        ring_bytes(self.ring(), self.write as int, length)
    }

    /// Makes the `length` bytes that were written behind the unread ones visible to the
    /// protocol.
    pub fn advance_mut(&mut self, length: usize)
        requires
            old(self).wf(),
            length <= old(self)@.available(),
        ensures
            final(self).wf(),
            final(self)@.unread == old(self)@.unread + old(self).upcoming(length as int),
            final(self)@ == (RxView {
                unread: final(self)@.unread,
                policy: old(self)@.policy.recorded(final(self)@.unread.len()),
                ..old(self)@
            }),
    {
        proof {
            lemma_top_pow2();
        }
        self.write = self.write + length;
        self.shrink.record(self.write - self.taken);
        assert(self@.unread =~= old(self)@.unread + old(self).upcoming(length as int));
    }

    /// The longest run of writable bytes that lies in one piece behind the unread ones.
    /// Bytes written there become visible through [`RxBuffer::advance_mut`].
    #[verifier::spinoff_prover]
    #[verifier::rlimit(40)]
    pub fn chunk_mut(&mut self) -> (chunk: &mut [u8])
        requires
            old(self).wf(),
        ensures
            final(chunk)@.len() == chunk@.len() ==> {
                &&& final(self).wf()
                &&& old(self)@.may_collect(final(self)@)
                &&& chunk@.len() == final(self)@.chunk_len()
                &&& final(self).upcoming(chunk@.len() as int) == final(chunk)@
            },
    {
        self.gc();
        let ghost settled = self@;
        let available = self.available();
        let capacity = self.capacity();
        let at = if available == 0 {
            0
        } else {
            ring_index(self.write, capacity)
        };
        let length = if available < capacity - at {
            available
        } else {
            capacity - at
        };
        let (_, tail) = self.backing.as_mut_slice().split_at_mut(at);
        let (chunk, _) = tail.split_at_mut(length);
        assert(final(chunk)@.len() == chunk@.len() ==> after_borrow(self)@.unread =~= settled.unread);
        assert(final(chunk)@.len() == chunk@.len() ==> after_borrow(self).upcoming(chunk@.len() as int)
            =~= final(chunk)@);
        chunk
    }

    /// Appends bytes for which there is room.
    fn put_slice(&mut self, bytes: &[u8]) -> (settled: Ghost<RxView>)
        requires
            old(self).wf(),
            bytes@.len() <= old(self)@.available(),
        ensures
            final(self).wf(),
            if bytes@.len() > 0 {
                old(self)@.may_collect(settled@)
            } else {
                settled@ == old(self)@
            },
            final(self)@ == settled@.appended(bytes@),
    {
        if bytes.len() == 0 {
            assert(self@.unread + bytes@ =~= self@.unread);
            return Ghost(self@);
        }
        self.gc();
        let ghost settled = self@;
        let mut written: usize = 0;
        while written < bytes.len()
            invariant
                self.wf(),
                written <= bytes@.len(),
                bytes@.len() - written <= self@.available(),
                written == 0 ==> self@ == settled,
                written > 0 ==> self@ == settled.appended(bytes@.take(written as int)),
            decreases bytes@.len() - written,
        {
            let ghost before = self@;
            let at = self.write;
            let byte = bytes[written];
            let index = ring_index(at, self.backing.len());
            self.backing[index] = byte;
            self.advance_mut(1);
            assert(self@.unread =~= before.unread.push(byte));
            assert(bytes@.take(written + 1) =~= bytes@.take(written as int).push(byte));
            assert(settled.unread + bytes@.take(written + 1) =~= before.unread.push(byte));
            written = written + 1;
        }
        assert(bytes@.take(bytes@.len() as int) =~= bytes@);
        Ghost(settled)
    }

    /// Moves one complete response out of the unread bytes. The room it took is
    /// reclaimed once every response taken out so far has been dropped.
    pub fn take(&mut self, length: usize) -> (frame: RxFrame)
        requires
            old(self).wf(),
            0 < length <= old(self)@.unread.len(),
        ensures
            final(self).wf(),
            final(self)@ == old(self)@.taken(length as nat),
            frame.wf(),
            frame@ == old(self)@.unread.take(length as int),
            frame.place() == old(self)@.start,
            frame.ring_size() == old(self)@.capacity,
            frame.round() == old(self)@.round,
            frame.guards(*old(self)),
    {
        let capacity = self.capacity();
        let start = ring_index(self.taken, capacity);
        let mut bytes: Vec<u8> = Vec::with_capacity(length);
        while bytes.len() < length
            invariant
                self.wf(),
                self@ == old(self)@,
                bytes@.len() <= length <= self@.unread.len(),
                bytes@ =~= self@.unread.take(bytes@.len() as int),
            decreases length - bytes@.len(),
        {
            match self.byte(bytes.len()) {
                Some(byte) => {
                    bytes.push(byte);
                },
                None => {},
            }
        }
        self.taken = self.taken + length;
        self.taken_frames = self.taken_frames + 1;
        assert(self@.unread =~= old(self)@.unread.skip(length as int));
        let frame = RxFrame { bytes, start, capacity, releases: another_handle(&self.releases) };
        assert(frame.guards(*old(self)));
        frame
    }

    /// Consumes bytes that do not have to escape the protocol.
    pub fn advance(&mut self, length: usize)
        requires
            old(self).wf(),
            0 < length <= old(self)@.unread.len(),
        ensures
            final(self).wf(),
            old(self)@.taken(length as nat).may_collect(final(self)@),
    {
        let _ = self.take(length);
        self.gc();
    }

    /// Forgets everything received, for a new connection.
    pub fn reset(&mut self)
        requires
            old(self).wf(),
        ensures
            final(self).wf(),
            final(self)@ == old(self)@.forgotten(),
    {
        self.backing = Vec::new();
        self.read = 0;
        self.taken = 0;
        self.write = 0;
        self.taken_frames = 0;
        self.releases = Arc::new(self.releases.renewed());
        self.shrink.reset(0);
        assert(self@.unread =~= Seq::empty());
    }

    /// Periodic maintenance: gives memory back once usage has stayed low for long enough.
    pub fn shrink(&mut self)
        requires
            old(self).wf(),
        ensures
            final(self).wf(),
            old(self)@.may_shrink(final(self)@),
    {
        self.gc();
        let current_len = self.len();
        let capacity = self.capacity();
        let ghost settled = self@;
        proof {
            lemma_top_pow2();
        }
        match self.shrink.target(current_len, capacity, self.minimum) {
            Some(target) => {
                proof {
                    lemma_ceil_pow2(
                        larger(
                            2 * larger(settled.policy.peak_len as nat, settled.unread.len()),
                            settled.minimum,
                        ),
                    );
                    assert(self@.unread =~= settled.unread);
                }
                self.resize(target);
            },
            None => {
                assert(self@.unread =~= settled.unread);
            },
        }
    }

    /// Whether storage exists and all of it is in use.
    pub fn is_full(&mut self) -> (full: bool)
        requires
            old(self).wf(),
        ensures
            final(self).wf(),
            old(self)@.may_collect(final(self)@),
            full == (final(self)@.capacity > 0 && final(self)@.available() == 0),
    {
        self.gc();
        self.capacity() > 0 && self.available() == 0
    }

    /// Makes sure that there is storage to read into: the first read allocates it, and a
    /// ring whose storage belongs to guards alone moves to a fresh one. Never fails.
    pub fn prepare_read(&mut self) -> (ready: Result<(), RxCapacityError>)
        requires
            old(self).wf(),
        ensures
            ready is Ok,
            final(self).wf(),
            old(self)@.may_prepare(final(self)@),
    {
        self.gc();
        if self.capacity() == 0 || (self.available() == 0 && self.is_empty()) {
            self.resize(self.minimum);
        }
        Ok(())
    }
}

/// One complete response taken out of an [`RxBuffer`].
pub struct RxFrame {
    bytes: Vec<u8>,
    start: usize,
    capacity: usize,
    releases: Arc<Releases>,
}

impl View for RxFrame {
    type V = Seq<u8>;

    closed spec fn view(&self) -> Seq<u8> {
        self.bytes@
    }
}

impl RxFrame {
    /// Number of the release marker that the response holds on to.
    pub closed spec fn round(&self) -> u64 {
        self.releases.round
    }

    /// Whether the response holds a handle of its own to the release marker of the ring, so
    /// that the ring sees when the response is dropped.
    pub closed spec fn guards(&self, ring: RxBuffer) -> bool {
        call_ensures(another_handle::<Releases>, (&ring.releases,), self.releases)
    }

    /// The response lay in a ring large enough to hold it.
    pub closed spec fn wf(&self) -> bool {
        &&& 0 < self.bytes@.len() <= self.capacity
        &&& self.start < self.capacity
    }

    /// Place of the response's first byte in its ring.
    pub closed spec fn place(&self) -> nat {
        self.start as nat
    }

    /// Size of the ring that the response came from.
    pub closed spec fn ring_size(&self) -> nat {
        self.capacity as nat
    }

    /// Whether the response did not cross the end of its ring.
    pub open spec fn contiguous(&self) -> bool {
        self.place() + self@.len() <= self.ring_size()
    }

    /// Length of the response.
    pub fn len(&self) -> (len: usize)
        ensures
            len == self@.len(),
    {
        self.bytes.len()
    }

    /// Whether the response has no bytes.
    pub fn is_empty(&self) -> (empty: bool)
        ensures
            empty == (self@.len() == 0),
    {
        self.bytes.len() == 0
    }

    /// Whether the response did not cross the end of its ring.
    pub fn is_contiguous(&self) -> (contiguous: bool)
        requires
            self.wf(),
        ensures
            contiguous == self.contiguous(),
            contiguous == (self.place() + self@.len() <= self.ring_size()),
    {
        self.bytes.len() <= self.capacity - self.start
    }

    /// One byte of the response.
    pub fn byte(&self, offset: usize) -> (byte: Option<u8>)
        ensures
            byte == if offset < self@.len() {
                Some(self@[offset as int])
            } else {
                None::<u8>
            },
    {
        if offset >= self.bytes.len() {
            return None;
        }
        Some(self.bytes[offset])
    }

    /// A copy of part of the response.
    pub fn copy_range(&self, range: Range<usize>) -> (copy: Bytes)
        requires
            range.end <= self@.len(),
        ensures
            bytes_contents(copy) == span(self@, range.start as int, range.end as int),
    {
        let mut output: Vec<u8> = Vec::new();
        let mut at = range.start;
        while at < range.end
            invariant
                range.end <= self@.len(),
                range.start <= at,
                at <= range.end || at == range.start,
                output@ =~= span(self@, range.start as int, at as int),
            decreases range.end - at,
        {
            output.push(self.bytes[at]);
            at = at + 1;
        }
        assert(output@ =~= span(self@, range.start as int, range.end as int));
        bytes_from_vec(output)
    }

    /// Turns a response that did not cross the end of its ring into one contiguous
    /// owner; any other response comes back unchanged.
    pub fn into_contiguous(self) -> (owner: Result<ContiguousRxFrame, Self>)
        requires
            self.wf(),
        ensures
            match owner {
                Ok(frame) => self.contiguous() && frame@ == self@ && frame.response() == self,
                Err(frame) => !self.contiguous() && frame == self,
            },
    {
        if self.is_contiguous() {
            Ok(ContiguousRxFrame(self))
        } else {
            Err(self)
        }
    }
}

/// A response whose bytes occupied one piece of the ring.
pub struct ContiguousRxFrame(RxFrame);

impl View for ContiguousRxFrame {
    type V = Seq<u8>;

    closed spec fn view(&self) -> Seq<u8> {
        self.0@
    }
}

impl ContiguousRxFrame {
    /// The response itself, with what it holds on to.
    pub closed spec fn response(&self) -> RxFrame {
        self.0
    }

    /// The bytes of the response.
    pub fn as_slice(&self) -> (bytes: &[u8])
        ensures
            bytes@ == self@,
    {
        self.0.bytes.as_slice()
    }
}

impl AsRef<[u8]> for ContiguousRxFrame {
    fn as_ref(&self) -> (bytes: &[u8])
        ensures
            bytes@ == self@,
    {
        self.as_slice()
    }
}

/// Whether a CRLF pair starts at `at`.
pub open spec fn crlf_at(bytes: Seq<u8>, at: int) -> bool {
    0 <= at && at + 1 < bytes.len() && bytes[at] == 13 && bytes[at + 1] == 10
}

/// The bytes from `start` up to `end`; none when the range is reversed.
pub open spec fn span(bytes: Seq<u8>, start: int, end: int) -> Seq<u8> {
    if start < end {
        bytes.subrange(start, end)
    } else {
        Seq::empty()
    }
}

proof fn lemma_default_maximum()
    ensures
        is_pow2(DEFAULT_MAX_RX_BUFFER_CAPACITY as nat),
{
    reveal_with_fuel(is_pow2, 28);
}

impl RxBuffer {
    /// Law: the limits and the room of every well-formed ring are in order.
    pub proof fn law_ring_is_valid(&self)
        requires
            self.wf(),
        ensures
            self@.valid(),
    {
        assert(self.taken < 2 * self.ring().len() || self.ring().len() == 0);
    }
}

/// Law: bytes leave the ring in the order in which they arrived, and what is not taken
/// stays.
pub proof fn law_bytes_keep_their_order(ring: RxView, arrived: Seq<u8>, length: nat)
    requires
        0 < length <= ring.unread.len() + arrived.len(),
    ensures
        ({
            let all = ring.appended(arrived).unread;
            &&& all == ring.unread + arrived
            &&& all == all.take(length as int) + ring.appended(arrived).taken(length).unread
        }),
{
    let all = ring.appended(arrived).unread;
    assert(all =~= all.take(length as int) + all.skip(length as int));
}

/// Law: a reservation that fits the maximum succeeds with the room it asked for, keeps
/// the unread bytes and the limits, and never shrinks the room below the ring's minimum.
pub proof fn law_reservation_makes_room(ring: RxView, additional: nat, next: RxView)
    requires
        ring.valid(),
        ring.unread.len() + additional <= ring.maximum,
        ring.may_reserve(additional, next),
    ensures
        next.valid(),
        next.available() >= additional,
        next.unread == ring.unread,
        next.maximum == ring.maximum,
        additional <= ring.available() ==> next.capacity == ring.capacity,
        additional > ring.capacity - ring.unread.len() ==> next.capacity == ring.grown_capacity(
            additional,
        ),
{
    lemma_ceil_pow2(larger(ring.unread.len() + additional, ring.minimum));
}

/// Law: moving to other storage keeps exactly the unread bytes, and drops every claim of
/// the responses taken out before.
pub proof fn law_resize_keeps_only_unread_bytes(ring: RxView, capacity: nat)
    ensures
        ring.resized(capacity).unread == ring.unread,
        ring.resized(capacity).held == 0,
        ring.resized(capacity).frames == 0,
        ring.resized(capacity).available() == capacity - ring.unread.len(),
{
}

/// Law: the room of responses is not reclaimed while one of them is held: as long as another
/// handle than the ring's own exists, a look for released responses changes nothing. Once
/// none does, it reclaims all of their room and starts another marker.
pub proof fn law_held_responses_keep_their_room(ring: RxView, handles: usize)
    requires
        ring.valid(),
    ensures
        handles > 1 ==> ring.collected_with(handles) == ring,
        handles <= 1 && ring.frames > 0 ==> {
            let after = ring.collected_with(handles);
            &&& after.available() == ring.available() + ring.held
            &&& after.unread == ring.unread
            &&& after.round != ring.round
        },
{
}

/// Law: responses that are still held never stop the connection from receiving: a ring
/// with nothing unread has room after it is prepared for a read.
pub proof fn law_held_responses_do_not_block_reading(ring: RxView)
    requires
        ring.valid(),
    ensures
        ring.readable().valid(),
        ring.readable().unread == ring.unread,
        ring.unread.len() == 0 ==> ring.readable().available() > 0,
{
}

/// Law: maintenance keeps the unread bytes and the limits, never grows the ring, and
/// leaves room for twice the recent peak.
pub proof fn law_maintenance_keeps_twice_the_peak(ring: RxView)
    requires
        ring.valid(),
    ensures
        ring.shrunk().valid(),
        ring.shrunk().unread == ring.unread,
        ring.shrunk().capacity <= ring.capacity,
        ring.shrunk().capacity != ring.capacity ==> {
            &&& ring.shrunk().capacity >= 2 * larger(
                ring.policy.peak_len as nat,
                ring.unread.len(),
            )
            &&& 4 * larger(ring.policy.peak_len as nat, ring.unread.len()) <= ring.capacity
        },
{
    lemma_ceil_pow2(
        larger(2 * larger(ring.policy.peak_len as nat, ring.unread.len()), ring.minimum),
    );
}

/// The policy after `checks` periodic checks that all see `len` unread bytes.
pub open spec fn after_checks(
    policy: ShrinkPolicy,
    checks: nat,
    len: nat,
    capacity: nat,
    minimum: nat,
) -> ShrinkPolicy
    decreases checks,
{
    if checks == 0 {
        policy
    } else {
        after_checks(policy, (checks - 1) as nat, len, capacity, minimum).checked(
            len,
            capacity,
            minimum,
        )
    }
}

/// Law: after a burst has passed, a ring that stays at no more than a quarter of its size
/// is kept for 9 checks while it is empty, or 31 while it is not, and the next check asks
/// for twice its use, or the minimum.
pub proof fn law_shrinking_waits_for_sustained_low_usage(
    len: nat,
    capacity: nat,
    minimum: nat,
    checks: nat,
)
    requires
        len <= usize::MAX,
        is_pow2(capacity),
        is_pow2(minimum),
        minimum < capacity,
        4 * len <= capacity,
        checks < if len == 0 {
            10
        } else {
            32nat
        },
    ensures
        ({
            let policy = after_checks(
                ShrinkPolicy::window(len),
                checks,
                len,
                capacity,
                minimum,
            );
            let last: nat = if len == 0 {
                9
            } else {
                31
            };
            &&& policy == ShrinkPolicy { peak_len: len as usize, low_usage_cycles: checks as u8 }
            &&& checks < last ==> policy.target_of(len, capacity, minimum) is None
            &&& checks == last ==> policy.target_of(len, capacity, minimum) == Some(
                ceil_pow2(larger(2 * len, minimum)),
            )
        }),
    decreases checks,
{
    if checks > 0 {
        law_shrinking_waits_for_sustained_low_usage(
            len,
            capacity,
            minimum,
            (checks - 1) as nat,
        );
    }
    lemma_pow2_gap(minimum, capacity);
    assert(is_pow2(capacity / 2));
    lemma_ceil_pow2(larger(2 * len, minimum));
}

/// Law: a peak above a quarter of the ring keeps it, and starts a fresh window.
pub proof fn law_recent_burst_keeps_the_ring(
    policy: ShrinkPolicy,
    len: nat,
    capacity: nat,
    minimum: nat,
)
    requires
        larger(policy.peak_len as nat, len) > capacity / 4,
    ensures
        policy.target_of(len, capacity, minimum) is None,
        policy.checked(len, capacity, minimum) == ShrinkPolicy::window(len),
{
}

/// Law: bytes that arrive stand behind those that wait and take up as much room; the ring
/// remembers the most that ever waited. A response that is taken out leaves the bytes behind
/// it, and its room stays taken.
pub proof fn law_arrivals_and_responses_take_room(ring: RxView, bytes: Seq<u8>, length: nat)
    requires
        ring.valid(),
        0 < length <= ring.unread.len(),
        ring.unread.len() + bytes.len() <= usize::MAX,
    ensures
        ({
            let after = ring.appended(bytes);
            &&& after.unread == ring.unread + bytes
            &&& after.available() == ring.available() - bytes.len()
            &&& after.capacity == ring.capacity
            &&& after.start == ring.start
            &&& after.held == ring.held
            &&& after.frames == ring.frames
            &&& after.round == ring.round
            &&& after.minimum == ring.minimum
            &&& after.maximum == ring.maximum
            &&& after.policy.low_usage_cycles == ring.policy.low_usage_cycles
            &&& after.policy.peak_len >= ring.policy.peak_len
            &&& bytes.len() > 0 ==> after.policy.peak_len >= after.unread.len()
            &&& after.policy.peak_len == ring.policy.peak_len || after.policy.peak_len
                == after.unread.len()
        }),
        ({
            let after = ring.taken(length);
            &&& ring.unread == ring.unread.take(length as int) + after.unread
            &&& after.available() == ring.available()
            &&& after.held == ring.held + length
            &&& after.frames == ring.frames + 1
            &&& after.capacity == ring.capacity
            &&& ring.start + length < ring.capacity ==> after.start == ring.start + length
            &&& ring.start + length >= ring.capacity ==> after.start == ring.start + length
                - ring.capacity
            &&& after.round == ring.round
            &&& after.minimum == ring.minimum
            &&& after.maximum == ring.maximum
            &&& after.policy == ring.policy
        }),
{
    assert(ring.unread =~= ring.unread.take(length as int) + ring.unread.skip(length as int));
}

/// Law: a ring for a new connection is empty, without storage and without claims on it, and
/// keeps its limits; its responses of before no longer concern it.
pub proof fn law_new_connections_start_empty(ring: RxView, minimum: nat, maximum: nat)
    ensures
        ring.forgotten().unread.len() == 0,
        ring.forgotten().capacity == 0,
        ring.forgotten().held == 0,
        ring.forgotten().frames == 0,
        ring.forgotten().minimum == ring.minimum,
        ring.forgotten().maximum == ring.maximum,
        ring.forgotten().round != ring.round,
        ring.forgotten().policy.peak_len == 0,
        ring.forgotten().policy.low_usage_cycles == 0,
        RxView::unused(minimum, maximum).unread.len() == 0,
        RxView::unused(minimum, maximum).capacity == 0,
        RxView::unused(minimum, maximum).held == 0,
        RxView::unused(minimum, maximum).frames == 0,
        RxView::unused(minimum, maximum).minimum == minimum,
        RxView::unused(minimum, maximum).maximum == maximum,
{
}

/// Law: the writable run behind the unread bytes is empty just when there is no room, never
/// longer than the room, and ends where the ring ends or the room does.
pub proof fn law_writable_runs_lie_in_one_piece(ring: RxView)
    requires
        ring.valid(),
        ring.capacity > 0,
    ensures
        0 <= ring.chunk_len() <= ring.available(),
        ring.chunk_len() == 0 <==> ring.available() == 0,
        ring.start + ring.unread.len() < ring.capacity ==> ring.start + ring.unread.len()
            + ring.chunk_len() <= ring.capacity,
        ring.available() > 0 && ring.start + ring.unread.len() < ring.capacity ==> ring.chunk_len()
            == ring.available() || ring.start + ring.unread.len() + ring.chunk_len()
            == ring.capacity,
        ring.available() > 0 && ring.start + ring.unread.len() >= ring.capacity
            ==> ring.chunk_len() == ring.available() || ring.start + ring.unread.len()
            + ring.chunk_len() == 2 * ring.capacity,
{
}

/// Law: looking for released responses, with however many handles, keeps the unread bytes, the
/// size and the limits. It gives back all the room that responses held, or none; and none
/// while there are no responses or another handle exists.
pub proof fn law_looking_keeps_the_unread_bytes(ring: RxView, handles: usize)
    requires
        ring.valid(),
    ensures
        ({
            let after = ring.collected_with(handles);
            &&& after.valid()
            &&& after.unread == ring.unread
            &&& after.capacity == ring.capacity
            &&& after.minimum == ring.minimum
            &&& after.maximum == ring.maximum
            &&& after.policy == ring.policy
            &&& ring.frames == 0 || handles > 1 ==> after == ring
            &&& ring.frames > 0 && handles <= 1 ==> {
                &&& after.held == 0
                &&& after.frames == 0
                &&& after.round != ring.round
                &&& ring.unread.len() > 0 ==> after.start == ring.start
                &&& ring.unread.len() == 0 ==> after.start == 0
            }
        }),
        forall|next: RxView| #[trigger]
            ring.may_collect(next) ==> next.valid() && next.unread == ring.unread && next.capacity
                == ring.capacity && next.maximum == ring.maximum && next.minimum == ring.minimum
                && next.available() >= ring.available(),
{
    assert forall|next: RxView| #[trigger] ring.may_collect(next) implies next.valid()
        && next.unread == ring.unread && next.capacity == ring.capacity && next.maximum
        == ring.maximum && next.minimum == ring.minimum && next.available()
        >= ring.available() by {}
}

/// Law: a ring grows to the smallest power of two that holds what it has to, and to no less
/// than its minimum; it keeps its size when there is room.
pub proof fn law_rings_grow_no_more_than_needed(ring: RxView, additional: nat)
    requires
        ring.valid(),
    ensures
        ({
            let after = ring.roomy(additional);
            let needed = larger(ring.unread.len() + additional, ring.minimum);
            &&& additional <= ring.capacity - ring.held - ring.unread.len() ==> after == ring
            &&& additional > ring.capacity - ring.held - ring.unread.len() ==> {
                &&& after.unread == ring.unread
                &&& after.held == 0
                &&& after.frames == 0
                &&& after.capacity >= ring.unread.len() + additional
                &&& after.capacity >= ring.minimum
                &&& after.capacity < 2 * needed
                &&& is_pow2(after.capacity)
                &&& after.minimum == ring.minimum
                &&& after.maximum == ring.maximum
            }
        }),
{
    let needed = larger(ring.unread.len() + additional, ring.minimum);
    let grown = ceil_pow2(needed);
    lemma_ceil_pow2(needed);
    if grown >= 2 * needed {
        assert(grown != 1);
        assert(is_pow2(grown / 2));
        assert(grown / 2 >= needed);
    }
}

/// Law: a ring is ready for a read with the storage it has while that has room or holds unread
/// bytes; without storage, or with storage that belongs to responses alone, it gets fresh
/// storage of the minimal size.
pub proof fn law_reads_find_storage(ring: RxView)
    requires
        ring.valid(),
    ensures
        ring.capacity > 0 && (ring.available() > 0 || ring.unread.len() > 0) ==> ring.readable()
            == ring,
        ring.capacity == 0 || (ring.available() == 0 && ring.unread.len() == 0) ==> {
            &&& ring.readable().capacity == ring.minimum
            &&& ring.readable().available() == ring.minimum
            &&& ring.readable().frames == 0
            &&& ring.readable().minimum == ring.minimum
            &&& ring.readable().maximum == ring.maximum
        },
{
}

/// Law: a full ring that may still grow has room once it is settled; settling and getting ready
/// for a read keep the unread bytes and the limits.
pub proof fn law_settled_rings_have_room(ring: RxView, next: RxView)
    requires
        ring.valid(),
        ring.unread.len() < ring.maximum,
        ring.may_settle(next) || ring.may_prepare(next),
    ensures
        next.valid(),
        next.unread == ring.unread,
        next.minimum == ring.minimum,
        next.maximum == ring.maximum,
        ring.may_settle(next) && next.capacity > 0 ==> next.available() > 0,
        ring.may_prepare(next) ==> next.capacity > 0,
{
    law_looking_keeps_the_unread_bytes(ring, 0);
    if ring.may_settle(next) {
        let settled = choose|settled: RxView|
            (#[trigger] ring.may_collect(settled)) && settled.may_relieve(next);
        if settled.capacity > 0 && settled.available() == 0 {
            law_reservation_makes_room(settled, 1, next);
            let looked = choose|looked: RxView|
                (#[trigger] settled.may_collect(looked)) && next == looked.roomy(1);
            law_looking_keeps_the_unread_bytes(settled, 0);
            law_rings_grow_no_more_than_needed(looked, 1);
        }
    }
    if ring.may_prepare(next) {
        let settled = choose|settled: RxView|
            (#[trigger] ring.may_collect(settled)) && next == settled.readable();
        law_reads_find_storage(settled);
    }
}

/// Law: one periodic check changes the size to what the policy asks for, and otherwise nothing
/// but the policy.
pub proof fn law_checks_follow_the_policy(ring: RxView)
    ensures
        match ring.policy.target_of(ring.unread.len(), ring.capacity, ring.minimum) {
            Some(target) => {
                &&& ring.shrunk().capacity == target
                &&& ring.shrunk().unread == ring.unread
                &&& ring.shrunk().policy.low_usage_cycles == 0
            },
            None => ring.shrunk() == (RxView { policy: ring.shrunk().policy, ..ring }),
        },
{
}

/// Law: a policy remembers the longest use that it sees, and forgets it with a new window.
pub proof fn law_policies_remember_the_peak(policy: ShrinkPolicy, len: nat)
    requires
        len <= usize::MAX,
    ensures
        policy.recorded(len).peak_len >= len,
        policy.recorded(len).peak_len >= policy.peak_len,
        policy.recorded(len).peak_len == len || policy.recorded(len).peak_len == policy.peak_len,
        policy.recorded(len).low_usage_cycles == policy.low_usage_cycles,
        ShrinkPolicy::window(len).peak_len == len,
        ShrinkPolicy::window(len).low_usage_cycles == 0,
        policy.low_usage_cycles < 255 ==> policy.next_cycles() == policy.low_usage_cycles + 1,
        policy.waited_enough(len) <==> policy.low_usage_cycles + 1 >= if len == 0 {
            10
        } else {
            32int
        },
{
}

/// Law: a CRLF pair is a carriage return with a line feed right behind it; a part of some bytes
/// is those from its start up to its end.
pub proof fn law_parts_of_bytes(bytes: Seq<u8>, start: int, end: int)
    requires
        0 <= start <= bytes.len(),
        0 <= end <= bytes.len(),
    ensures
        crlf_at(bytes, start) <==> start + 2 <= bytes.len() && bytes.subrange(start, start + 2)
            == seq![13u8, 10u8],
        start < end ==> span(bytes, start, end).len() == end - start,
        start >= end ==> span(bytes, start, end).len() == 0,
        forall|i: int|
            0 <= i < end - start ==> #[trigger] span(bytes, start, end)[i] == bytes[start + i],
{
    if start + 2 <= bytes.len() {
        let pair = bytes.subrange(start, start + 2);
        assert(pair[0] == bytes[start] && pair[1] == bytes[start + 1]);
        if crlf_at(bytes, start) {
            assert(pair =~= seq![13u8, 10u8]);
        }
        if pair == seq![13u8, 10u8] {
            assert(pair[0] == 13 && pair[1] == 10);
        }
    }
}

/// Responses and ring share one release marker, and the ring counts the handles to just that.
proof fn lemma_markers_are_shared(ring: RxBuffer, frame: RxFrame, handles: usize)
    ensures
        frame.guards(ring) <==> call_ensures(
            another_handle::<Releases>,
            (&ring.releases,),
            frame.releases,
        ),
        ring.may_count(handles) <==> call_ensures(
            handle_count::<Releases>,
            (&ring.releases,),
            handles,
        ),
        ring.may_count(handles) ==> may_find(ring@.round, handles) && handles >= 1,
        may_find(ring@.round, handles) ==> handles >= 1,
{
    if ring.may_count(handles) {
        assert(may_find(ring@.round, handles));
    }
}

/// Law: a response that is taken out is the first bytes that wait, in their order, and the bytes
/// behind it are the next to be read.
pub proof fn law_responses_are_the_first_bytes(
    before: RxBuffer,
    after: RxBuffer,
    length: usize,
    frame: RxFrame,
)
    requires
        before.wf(),
        0 < length <= before@.unread.len(),
        exists|buffer: &mut RxBuffer|
            *buffer == before && *final(buffer) == after && #[trigger] call_ensures(
                RxBuffer::take,
                (buffer, length),
                frame,
            ),
    ensures
        frame@.len() == length,
        before@.unread == frame@ + after@.unread,
        frame.guards(before),
        after@.held == before@.held + length,
        forall|handles: usize| handles > 1 ==> #[trigger] after@.collected_with(handles) == after@,
{
    assert(before@.unread =~= before@.unread.take(length as int) + before@.unread.skip(
        length as int,
    ));
}

/// Law: bytes that are appended are read behind all others; they are refused, all of them, just
/// when they would exceed the maximum together with those that wait.
pub proof fn law_appended_bytes_are_read_in_order(
    before: RxBuffer,
    after: RxBuffer,
    bytes: &[u8],
    appended: Result<(), RxCapacityError>,
)
    requires
        before.wf(),
        exists|buffer: &mut RxBuffer|
            *buffer == before && *final(buffer) == after && #[trigger] call_ensures(
                RxBuffer::extend_from_slice,
                (buffer, bytes),
                appended,
            ),
    ensures
        appended is Err <==> before@.unread.len() + bytes@.len() > before@.maximum,
        appended is Ok ==> after@.unread == before@.unread + bytes@,
        appended is Err ==> after@.unread == before@.unread && after@.capacity
            == before@.capacity && appended->Err_0.maximum == before@.maximum,
        appended is Err && before@.unread.len() + bytes@.len() <= usize::MAX
            ==> appended->Err_0.required == before@.unread.len() + bytes@.len(),
        after@.maximum == before@.maximum,
        after@.minimum == before@.minimum,
{
    before.law_ring_is_valid();
    law_looking_keeps_the_unread_bytes(before@, 0);
    if appended is Ok {
        let (roomy, settled) = choose|roomy: RxView, settled: RxView|
            #![trigger before@.may_reserve(bytes@.len(), roomy), settled.appended(bytes@)]
            {
                &&& before@.may_reserve(bytes@.len(), roomy)
                &&& if bytes@.len() > 0 {
                    roomy.may_collect(settled)
                } else {
                    settled == roomy
                }
                &&& after@ == settled.appended(bytes@)
            };
        law_reservation_makes_room(before@, bytes@.len(), roomy);
        let looked = choose|looked: RxView|
            (#[trigger] before@.may_collect(looked)) && roomy == looked.roomy(bytes@.len());
        law_rings_grow_no_more_than_needed(looked, bytes@.len());
        law_looking_keeps_the_unread_bytes(roomy, 0);
    }
}

/// Law: a check asks for a ring that is smaller, but not below the minimum nor below twice what
/// was in use, and for none while more than a quarter of the ring was in use.
pub proof fn law_checks_ask_for_less(
    before: ShrinkPolicy,
    after: ShrinkPolicy,
    len: usize,
    capacity: usize,
    minimum: usize,
    target: Option<usize>,
)
    requires
        minimum <= top_pow2(),
        exists|policy: &mut ShrinkPolicy|
            *policy == before && *final(policy) == after && #[trigger] call_ensures(
                ShrinkPolicy::target,
                (policy, len, capacity, minimum),
                target,
            ),
    ensures
        target matches Some(smaller) ==> {
            &&& minimum <= smaller < capacity
            &&& 2 * len <= smaller
            &&& 2 * before.peak_len <= smaller
            &&& is_pow2(smaller as nat)
        },
        before.peak_len > capacity / 4 || len > capacity / 4 || capacity <= minimum
            ==> target is None && after.peak_len == len && after.low_usage_cycles == 0,
{
    lemma_top_pow2();
    if target is Some {
        lemma_ceil_pow2(
            larger(2 * larger(before.peak_len as nat, len as nat), minimum as nat),
        );
    }
}

/// Law: periodic maintenance keeps the unread bytes. While no response is held it gives the
/// ring just the size that its check asks for, and leaves the size alone when it asks for none.
pub proof fn law_maintenance_follows_its_check(before: RxBuffer, after: RxBuffer)
    requires
        before.wf(),
        before@.frames == 0,
        exists|buffer: &mut RxBuffer|
            *buffer == before && *final(buffer) == after && #[trigger] call_ensures(
                RxBuffer::shrink,
                (buffer,),
                (),
            ),
    ensures
        after@.unread == before@.unread,
        after@.minimum == before@.minimum,
        after@.maximum == before@.maximum,
        match before@.policy.target_of(before@.unread.len(), before@.capacity, before@.minimum) {
            Some(target) => after@.capacity == target < before@.capacity,
            None => after@.capacity == before@.capacity,
        },
{
}

/// Law: a response becomes one contiguous piece just when it ends within its ring; its bytes
/// are the same either way.
pub proof fn law_contiguous_responses_end_within_the_ring(
    frame: RxFrame,
    owner: Result<ContiguousRxFrame, RxFrame>,
)
    requires
        call_ensures(RxFrame::into_contiguous, (frame,), owner),
    ensures
        owner is Ok <==> frame.place() + frame@.len() <= frame.ring_size(),
        owner matches Ok(piece) ==> piece@ == frame@,
        owner matches Err(same) ==> same@ == frame@,
{
}

} // verus!
