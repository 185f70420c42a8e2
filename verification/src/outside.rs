//! Items of other crates, and of std, that the verified code relies on.
use crate::source::EndpointSnapshot;
use arc_swap::ArcSwap;
use std::sync::Arc;
use vstd::prelude::*;

#[allow(unused_imports)]
use crate::source::Endpoint;
#[allow(unused_imports)]
use crate::text::lowered;

verus! {

/// `std::task::Waker`, carried through unread.
#[verifier::external_type_specification]
#[verifier::external_body]
pub struct ExWaker(std::task::Waker);

/// `atomic_waker::AtomicWaker`, the cell that holds the waker of one waiting task.
#[verifier::external_type_specification]
#[verifier::external_body]
pub struct ExAtomicWaker(atomic_waker::AtomicWaker);

/// `AtomicWaker::new` makes a cell with no waker in it. The cell is opaque, so nothing
/// is stated of it.
pub assume_specification[ atomic_waker::AtomicWaker::new ]() -> atomic_waker::AtomicWaker;

/// `AtomicWaker::register` stores the waker that the next wake-up goes to. The cell is
/// opaque and shared, so nothing is stated of it.
pub assume_specification[ atomic_waker::AtomicWaker::register ](
    cell: &atomic_waker::AtomicWaker,
    waker: &std::task::Waker,
);

/// `AtomicWaker::wake` wakes the task whose waker was registered last, if any. The wake-up
/// happens outside this library, so nothing is stated of it.
pub assume_specification[ atomic_waker::AtomicWaker::wake ](cell: &atomic_waker::AtomicWaker);

/// `AtomicWaker::take` removes the waker that was registered last, if any. Which waker
/// comes out depends on who registered, so nothing is stated of it.
pub assume_specification[ atomic_waker::AtomicWaker::take ](
    cell: &atomic_waker::AtomicWaker,
) -> Option<std::task::Waker>;

/// `bytes::Bytes`, an immutable byte string.
#[verifier::external_type_specification]
#[verifier::external_body]
pub struct ExBytes(bytes::Bytes);

/// What a `bytes::Bytes` holds.
pub uninterp spec fn bytes_contents(bytes: bytes::Bytes) -> Seq<u8>;

/// `Bytes::from` of a byte vector: the byte string holds the vector's bytes, in order.
#[verifier::external_body]
pub(crate) fn bytes_from_vec(bytes: Vec<u8>) -> (string: bytes::Bytes)
    ensures
        bytes_contents(string) == bytes@,
{
    bytes::Bytes::from(bytes)
}

/// `Bytes::as_ref`: the bytes that the byte string holds, in order.
#[verifier::external_body]
pub(crate) fn bytes_slice(string: &bytes::Bytes) -> (bytes: &[u8])
    ensures
        bytes@ == bytes_contents(*string),
{
    string.as_ref()
}

/// `std::sync::Arc::strong_count`: how many handles to one shared value exist right now,
/// the one looked at among them. Handles come and go on other threads, so nothing more
/// is stated.
#[verifier::external_body]
pub(crate) fn handle_count<T>(shared: &std::sync::Arc<T>) -> (count: usize)
    ensures
        count >= 1,
{
    std::sync::Arc::strong_count(shared)
}

/// `std::sync::Arc::clone`: another handle to the same shared value.
#[verifier::external_body]
pub(crate) fn another_handle<T>(shared: &std::sync::Arc<T>) -> (handle: std::sync::Arc<T>)
    ensures
        handle == *shared,
{
    std::sync::Arc::clone(shared)
}

/// `std::io::Error`, carried through unread.
#[verifier::external_type_specification]
#[verifier::external_body]
pub struct ExIoError(std::io::Error);

/// `std::io::ErrorKind`, carried through unread.
#[verifier::external_type_specification]
#[verifier::external_body]
pub struct ExIoErrorKind(std::io::ErrorKind);

/// An `arc_swap::ArcSwap` that holds one endpoint snapshot. Only its owner stores into it.
#[verifier::external_body]
pub struct SnapshotCell {
    inner: ArcSwap<EndpointSnapshot>,
}

/// The endpoints of the snapshot that a cell holds.
pub uninterp spec fn cell_contents(cell: SnapshotCell) -> Seq<Endpoint>;

impl SnapshotCell {
    /// `ArcSwap::from_pointee`: a cell that holds `snapshot`.
    #[verifier::external_body]
    pub(crate) fn holding(snapshot: EndpointSnapshot) -> (cell: SnapshotCell)
        ensures
            cell_contents(cell) == snapshot@,
    {
        SnapshotCell { inner: ArcSwap::from_pointee(snapshot) }
    }

    /// `ArcSwap::load_full`: the snapshot that the cell was made with or that was stored
    /// last.
    #[verifier::external_body]
    pub(crate) fn load(&self) -> (snapshot: Arc<EndpointSnapshot>)
        ensures
            snapshot@ == cell_contents(*self),
    {
        self.inner.load_full()
    }

    /// `ArcSwap::store`: from now on the cell holds `snapshot`; what was loaded before
    /// stays as it is.
    #[verifier::external_body]
    pub(crate) fn store(&mut self, snapshot: EndpointSnapshot)
        ensures
            cell_contents(*final(self)) == snapshot@,
    {
        self.inner.store(Arc::new(snapshot))
    }
}

/// `str::to_ascii_lowercase`: the letters `A` to `Z` become `a` to `z`, every other
/// character stays.
#[verifier::external_body]
pub(crate) fn ascii_lowercase(text: &str) -> (lower: String)
    ensures
        lower@ == lowered(text@),
{
    text.to_ascii_lowercase()
}

/// `str::hash`: feeds `text` to a hasher. std fixes no hash algorithm, so what the hasher
/// holds afterwards is not stated.
#[verifier::external_body]
pub(crate) fn hash_text(text: &str, hasher: &mut std::collections::hash_map::DefaultHasher) {
    std::hash::Hash::hash(text, hasher)
}

/// `bytes::BytesMut`, a growable byte buffer.
#[verifier::external_type_specification]
#[verifier::external_body]
pub struct ExBytesMut(bytes::BytesMut);

/// What a `bytes::BytesMut` holds.
pub uninterp spec fn buffer_contents(buffer: bytes::BytesMut) -> Seq<u8>;

/// `BytesMut::new`: a buffer that holds nothing.
#[verifier::external_body]
pub(crate) fn empty_buffer() -> (buffer: bytes::BytesMut)
    ensures
        buffer_contents(buffer) == Seq::<u8>::empty(),
{
    bytes::BytesMut::new()
}

/// `BytesMut::len`: how many bytes the buffer holds.
#[verifier::external_body]
pub(crate) fn buffer_len(buffer: &bytes::BytesMut) -> (len: usize)
    ensures
        len == buffer_contents(*buffer).len(),
{
    buffer.len()
}

/// `Buf::advance` of a `BytesMut`: drops the first `count` bytes. It panics past the end
/// of the buffer.
#[verifier::external_body]
pub(crate) fn buffer_advance(buffer: &mut bytes::BytesMut, count: usize)
    requires
        count <= buffer_contents(*old(buffer)).len(),
    ensures
        buffer_contents(*final(buffer)) == buffer_contents(*old(buffer)).skip(count as int),
{
    bytes::Buf::advance(buffer, count)
}

/// `io::Error::from` of `ErrorKind::UnexpectedEof`. Errors are opaque, so the kind that
/// this one carries is not stated.
#[verifier::external_body]
pub(crate) fn unexpected_eof() -> std::io::Error {
    std::io::Error::from(std::io::ErrorKind::UnexpectedEof)
}

/// `io::Error::from` of `ErrorKind::WriteZero`. Errors are opaque, so the kind that this
/// one carries is not stated.
#[verifier::external_body]
pub(crate) fn write_zero() -> std::io::Error {
    std::io::Error::from(std::io::ErrorKind::WriteZero)
}

/// `io::Error::new` of `ErrorKind::InvalidData` with a message. Errors are opaque, so the
/// kind and the message that this one carries are not stated.
#[verifier::external_body]
pub(crate) fn invalid_data(message: String) -> std::io::Error {
    std::io::Error::new(std::io::ErrorKind::InvalidData, message)
}

/// `slice::swap`: two places of a list exchange what they hold. It panics when a place is
/// past the end.
#[verifier::external_body]
pub(crate) fn swap_places<T>(values: &mut Vec<T>, a: usize, b: usize)
    requires
        a < old(values)@.len(),
        b < old(values)@.len(),
    ensures
        final(values)@ == old(values)@.update(a as int, old(values)@[b as int]).update(
            b as int,
            old(values)@[a as int],
        ),
{
    values.swap(a, b)
}

/// `RandomState::new`: a hasher factory with a seed of its own. The seed is random, so
/// nothing is stated of it.
#[verifier::external_body]
pub(crate) fn random_state() -> std::collections::hash_map::RandomState {
    std::collections::hash_map::RandomState::new()
}

/// `BuildHasher::hash_one` of a number. The factory's seed is random, so nothing is stated
/// of the hash.
#[verifier::external_body]
pub(crate) fn hash_number(state: &std::collections::hash_map::RandomState, number: usize) -> u64 {
    std::hash::BuildHasher::hash_one(state, number)
}

/// `std::time::Instant`, a reading of the machine's monotonic clock.
#[verifier::external_type_specification]
#[verifier::external_body]
pub struct ExInstant(std::time::Instant);

/// `Instant::now` reads the clock. What it shows is up to the machine.
pub assume_specification[ std::time::Instant::now ]() -> std::time::Instant;

/// `Instant::elapsed`, in nanoseconds. How much time has passed is up to the machine.
#[verifier::external_body]
pub(crate) fn nanos_since(started: &std::time::Instant) -> u128 {
    started.elapsed().as_nanos()
}

} // verus!
