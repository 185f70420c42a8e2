//! Size of the process-wide storage for encoded request frames.
use crate::error::NetError;
use crate::text::number_text;
use vstd::prelude::*;

#[allow(unused_imports)]
use crate::text::digits_of;

verus! {

/// Default capacity of each of the two request arena chunks: 64 MiB.
pub const DEFAULT_REQUEST_ARENA_CHUNK_SIZE: usize = 67_108_864;

/// The message about a chunk size that cannot be used.
pub open spec fn chunk_size_message(chunk_size: usize) -> Seq<char> {
    "global request arena chunk size must be in 1..4294967295, got "@ + digits_of(chunk_size as nat)
}

/// Whether a chunk can have this size.
pub open spec fn usable_chunk_size(chunk_size: usize) -> bool {
    1 <= chunk_size < u32::MAX
}

/// The chunk size of the process-wide request arena, once it is fixed.
///
/// The arena is made by its first use and never resized.
pub struct RequestArenaConfig {
    chunk_size: Option<usize>,
}

impl View for RequestArenaConfig {
    type V = Option<usize>;

    closed spec fn view(&self) -> Option<usize> {
        self.chunk_size
    }
}

/// The chunk size after a use that asks for `chunk_size` unless one is fixed.
pub open spec fn fixed(config: Option<usize>, chunk_size: usize) -> usize {
    match config {
        Some(configured) => configured,
        None => chunk_size,
    }
}

impl RequestArenaConfig {
    /// No arena yet.
    pub fn new() -> (config: Self)
        ensures
            config@ is None,
    {
        RequestArenaConfig { chunk_size: None }
    }

    /// Fixes the chunk size during startup. Repeating the same value is allowed; another
    /// one is rejected.
    pub fn init(&mut self, chunk_size: usize) -> (configured: Result<usize, NetError>)
        ensures
            if !usable_chunk_size(chunk_size) {
                &&& final(self)@ == old(self)@
                &&& configured matches Err(error)
                &&& error.rejects(chunk_size_message(chunk_size))
            } else {
                &&& final(self)@ == Some(fixed(old(self)@, chunk_size))
                &&& if fixed(old(self)@, chunk_size) == chunk_size {
                    configured == Ok::<usize, NetError>(chunk_size)
                } else {
                    configured == Err::<usize, NetError>(
                        NetError::RequestArenaAlreadyInitialized {
                            configured: fixed(old(self)@, chunk_size),
                            requested: chunk_size,
                        },
                    )
                }
            },
    {
        if chunk_size == 0 || chunk_size >= 0xffff_ffff {
            let mut message = "global request arena chunk size must be in 1..4294967295, got ".to_owned();
            message.append(number_text(chunk_size).as_str());
            return Err(NetError::InvalidConfig(message));
        }
        let configured = self.get_or_init(chunk_size);
        if configured != chunk_size {
            return Err(
                NetError::RequestArenaAlreadyInitialized { configured, requested: chunk_size },
            );
        }
        Ok(configured)
    }

    /// The chunk size; the default one unless another is fixed.
    pub fn get(&mut self) -> (configured: usize)
        ensures
            configured == fixed(old(self)@, DEFAULT_REQUEST_ARENA_CHUNK_SIZE),
            final(self)@ == Some(configured),
    {
        self.get_or_init(DEFAULT_REQUEST_ARENA_CHUNK_SIZE)
    }

    fn get_or_init(&mut self, chunk_size: usize) -> (configured: usize)
        ensures
            configured == fixed(old(self)@, chunk_size),
            final(self)@ == Some(configured),
    {
        match self.chunk_size {
            Some(configured) => configured,
            None => {
                self.chunk_size = Some(chunk_size);
                chunk_size
            },
        }
    }
}

/// Law: once the chunk size is fixed, no later use changes it.
pub proof fn law_arenas_are_never_resized(config: Option<usize>, first: usize, second: usize)
    ensures
        fixed(Some(fixed(config, first)), second) == fixed(config, first),
{
}

/// Law: the first use fixes the chunk size, and any later one finds it; a size can be used when
/// it is not zero and below the largest 32-bit number.
pub proof fn law_the_first_use_fixes_the_size(chunk_size: usize, later: usize)
    ensures
        fixed(None, chunk_size) == chunk_size,
        fixed(Some(chunk_size), later) == chunk_size,
        usable_chunk_size(chunk_size) <==> chunk_size != 0 && chunk_size < 4_294_967_295,
{
}

/// Law: of two sizes that are asked for one after the other the first counts; the second is
/// accepted just when it is the same, and refused with both sizes otherwise.
pub proof fn law_another_size_is_refused(
    fresh: RequestArenaConfig,
    once: RequestArenaConfig,
    twice: RequestArenaConfig,
    first: usize,
    second: usize,
    one: Result<usize, NetError>,
    two: Result<usize, NetError>,
)
    requires
        call_ensures(RequestArenaConfig::new, (), fresh),
        1 <= first < u32::MAX,
        1 <= second < u32::MAX,
        exists|config: &mut RequestArenaConfig|
            *config == fresh && *final(config) == once && #[trigger] call_ensures(
                RequestArenaConfig::init,
                (config, first),
                one,
            ),
        exists|config: &mut RequestArenaConfig|
            *config == once && *final(config) == twice && #[trigger] call_ensures(
                RequestArenaConfig::init,
                (config, second),
                two,
            ),
    ensures
        one is Ok && one->Ok_0 == first,
        once@ == Some(first),
        twice@ == Some(first),
        second == first ==> two is Ok && two->Ok_0 == first,
        second != first ==> two is Err && two->Err_0 == (
        NetError::RequestArenaAlreadyInitialized { configured: first, requested: second }),
{
}

} // verus!
