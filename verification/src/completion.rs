//! Fixed table of response slots shared by request handles and one connection.
use atomic_waker::AtomicWaker;
use std::marker::PhantomData;
use std::task::Waker;
use vstd::prelude::*;

verus! {

/// Number of response slots of one connection.
pub const MAX_IN_FLIGHT: usize = 256;

const WORD_BITS: usize = 64;

const FREE_WORDS: usize = 4;

/// Opaque per-connection request identifier.
///
/// The low eight bits select one of 256 response slots. The remaining bits are
/// a generation that keeps a late response from completing a reused slot.
#[derive(Clone, Copy, Debug, PartialEq, Eq, PartialOrd, Ord, Hash, Structural)]
pub struct RequestToken {
    pub raw: u64,
}

/// The slot that an identifier selects.
pub open spec fn slot_of(raw: u64) -> int {
    raw as int % 256
}

/// The slot generation that an identifier carries.
pub open spec fn generation_of(raw: u64) -> int {
    raw as int / 256
}

/// The identifier of `generation` of one slot: the generation keeps its low 56 bits.
pub open spec fn raw_of(generation: u64, index: int) -> int {
    (generation as int % 0x100_0000_0000_0000) * 256 + index
}

impl RequestToken {
    /// Wraps an identifier read from the wire.
    pub fn from_raw(raw: u64) -> (token: Self)
        ensures
            token.raw == raw,
    {
        RequestToken { raw }
    }

    /// The identifier as it goes on the wire.
    pub fn as_u64(self) -> (raw: u64)
        ensures
            raw == self.raw,
    {
        self.raw
    }

    /// The slot that this identifier selects.
    pub fn index(self) -> (index: usize)
        ensures
            index == slot_of(self.raw),
            index < MAX_IN_FLIGHT,
    {
        let raw = self.raw;
        assert(raw & 255 == raw % 256) by (bit_vector);
        (self.raw & 255) as usize
    }

    /// The slot generation that this identifier carries.
    pub fn generation(self) -> (generation: u64)
        ensures
            generation == generation_of(self.raw),
    {
        let raw = self.raw;
        assert(raw >> 8 == raw / 256) by (bit_vector);
        self.raw >> 8
    }

    fn issued(generation: u64, index: usize) -> (token: Self)
        requires
            index < MAX_IN_FLIGHT,
        ensures
            token.raw == raw_of(generation, index as int),
            slot_of(token.raw) == index,
            generation_of(token.raw) == generation as int % 0x100_0000_0000_0000,
    {
        let low = index as u64;
        assert((generation << 8) | low == (generation % 0x100_0000_0000_0000) * 256 + low)
            by (bit_vector)
            requires
                low < 256,
        ;
        RequestToken { raw: (generation << 8) | low }
    }
}

/// What one response slot holds.
pub enum SlotState<T> {
    /// Not reserved.
    Free,
    /// Reserved; neither side has finished.
    Waiting,
    /// The receiver has gone; the connection still owes a completion.
    Abandoned,
    /// The response is stored and the receiver has not taken it.
    Ready(T),
}

/// One slot as contracts see it.
pub struct SlotView<T> {
    pub generation: u64,
    pub state: SlotState<T>,
}

/// A completion table as contracts see it.
pub struct TableView<T> {
    pub slots: Seq<SlotView<T>>,
    pub cursor: usize,
}

/// The slot looked at `step` probes after a search that starts at free-word `start`.
pub open spec fn probe(start: int, step: int) -> int {
    ((start + step / 64) % 4) * 64 + step % 64
}

/// Number of slots among the first `n` that are reserved.
pub open spec fn occupied<T>(slots: Seq<SlotView<T>>, n: int) -> nat
    decreases n,
{
    if n <= 0 {
        0
    } else {
        occupied(slots, n - 1) + if slots[n - 1].state is Free {
            0nat
        } else {
            1nat
        }
    }
}

impl<T> TableView<T> {
    /// A table that has never been used.
    pub open spec fn fresh() -> Self {
        TableView {
            slots: Seq::new(256, |i: int| SlotView { generation: 0, state: SlotState::Free }),
            cursor: 0,
        }
    }

    /// The slot that `token` selects, if it still belongs to the token's generation.
    pub open spec fn current(self, token: RequestToken) -> bool {
        self.slots[slot_of(token.raw)].generation == generation_of(token.raw)
    }

    /// Contents of the slot that `token` selects.
    pub open spec fn state(self, token: RequestToken) -> SlotState<T> {
        self.slots[slot_of(token.raw)].state
    }

    /// The table with the contents of one slot replaced.
    pub open spec fn with_state(self, index: int, state: SlotState<T>) -> Self {
        TableView {
            slots: self.slots.update(
                index,
                SlotView { generation: self.slots[index].generation, state },
            ),
            cursor: self.cursor,
        }
    }

    /// Whether the connection still owes a completion for `token`.
    pub open spec fn owed(self, token: RequestToken) -> bool {
        &&& self.current(token)
        &&& (self.state(token) is Waiting || self.state(token) is Abandoned)
    }

    /// Number of reserved slots.
    pub open spec fn active(self) -> nat {
        occupied(self.slots, 256)
    }

    /// Whether slot `index` is the first free one in search order.
    pub open spec fn next_free(self, index: int) -> bool {
        exists|step: int|
            #![trigger probe(self.cursor as int % 4, step)]
            {
                &&& 0 <= step < 256
                &&& index == probe(self.cursor as int % 4, step)
                &&& self.slots[index].state is Free
                &&& forall|earlier: int|
                    0 <= earlier < step ==> !(self.slots[#[trigger] probe(
                        self.cursor as int % 4,
                        earlier,
                    )].state is Free)
            }
    }

    /// The table after a search, whatever it found.
    pub open spec fn searched(self) -> Self {
        TableView {
            slots: self.slots,
            cursor: if self.cursor == usize::MAX {
                0
            } else {
                (self.cursor + 1) as usize
            },
        }
    }

    /// The generation of slot `index` after it is reserved once more.
    pub open spec fn next_generation(self, index: int) -> u64 {
        if self.slots[index].generation == u64::MAX {
            0
        } else {
            (self.slots[index].generation + 1) as u64
        }
    }

    /// The table after slot `index` is reserved.
    pub open spec fn reserved(self, index: int) -> Self {
        TableView {
            slots: self.slots.update(
                index,
                SlotView { generation: self.next_generation(index), state: SlotState::Waiting },
            ),
            cursor: self.searched().cursor,
        }
    }

    /// The table after the connection reports `value` for `token`.
    pub open spec fn completed(self, token: RequestToken, value: T) -> Self {
        if !self.current(token) {
            self
        } else {
            match self.state(token) {
                SlotState::Waiting => self.with_state(slot_of(token.raw), SlotState::Ready(value)),
                SlotState::Abandoned => self.with_state(slot_of(token.raw), SlotState::Free),
                _ => self,
            }
        }
    }

    /// The table after the receiver of `token` asks for its response.
    pub open spec fn received(self, token: RequestToken) -> Self {
        if self.state(token) is Ready {
            self.with_state(slot_of(token.raw), SlotState::Free)
        } else {
            self
        }
    }

    /// What the receiver of `token` gets when it asks.
    pub open spec fn response(self, token: RequestToken) -> Option<T> {
        match self.state(token) {
            SlotState::Ready(value) => Some(value),
            _ => None,
        }
    }

    /// The table after the receiver of `token` goes away.
    pub open spec fn receiver_gone(self, token: RequestToken) -> Self {
        if !self.current(token) {
            self
        } else {
            match self.state(token) {
                SlotState::Waiting => self.with_state(slot_of(token.raw), SlotState::Abandoned),
                SlotState::Ready(_) => self.with_state(slot_of(token.raw), SlotState::Free),
                _ => self,
            }
        }
    }
}

/// Whether bit `bit` of a free-word is set.
spec fn bit_set(word: u64, bit: int) -> bool {
    (word >> (bit as u64)) & 1 == 1
}

/// Whether the bitmap names slot `index` as free.
spec fn marked_free(free: Seq<u64>, index: int) -> bool {
    bit_set(free[index / 64], index % 64)
}

/// Handle of one awaited response.
pub struct ResponseFuture<T> {
    token: RequestToken,
    completed: bool,
    output: PhantomData<T>,
}

impl<T> ResponseFuture<T> {
    /// Whether the response of `token` is still to be taken through this handle.
    pub open spec fn awaits(&self, token: RequestToken) -> bool {
        self.token() == token && !self.finished()
    }

    /// The identifier of the awaited request.
    pub closed spec fn token(&self) -> RequestToken {
        self.token
    }

    /// Whether the response has been taken.
    pub closed spec fn finished(&self) -> bool {
        self.completed
    }

    /// The identifier of the awaited request.
    pub fn request_token(&self) -> (token: RequestToken)
        ensures
            token == self.token(),
    {
        self.token
    }

    /// Registers `waker` for the wake-up, then takes the response if it has arrived.
    pub fn poll(&mut self, table: &mut CompletionTable<T>, waker: &Waker) -> (response: Option<T>)
        requires
            !old(self).finished(),
            old(table).wf(),
            old(table)@.current(old(self).token()),
        ensures
            final(table).wf(),
            final(self).token() == old(self).token(),
            response == old(table)@.response(old(self).token()),
            final(self).finished() == (response is Some),
            final(table)@ == old(table)@.received(old(self).token()),
            final(table).listens(old(self).token(), *waker),
            call_ensures(
                AtomicWaker::register,
                (&final(table).wakers()[slot_of(old(self).token().raw)], waker),
                (),
            ),
    {
        table.slots[self.token.index()].waker.register(waker);
        assert(table.listens(self.token, *waker));
        let response = table.receive(self.token);
        if response.is_some() {
            self.completed = true;
        }
        response
    }

    /// Gives back a reservation that was never handed to the connection.
    pub fn abort(self, table: &mut CompletionTable<T>)
        requires
            !self.finished(),
            old(table).wf(),
            old(table)@.state(self.token()) is Waiting,
        ensures
            final(table).wf(),
            final(table)@ == old(table)@.with_state(slot_of(self.token().raw), SlotState::Free),
    {
        table.abort(self.token);
    }

    /// Stops waiting. A response that has been taken needs nothing more.
    pub fn cancel(self, table: &mut CompletionTable<T>)
        requires
            old(table).wf(),
        ensures
            final(table).wf(),
            final(table)@ == if self.finished() {
                old(table)@
            } else {
                old(table)@.receiver_gone(self.token())
            },
    {
        if !self.completed {
            table.receiver_dropped(self.token);
        }
    }
}

struct ResponseSlot<T> {
    generation: u64,
    state: SlotState<T>,
    waker: AtomicWaker,
}

/// The response slots of one connection.
///
/// A bitmap of four words records which slots are free; a cursor spreads
/// reservations over the words.
pub struct CompletionTable<T> {
    slots: Vec<ResponseSlot<T>>,
    free: [u64; 4],
    cursor: usize,
    active: usize,
}

impl<T> View for CompletionTable<T> {
    type V = TableView<T>;

    closed spec fn view(&self) -> TableView<T> {
        TableView {
            slots: Seq::new(
                self.slots@.len(),
                |i: int|
                    SlotView {
                        generation: self.slots@[i].generation,
                        state: self.slots@[i].state,
                    },
            ),
            cursor: self.cursor,
        }
    }
}

impl<T> CompletionTable<T> {
    /// The bitmap names exactly the free slots and the counter counts the others.
    pub closed spec fn wf(&self) -> bool {
        &&& self.slots@.len() == 256
        &&& forall|i: int|
            0 <= i < 256 ==> (#[trigger] self.slots@[i].state is Free <==> marked_free(
                self.free@,
                i,
            ))
        &&& self.active == self@.active()
    }

    /// The cells through which waiting tasks are woken, one for each slot.
    pub closed spec fn wakers(&self) -> Seq<AtomicWaker> {
        self.slots@.map_values(|slot: ResponseSlot<T>| slot.waker)
    }

    /// Whether the slot of `token` was given the waker that the next wake-up goes to.
    pub open spec fn listens(&self, token: RequestToken, waker: Waker) -> bool {
        call_ensures(AtomicWaker::register, (&self.wakers()[slot_of(token.raw)], &waker), ())
    }

    /// Whether the task that waits for `token` was woken.
    pub open spec fn woken(&self, token: RequestToken) -> bool {
        call_ensures(AtomicWaker::wake, (&self.wakers()[slot_of(token.raw)],), ())
    }

    /// Whether the slot of `token` was made to let go of the waker that it held.
    pub open spec fn unhooked(&self, token: RequestToken) -> bool {
        exists|waker: Option<Waker>| #[trigger]
            call_ensures(AtomicWaker::take, (&self.wakers()[slot_of(token.raw)],), waker)
    }

    /// A table has one slot for each request that may be in flight.
    pub proof fn lemma_slots(&self)
        requires
            self.wf(),
        ensures
            self@.slots.len() == 256,
    {
    }

    /// A table with every slot free.
    pub fn new() -> (table: Self)
        ensures
            table.wf(),
            table@ == TableView::<T>::fresh(),
    {
        let mut slots: Vec<ResponseSlot<T>> = Vec::new();
        while slots.len() < MAX_IN_FLIGHT
            invariant
                slots@.len() <= 256,
                forall|i: int|
                    0 <= i < slots@.len() ==> (#[trigger] slots@[i]).generation == 0
                        && slots@[i].state is Free,
            decreases 256 - slots@.len(),
        {
            slots.push(
                ResponseSlot { generation: 0, state: SlotState::Free, waker: AtomicWaker::new() },
            );
        }
        let table = CompletionTable {
            slots,
            free: [u64::MAX, u64::MAX, u64::MAX, u64::MAX],
            cursor: 0,
            active: 0,
        };
        proof {
            assert(table@.slots =~= TableView::<T>::fresh().slots);
            assert forall|i: int| 0 <= i < 256 implies (#[trigger] table.slots@[i].state is Free
                <==> marked_free(table.free@, i)) by {
                let b = (i % 64) as u64;
                assert(table.free@[i / 64] == u64::MAX);
                assert(b < 64 ==> (u64::MAX >> b) & 1 == 1) by (bit_vector);
            }
            lemma_none_occupied(table@.slots, 256);
        }
        table
    }

    fn claim(&mut self, index: usize) -> (reservation: (RequestToken, ResponseFuture<T>))
        requires
            old(self).wf(),
            index < 256,
            old(self)@.slots[index as int].state is Free,
        ensures
            final(self).wf(),
            slot_of(reservation.0.raw) == index,
            reservation.0.raw == raw_of(old(self)@.next_generation(index as int), index as int),
            reservation.1.awaits(reservation.0),
            final(self)@.slots == old(self)@.slots.update(
                index as int,
                SlotView {
                    generation: old(self)@.next_generation(index as int),
                    state: SlotState::Waiting,
                },
            ),
            final(self)@.cursor == old(self)@.cursor,
    {
        let ghost before = self@.slots;
        proof {
            lemma_occupied_bounds(before, 256);
            assert(before[index as int].state is Free);
        }
        let generation = self.slots[index].generation.wrapping_add(1);
        let token = RequestToken::issued(generation, index);
        self.slots[index].generation = generation;
        self.slots[index].state = SlotState::Waiting;
        let word = index / WORD_BITS;
        let bit = (index % WORD_BITS) as u64;
        self.free[word] = self.free[word] & !(1u64 << bit);
        self.active = self.active + 1;
        proof {
            let slot = SlotView { generation, state: SlotState::<T>::Waiting };
            assert(self@.slots =~= before.update(index as int, slot));
            lemma_occupied_update(before, index as int, slot, 256);
            assert forall|i: int| 0 <= i < 256 implies (#[trigger] self.slots@[i].state is Free
                <==> marked_free(self.free@, i)) by {
                lemma_clear_bit(old(self).free@[i / 64], bit, (i % 64) as u64);
                assert(old(self).slots@[i].state is Free <==> marked_free(old(self).free@, i));
            }
        }
        (token, ResponseFuture { token, completed: false, output: PhantomData })
    }

    /// Reserves the first free slot in search order; `None` when every slot is taken.
    ///
    /// The slot's generation advances, so the identifier differs from every one
    /// issued for that slot in the last 2^56 reservations.
    #[verifier::spinoff_prover]
    #[verifier::rlimit(40)]
    pub fn reserve(&mut self) -> (reservation: Option<(RequestToken, ResponseFuture<T>)>)
        requires
            old(self).wf(),
        ensures
            final(self).wf(),
            match reservation {
                Some((token, future)) => {
                    let index = slot_of(token.raw);
                    &&& old(self)@.next_free(index)
                    &&& token.raw == raw_of(old(self)@.next_generation(index), index)
                    &&& future.awaits(token)
                    &&& final(self)@ == old(self)@.reserved(index)
                },
                None => {
                    &&& old(self)@.active() == 256
                    &&& final(self)@ == old(self)@.searched()
                },
            },
    {
        let start = self.cursor % FREE_WORDS;
        let ghost initial = self@;
        self.cursor = self.cursor.wrapping_add(1);
        let mut offset: usize = 0;
        while offset < FREE_WORDS
            invariant
                start < 4,
                start == initial.cursor % 4,
                offset <= 4,
                self.slots@.len() == 256,
                self@.slots == initial.slots,
                self@.cursor == initial.searched().cursor,
                self.wf(),
                forall|step: int|
                    0 <= step < offset * 64 ==> !(initial.slots[#[trigger] probe(
                        start as int,
                        step,
                    )].state is Free),
                *self == (CompletionTable { cursor: self.cursor, ..*old(self) }),
                initial == old(self)@,
            decreases 4 - offset,
        {
            let word_index = (start + offset) % FREE_WORDS;
            let word = self.free[word_index];
            if word != 0 {
                let bit = word.trailing_zeros() as usize;
                proof {
                    vstd::std_specs::bits::axiom_u64_trailing_zeros(word);
                }
                let index = word_index * WORD_BITS + bit;
                proof {
                    let found = offset * 64 + bit;
                    assert(probe(start as int, found) == index);
                    assert(marked_free(self.free@, index as int));
                    assert(initial.slots[index as int].state == self.slots@[index as int].state);
                    assert forall|step: int| 0 <= step < found implies !(
                    initial.slots[#[trigger] probe(start as int, step)].state is Free) by {
                        if step >= offset * 64 {
                            let b = (step % 64) as u64;
                            assert((word >> b) & 1u64 == 0u64);
                            let passed = probe(start as int, step);
                            assert(!marked_free(self.free@, passed));
                            assert(initial.slots[passed].state == self.slots@[passed].state);
                        }
                    }
                    assert(initial.next_free(index as int));
                }
                let reservation = self.claim(index);
                assert(self@.slots =~= initial.reserved(index as int).slots);
                return Some(reservation);
            }
            proof {
                assert forall|step: int| 0 <= step < (offset + 1) * 64 implies !(
                initial.slots[#[trigger] probe(start as int, step)].state is Free) by {
                    if step >= offset * 64 {
                        let b = (step % 64) as u64;
                        assert(word == 0 ==> (word >> b) & 1 != 1) by (bit_vector);
                        let index = probe(start as int, step);
                        assert(initial.slots[index].state == self.slots@[index].state);
                        assert(marked_free(self.free@, index) <==> self.slots@[index].state is Free);
                    }
                }
            }
            offset = offset + 1;
        }
        proof {
            assert forall|index: int| 0 <= index < 256 implies !(
            #[trigger] initial.slots[index].state is Free) by {
                let step = ((index / 64 - start as int + 4) % 4) * 64 + index % 64;
                assert(probe(start as int, step) == index);
            }
            lemma_occupied_bounds(initial.slots, 256);
        }
        None
    }

    /// Frees a reserved slot and returns what it held.
    fn release(&mut self, index: usize) -> (held: SlotState<T>)
        requires
            old(self).wf(),
            index < 256,
            !(old(self)@.slots[index as int].state is Free),
        ensures
            final(self).wf(),
            held == old(self)@.slots[index as int].state,
            final(self)@ == old(self)@.with_state(index as int, SlotState::Free),
            final(self).wakers() == old(self).wakers(),
            forall|token: RequestToken|
                slot_of(token.raw) == index ==> #[trigger] final(self).unhooked(token),
    {
        let ghost before = self@.slots;
        proof {
            lemma_occupied_bounds(before, 256);
            assert(!(before[index as int].state is Free));
        }
        let waker = self.slots[index].waker.take();
        assert(call_ensures(AtomicWaker::take, (&old(self).wakers()[index as int],), waker));
        let mut held: SlotState<T> = SlotState::Free;
        std::mem::swap(&mut self.slots[index].state, &mut held);
        self.active = self.active - 1;
        let word = index / WORD_BITS;
        let bit = (index % WORD_BITS) as u64;
        self.free[word] = self.free[word] | (1u64 << bit);
        assert(self.wakers() =~= old(self).wakers());
        proof {
            let slot = SlotView {
                generation: before[index as int].generation,
                state: SlotState::<T>::Free,
            };
            assert(self@.slots =~= before.update(index as int, slot));
            lemma_occupied_update(before, index as int, slot, 256);
            assert forall|i: int| 0 <= i < 256 implies (#[trigger] self.slots@[i].state is Free
                <==> marked_free(self.free@, i)) by {
                lemma_set_bit(old(self).free@[i / 64], bit, (i % 64) as u64);
                assert(old(self).slots@[i].state is Free <==> marked_free(old(self).free@, i));
            }
        }
        held
    }

    /// Gives back a reservation that was never handed to the connection.
    pub fn abort(&mut self, token: RequestToken)
        requires
            old(self).wf(),
            old(self)@.state(token) is Waiting,
        ensures
            final(self).wf(),
            final(self)@ == old(self)@.with_state(slot_of(token.raw), SlotState::Free),
            final(self).unhooked(token),
    {
        let _ = self.release(token.index());
    }

    /// Completes one request. Returns `false`, changing nothing, for a stale or
    /// duplicate response.
    pub fn complete(&mut self, token: RequestToken, value: T) -> (accepted: bool)
        requires
            old(self).wf(),
        ensures
            final(self).wf(),
            accepted == old(self)@.owed(token),
            final(self)@ == old(self)@.completed(token, value),
            accepted && old(self)@.state(token) is Waiting ==> final(self).woken(token),
            accepted && old(self)@.state(token) is Waiting ==> call_ensures(
                AtomicWaker::wake,
                (&final(self).wakers()[slot_of(token.raw)],),
                (),
            ),
            accepted && old(self)@.state(token) is Abandoned ==> final(self).unhooked(token),
    {
        let index = token.index();
        if self.slots[index].generation != token.generation() {
            return false;
        }
        let abandoned = match &self.slots[index].state {
            SlotState::Waiting => false,
            SlotState::Abandoned => true,
            _ => {
                return false;
            },
        };
        if abandoned {
            let _ = self.release(index);
        } else {
            let ghost before = self@.slots;
            self.slots[index].state = SlotState::Ready(value);
            self.slots[index].waker.wake();
            assert(self.woken(token));
            proof {
                let slot = SlotView {
                    generation: before[index as int].generation,
                    state: SlotState::Ready(value),
                };
                assert(self@.slots =~= before.update(index as int, slot));
                lemma_occupied_update(before, index as int, slot, 256);
                assert forall|i: int| 0 <= i < 256 implies (#[trigger] self.slots@[i].state is Free
                    <==> marked_free(self.free@, i)) by {
                    assert(old(self).slots@[i].state is Free <==> marked_free(old(self).free@, i));
                }
            }
        }
        true
    }

    /// Whether the connection still owes a completion for `token`.
    pub fn is_driver_pending(&self, token: RequestToken) -> (pending: bool)
        requires
            self.wf(),
        ensures
            pending == self@.owed(token),
    {
        let index = token.index();
        self.slots[index].generation == token.generation() && match &self.slots[index].state {
            SlotState::Waiting => true,
            SlotState::Abandoned => true,
            _ => false,
        }
    }

    /// Number of reserved slots.
    pub fn active(&self) -> (count: usize)
        requires
            self.wf(),
        ensures
            count == self@.active(),
            count <= MAX_IN_FLIGHT,
    {
        proof {
            lemma_occupied_bounds(self@.slots, 256);
        }
        self.active
    }

    /// Takes the response of `token` if it has arrived, and frees its slot.
    pub fn receive(&mut self, token: RequestToken) -> (response: Option<T>)
        requires
            old(self).wf(),
            old(self)@.current(token),
        ensures
            final(self).wf(),
            response == old(self)@.response(token),
            final(self)@ == old(self)@.received(token),
            final(self).wakers() == old(self).wakers(),
            response is Some ==> final(self).unhooked(token),
    {
        let index = token.index();
        let arrived = match &self.slots[index].state {
            SlotState::Ready(_) => true,
            _ => false,
        };
        if !arrived {
            return None;
        }
        match self.release(index) {
            SlotState::Ready(value) => Some(value),
            _ => None,
        }
    }

    /// Records that nobody waits for `token` any more.
    pub fn receiver_dropped(&mut self, token: RequestToken)
        requires
            old(self).wf(),
        ensures
            final(self).wf(),
            final(self)@ == old(self)@.receiver_gone(token),
            old(self)@.current(token) && old(self)@.state(token) is Ready ==> final(self).unhooked(
                token,
            ),
    {
        let index = token.index();
        if self.slots[index].generation != token.generation() {
            return;
        }
        let arrived = match &self.slots[index].state {
            SlotState::Waiting => false,
            SlotState::Ready(_) => true,
            _ => {
                return;
            },
        };
        if arrived {
            let _ = self.release(index);
        } else {
            let ghost before = self@.slots;
            self.slots[index].state = SlotState::Abandoned;
            proof {
                let slot = SlotView {
                    generation: before[index as int].generation,
                    state: SlotState::<T>::Abandoned,
                };
                assert(self@.slots =~= before.update(index as int, slot));
                lemma_occupied_update(before, index as int, slot, 256);
                assert forall|i: int| 0 <= i < 256 implies (#[trigger] self.slots@[i].state is Free
                    <==> marked_free(self.free@, i)) by {
                    assert(old(self).slots@[i].state is Free <==> marked_free(old(self).free@, i));
                }
            }
        }
    }
}

proof fn lemma_clear_bit(word: u64, bit: u64, other: u64)
    requires
        bit < 64,
        other < 64,
    ensures
        bit_set(word & !(1u64 << bit), other as int) == (other != bit && bit_set(
            word,
            other as int,
        )),
{
    assert(((word & !(1u64 << bit)) >> other) & 1 == 1 <==> (other != bit && (word >> other) & 1
        == 1)) by (bit_vector)
        requires
            bit < 64,
            other < 64,
    ;
}

proof fn lemma_set_bit(word: u64, bit: u64, other: u64)
    requires
        bit < 64,
        other < 64,
    ensures
        bit_set(word | (1u64 << bit), other as int) == (other == bit || bit_set(
            word,
            other as int,
        )),
{
    assert(((word | (1u64 << bit)) >> other) & 1 == 1 <==> (other == bit || (word >> other) & 1
        == 1)) by (bit_vector)
        requires
            bit < 64,
            other < 64,
    ;
}

proof fn lemma_none_occupied<T>(slots: Seq<SlotView<T>>, n: int)
    requires
        forall|i: int| 0 <= i < n ==> #[trigger] slots[i].state is Free,
    ensures
        occupied(slots, n) == 0,
    decreases n,
{
    if n > 0 {
        lemma_none_occupied(slots, n - 1);
    }
}

/// Replacing one slot moves the count of reserved slots by that slot alone.
proof fn lemma_occupied_update<T>(slots: Seq<SlotView<T>>, index: int, slot: SlotView<T>, n: int)
    requires
        0 <= index < slots.len(),
        n <= slots.len(),
    ensures
        occupied(slots.update(index, slot), n) == occupied(slots, n) + if index < n {
            (if slot.state is Free {
                0int
            } else {
                1
            }) - (if slots[index].state is Free {
                0int
            } else {
                1
            })
        } else {
            0
        },
    decreases n,
{
    if n > 0 {
        lemma_occupied_update(slots, index, slot, n - 1);
    }
}

proof fn lemma_occupied_bounds<T>(slots: Seq<SlotView<T>>, n: int)
    requires
        0 <= n <= slots.len(),
    ensures
        occupied(slots, n) <= n,
        occupied(slots, n) == n <==> (forall|i: int|
            0 <= i < n ==> !(#[trigger] slots[i].state is Free)),
        forall|i: int|
            0 <= i < n && !(#[trigger] slots[i].state is Free) ==> occupied(slots, n) >= 1,
    decreases n,
{
    if n > 0 {
        lemma_occupied_bounds(slots, n - 1);
        if occupied(slots, n) == n {
            assert forall|i: int| 0 <= i < n implies !(#[trigger] slots[i].state is Free) by {}
        }
    }
}

/// A reservation of a free slot adds one to the slots in use.
pub proof fn lemma_reserving_counts<T>(table: TableView<T>, index: int)
    requires
        table.slots.len() == 256,
        0 <= index < 256,
        table.slots[index].state is Free,
    ensures
        table.reserved(index).active() == table.active() + 1,
{
    lemma_occupied_update(
        table.slots,
        index,
        SlotView { generation: table.next_generation(index), state: SlotState::Waiting },
        256,
    );
}

/// Law: once a slot has been reserved again, up to 2^56 times, a response to the request
/// that held it before completes nothing.
pub proof fn law_late_response_is_ignored<T>(
    table: TableView<T>,
    index: int,
    generation: u64,
    reservations: int,
    earlier: RequestToken,
    value: T,
)
    requires
        table.slots.len() == 256,
        0 <= index < 256,
        0 < reservations < 0x100_0000_0000_0000,
        table.slots[index].generation == (generation + reservations) % 0x1_0000_0000_0000_0000,
        earlier.raw == raw_of(generation, index),
    ensures
        !table.owed(earlier),
        table.completed(earlier, value) == table,
{
    assert(slot_of(earlier.raw) == index);
    assert(generation_of(earlier.raw) == generation as int % 0x100_0000_0000_0000);
}

/// Law: a freshly issued identifier can be completed, until its slot has been
/// reserved 2^56 times.
pub proof fn law_fresh_token_is_owed<T>(table: TableView<T>, index: int, token: RequestToken)
    requires
        table.slots.len() == 256,
        0 <= index < 256,
        token.raw == raw_of(table.next_generation(index), index),
        table.next_generation(index) < 0x100_0000_0000_0000,
    ensures
        table.reserved(index).owed(token),
        table.reserved(index).state(token) is Waiting,
{
    assert(slot_of(token.raw) == index);
}

/// Law: the value that completes a waiting request is the one its receiver takes,
/// and taking it frees the slot.
pub proof fn law_response_reaches_its_receiver<T>(
    table: TableView<T>,
    token: RequestToken,
    value: T,
)
    requires
        table.slots.len() == 256,
        table.current(token),
        table.state(token) is Waiting,
    ensures
        table.completed(token, value).response(token) == Some(value),
        table.completed(token, value).received(token) == table.with_state(
            slot_of(token.raw),
            SlotState::Free,
        ),
        table.completed(token, value).received(token).active() + 1 == table.active(),
{
    let index = slot_of(token.raw);
    let freed = table.with_state(index, SlotState::Free);
    assert(table.completed(token, value).received(token).slots =~= freed.slots);
    lemma_occupied_update(table.slots, index, freed.slots[index], 256);
}

/// Law: a second completion of the same request changes nothing.
pub proof fn law_first_completion_wins<T>(
    table: TableView<T>,
    token: RequestToken,
    first: T,
    second: T,
)
    requires
        table.slots.len() == 256,
        table.owed(token),
    ensures
        !table.completed(token, first).owed(token),
        table.completed(token, first).completed(token, second) == table.completed(token, first),
{
}

/// Law: a request whose receiver went away and whose connection has answered ends
/// with its slot free, in whichever order the two happen.
pub proof fn law_abandoned_slot_is_freed<T>(table: TableView<T>, token: RequestToken, value: T)
    requires
        table.slots.len() == 256,
        table.current(token),
        table.state(token) is Waiting,
    ensures
        table.receiver_gone(token).active() == table.active(),
        table.receiver_gone(token).owed(token),
        table.receiver_gone(token).completed(token, value) == table.with_state(
            slot_of(token.raw),
            SlotState::Free,
        ),
        table.completed(token, value).receiver_gone(token) == table.with_state(
            slot_of(token.raw),
            SlotState::Free,
        ),
        table.receiver_gone(token).completed(token, value).active() + 1 == table.active(),
{
    let index = slot_of(token.raw);
    let gone = table.receiver_gone(token);
    let freed = table.with_state(index, SlotState::Free);
    assert(gone.completed(token, value).slots =~= freed.slots);
    assert(table.completed(token, value).receiver_gone(token).slots =~= freed.slots);
    lemma_occupied_update(table.slots, index, gone.slots[index], 256);
    lemma_occupied_update(table.slots, index, freed.slots[index], 256);
}

/// Law: at most 256 requests are in flight, and a reservation finds a slot exactly
/// when fewer are.
pub proof fn law_capacity_is_strictly_bounded<T>(table: TableView<T>)
    requires
        table.slots.len() == 256,
    ensures
        table.active() <= 256,
        table.active() < 256 <==> exists|index: int| table.next_free(index),
{
    lemma_occupied_bounds(table.slots, 256);
    let start = table.cursor as int % 4;
    if table.active() < 256 {
        let some = choose|i: int| 0 <= i < 256 && #[trigger] table.slots[i].state is Free;
        let step = ((some / 64 - start + 4) % 4) * 64 + some % 64;
        assert(probe(start, step) == some);
        lemma_first_free(table, step);
    }
}

proof fn lemma_first_free<T>(table: TableView<T>, step: int)
    requires
        table.slots.len() == 256,
        0 <= step < 256,
        table.slots[probe(table.cursor as int % 4, step)].state is Free,
    ensures
        exists|index: int| table.next_free(index),
    decreases step,
{
    let start = table.cursor as int % 4;
    if forall|earlier: int|
        0 <= earlier < step ==> !(table.slots[#[trigger] probe(start, earlier)].state is Free) {
        assert(table.next_free(probe(start, step)));
    } else {
        let earlier = choose|earlier: int|
            0 <= earlier < step && table.slots[#[trigger] probe(start, earlier)].state is Free;
        lemma_first_free(table, earlier);
    }
}

/// Law: completing, taking or abandoning one request leaves every other slot as it was.
pub proof fn law_requests_are_independent<T>(
    table: TableView<T>,
    token: RequestToken,
    value: T,
    other: int,
)
    requires
        table.slots.len() == 256,
        0 <= other < 256,
        other != slot_of(token.raw),
    ensures
        table.completed(token, value).slots[other] == table.slots[other],
        table.received(token).slots[other] == table.slots[other],
        table.receiver_gone(token).slots[other] == table.slots[other],
{
}

/// Law: an identifier names one slot and one generation of it. The low eight bits are the
/// slot, and what is above them the generation; identifiers of different slots, or of
/// generations that differ in their low 56 bits, are different.
pub proof fn law_identifiers_name_slot_and_generation(raw: u64, generation: u64, index: int)
    requires
        0 <= index < 256,
    ensures
        0 <= slot_of(raw) < 256,
        raw == 256 * generation_of(raw) + slot_of(raw),
        generation < 0x100_0000_0000_0000 ==> raw_of(generation, index) == 256 * generation + index,
        0 <= raw_of(generation, index) <= u64::MAX,
        raw == raw_of(generation, index) ==> slot_of(raw) == index && (generation
            < 0x100_0000_0000_0000 ==> generation_of(raw) == generation),
{
}

/// Law: reserving a slot makes it wait for a response under its next generation, moves the
/// search on and touches no other slot; a search that finds nothing just moves on.
pub proof fn law_reservations_take_one_slot<T>(table: TableView<T>, index: int)
    requires
        table.slots.len() == 256,
        0 <= index < 256,
    ensures
        ({
            let after = table.reserved(index);
            &&& after.slots.len() == 256
            &&& after.slots[index].state is Waiting
            &&& table.slots[index].generation < u64::MAX ==> after.slots[index].generation
                == table.slots[index].generation + 1
            &&& table.slots[index].generation == u64::MAX ==> after.slots[index].generation == 0
            &&& forall|other: int|
                0 <= other < 256 && other != index ==> #[trigger] after.slots[other]
                    == table.slots[other]
            &&& table.cursor < usize::MAX ==> after.cursor == table.cursor + 1
            &&& table.searched().cursor == after.cursor
            &&& table.searched().slots == table.slots
        }),
        table.next_free(index) ==> table.slots[index].state is Free,
{
}

/// Law: the search for a free slot looks at every slot, and at none twice.
pub proof fn law_searches_see_every_slot(start: int, index: int)
    requires
        0 <= start < 4,
        0 <= index < 256,
    ensures
        exists|step: int| 0 <= step < 256 && #[trigger] probe(start, step) == index,
        forall|step: int|
            0 <= step < 256 ==> 0 <= #[trigger] probe(start, step) < 256,
        forall|i: int, j: int|
            0 <= i < j < 256 ==> #[trigger] probe(start, i) != #[trigger] probe(start, j),
        probe(start, 0) == 64 * start,
{
    let step = ((index / 64 - start + 4) % 4) * 64 + index % 64;
    assert(probe(start, step) == index);
}

/// Law: a receiver gets a response just when it has arrived, once, and its slot is free then;
/// asking too early changes nothing.
pub proof fn law_receivers_take_what_has_arrived<T>(table: TableView<T>, token: RequestToken)
    requires
        table.slots.len() == 256,
    ensures
        match table.slots[slot_of(token.raw)].state {
            SlotState::Ready(value) => {
                &&& table.response(token) == Some(value)
                &&& table.received(token).slots[slot_of(token.raw)].state is Free
                &&& table.received(token).response(token) is None
            },
            _ => table.response(token) is None && table.received(token) == table,
        },
        table.received(token).cursor == table.cursor,
        table.received(token).slots[slot_of(token.raw)].generation
            == table.slots[slot_of(token.raw)].generation,
{
}

/// Law: what the connection reports for a request, and a receiver that goes away, matter just
/// to the request that holds the slot: a waiting request becomes answered or abandoned, an
/// abandoned or an answered one ends, and all else stays.
pub proof fn law_requests_end_once_both_sides_are_done<T>(
    table: TableView<T>,
    token: RequestToken,
    value: T,
)
    requires
        table.slots.len() == 256,
    ensures
        ({
            let at = slot_of(token.raw);
            let holds = table.slots[at].generation == generation_of(token.raw);
            let state = table.slots[at].state;
            let told = table.completed(token, value);
            let left = table.receiver_gone(token);
            &&& table.owed(token) <==> holds && (state is Waiting || state is Abandoned)
            &&& !holds ==> told == table && left == table
            &&& holds && state is Waiting ==> told.slots[at].state == SlotState::Ready(value)
                && left.slots[at].state is Abandoned
            &&& holds && state is Abandoned ==> told.slots[at].state is Free && left == table
            &&& holds && state is Ready ==> told == table && left.slots[at].state is Free
            &&& state is Free ==> told == table && left == table
            &&& told.slots[at].generation == table.slots[at].generation
            &&& left.slots[at].generation == table.slots[at].generation
            &&& told.cursor == table.cursor
            &&& left.cursor == table.cursor
        }),
{
}

/// Law: the count of requests in flight is the number of slots that are not free.
pub proof fn law_active_counts_the_reserved_slots<T>(table: TableView<T>)
    requires
        table.slots.len() == 256,
    ensures
        table.active() == vstd::set_lib::set_int_range(0, 256).filter(
            |i: int| !(table.slots[i].state is Free),
        ).len(),
        (TableView::<T>::fresh()).active() == 0,
        forall|i: int|
            0 <= i < 256 ==> (#[trigger] TableView::<T>::fresh().slots[i]).state is Free
                && TableView::<T>::fresh().slots[i].generation == 0,
        TableView::<T>::fresh().slots.len() == 256,
{
    lemma_occupied_set(table.slots, 256);
    lemma_none_occupied(TableView::<T>::fresh().slots, 256);
}

proof fn lemma_occupied_set<T>(slots: Seq<SlotView<T>>, n: int)
    requires
        0 <= n <= slots.len(),
    ensures
        vstd::set_lib::set_int_range(0, n).filter(|i: int| !(slots[i].state is Free)).finite(),
        occupied(slots, n) == vstd::set_lib::set_int_range(0, n).filter(
            |i: int| !(slots[i].state is Free),
        ).len(),
    decreases n,
{
    let all = vstd::set_lib::set_int_range(0, n).filter(|i: int| !(slots[i].state is Free));
    if n == 0 {
        assert(all =~= Set::<int>::empty());
    } else {
        let less = vstd::set_lib::set_int_range(0, n - 1).filter(
            |i: int| !(slots[i].state is Free),
        );
        lemma_occupied_set(slots, n - 1);
        if slots[n - 1].state is Free {
            assert(all =~= less);
        } else {
            assert(all =~= less.insert(n - 1));
            assert(!less.contains(n - 1));
        }
    }
}

/// Law: a handle that awaits a request is for that one, and has not taken its response; a waker
/// is heard through the cell of the slot that the request holds, and woken through the same.
pub proof fn law_handles_and_wakers_belong_to_their_slot<T>(
    future: ResponseFuture<T>,
    table: CompletionTable<T>,
    token: RequestToken,
    waker: Waker,
)
    ensures
        future.awaits(token) <==> future.token() == token && !future.finished(),
        table.listens(token, waker) <==> call_ensures(
            AtomicWaker::register,
            (&table.wakers()[slot_of(token.raw)], &waker),
            (),
        ),
        table.woken(token) <==> call_ensures(
            AtomicWaker::wake,
            (&table.wakers()[slot_of(token.raw)],),
            (),
        ),
{
}

/// Law: the outcome that the connection reports for a request that is waited for is just what
/// its receiver takes when it asks next; nothing was there before, and nothing is left.
pub proof fn law_receivers_take_what_was_reported<T>(
    before: CompletionTable<T>,
    reported: CompletionTable<T>,
    after: CompletionTable<T>,
    start: ResponseFuture<T>,
    end: ResponseFuture<T>,
    waker: Waker,
    value: T,
    accepted: bool,
    response: Option<T>,
)
    requires
        before.wf(),
        before@.current(start.token()),
        before@.state(start.token()) is Waiting,
        exists|table: &mut CompletionTable<T>|
            *table == before && *final(table) == reported && #[trigger] call_ensures(
                CompletionTable::<T>::complete,
                (table, start.token(), value),
                accepted,
            ),
        exists|future: &mut ResponseFuture<T>, table: &mut CompletionTable<T>|
            *future == start && *final(future) == end && *table == reported && *final(table)
                == after && #[trigger] call_ensures(
                ResponseFuture::<T>::poll,
                (future, table, &waker),
                response,
            ),
    ensures
        accepted,
        response == Some(value),
        end.finished(),
        end.token() == start.token(),
        before@.response(start.token()) is None,
        after@.state(start.token()) is Free,
        forall|i: int|
            0 <= i < 256 && i != slot_of(start.token().raw) ==> #[trigger] after@.slots[i]
                == before@.slots[i],
{
}

/// Law: a search takes the first free slot of its order: it goes through the slots in groups of
/// sixty-four, starting with the group that the cursor points at, and through each group from
/// its first slot on; no free slot comes before the one it takes.
pub proof fn law_searches_take_the_first_free_slot<T>(table: TableView<T>, index: int, other: int)
    requires
        table.slots.len() == 256,
        table.next_free(index),
        0 <= other < 256,
        table.slots[other].state is Free,
    ensures
        0 <= index < 256,
        table.slots[index].state is Free,
        ({
            let start = table.cursor as int % 4;
            let group = (index / 64 + 4 - start) % 4;
            let later = (other / 64 + 4 - start) % 4;
            group < later || (group == later && index % 64 <= other % 64)
        }),
{
    let start = table.cursor as int % 4;
    let step = choose|step: int|
        #![trigger probe(start, step)]
        {
            &&& 0 <= step < 256
            &&& index == probe(start, step)
            &&& table.slots[index].state is Free
            &&& forall|earlier: int|
                0 <= earlier < step ==> !(table.slots[#[trigger] probe(start, earlier)].state is Free)
        };
    let rank = ((other / 64 + 4 - start) % 4) * 64 + other % 64;
    assert(probe(start, rank) == other);
}

} // verus!
