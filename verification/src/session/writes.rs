//! Request frames on their way to the socket.
use crate::protocol::Frame;
use std::collections::VecDeque;
use vstd::prelude::*;

verus! {

/// Most frames that one vectored write takes.
pub const MAX_WRITE_VECTORS: usize = 4;

/// A write queue as contracts see it.
#[verifier::ext_equal]
pub struct WritesView<F: Frame> {
    /// Frames that the socket has not taken whole, oldest first.
    pub frames: Seq<F>,
    /// Bytes of the oldest frame that the socket has taken.
    pub offset: nat,
    /// Most frames that one write offers.
    pub vectors: nat,
}

/// The bytes of several frames.
pub open spec fn wire_of<F: Frame>(frames: Seq<F>) -> Seq<u8>
    decreases frames.len(),
{
    if frames.len() == 0 {
        Seq::empty()
    } else {
        frames[0].wire() + wire_of(frames.drop_first())
    }
}

impl<F: Frame> WritesView<F> {
    /// A queue of nothing that offers up to `vectors` frames at once.
    pub open spec fn idle(vectors: nat) -> Self {
        WritesView { frames: Seq::empty(), offset: 0, vectors }
    }

    /// No queued frame is empty or fully written.
    pub open spec fn valid(self) -> bool {
        &&& forall|i: int| 0 <= i < self.frames.len() ==> (#[trigger] self.frames[i]).wire().len() > 0
        &&& self.frames.len() == 0 ==> self.offset == 0
        &&& self.frames.len() > 0 ==> self.offset < self.frames[0].wire().len()
        &&& 1 <= self.vectors <= MAX_WRITE_VECTORS
    }

    /// The bytes that the socket has not taken.
    pub open spec fn unsent(self) -> Seq<u8> {
        wire_of(self.frames).skip(self.offset as int)
    }

    /// The queue with one more frame.
    pub open spec fn pushed(self, frame: F) -> Self {
        WritesView { frames: self.frames.push(frame), ..self }
    }

    /// How many frames the next write offers.
    pub open spec fn offered(self) -> nat {
        if self.frames.len() < self.vectors {
            self.frames.len()
        } else {
            self.vectors
        }
    }

    /// What the next write offers of one frame.
    pub open spec fn piece(self, index: int) -> Seq<u8> {
        if index == 0 {
            self.frames[0].wire().skip(self.offset as int)
        } else {
            self.frames[index].wire()
        }
    }

    /// The queue after the socket takes `written` bytes.
    pub open spec fn advanced(self, written: nat) -> Self
        decreases self.frames.len(),
    {
        if written == 0 || self.frames.len() == 0 {
            self
        } else {
            let remaining = self.frames[0].wire().len() - self.offset;
            if written < remaining {
                WritesView { offset: self.offset + written, ..self }
            } else {
                WritesView {
                    frames: self.frames.drop_first(),
                    offset: 0,
                    ..self
                }.advanced((written - remaining) as nat)
            }
        }
    }
}

/// Frames whose bytes the socket has not taken.
pub struct WriteQueue<F: Frame> {
    frames: VecDeque<F>,
    front_offset: usize,
    max_vectors: usize,
}

impl<F: Frame> View for WriteQueue<F> {
    type V = WritesView<F>;

    closed spec fn view(&self) -> WritesView<F> {
        WritesView {
            frames: self.frames@,
            offset: self.front_offset as nat,
            vectors: self.max_vectors as nat,
        }
    }
}

impl<F: Frame> WriteQueue<F> {
    /// A queue that offers up to `max_vectors` frames at once, at least one and at most
    /// as many as a vectored write takes.
    pub fn new(max_vectors: usize) -> (queue: Self)
        ensures
            queue@.valid(),
            queue@ == WritesView::<F>::idle(
                if max_vectors < 1 {
                    1
                } else if max_vectors > MAX_WRITE_VECTORS {
                    MAX_WRITE_VECTORS as nat
                } else {
                    max_vectors as nat
                },
            ),
    {
        let max_vectors: usize = if max_vectors < 1 {
            1
        } else if max_vectors > MAX_WRITE_VECTORS {
            MAX_WRITE_VECTORS
        } else {
            max_vectors
        };
        WriteQueue { frames: VecDeque::with_capacity(max_vectors), front_offset: 0, max_vectors }
    }

    /// Whether everything has been taken.
    pub fn is_empty(&self) -> (empty: bool)
        ensures
            empty == (self@.frames.len() == 0),
    {
        self.frames.len() == 0
    }

    /// How many frames wait.
    pub fn len(&self) -> (count: usize)
        ensures
            count == self@.frames.len(),
    {
        self.frames.len()
    }

    /// How many bytes of the oldest frame the socket has taken.
    pub fn front_offset(&self) -> (offset: usize)
        ensures
            offset == self@.offset,
    {
        self.front_offset
    }

    /// Queues a frame; refuses one without bytes.
    pub fn push(&mut self, frame: F) -> (queued: bool)
        requires
            old(self)@.valid(),
        ensures
            final(self)@.valid(),
            queued == (frame.wire().len() > 0),
            final(self)@ == if queued {
                old(self)@.pushed(frame)
            } else {
                old(self)@
            },
    {
        if frame.as_bytes().len() == 0 {
            return false;
        }
        self.frames.push_back(frame);
        true
    }

    /// How many frames the next write offers.
    pub fn batch_len(&self) -> (count: usize)
        ensures
            count == self@.offered(),
    {
        if self.frames.len() < self.max_vectors {
            self.frames.len()
        } else {
            self.max_vectors
        }
    }

    /// Whether the next write is a vectored one: only when the socket has those, and more
    /// than one frame is offered.
    pub fn is_vectored(&self, supported: bool) -> (vectored: bool)
        ensures
            vectored == (supported && self@.offered() > 1),
    {
        supported && self.batch_len() > 1
    }

    /// What the next write offers of one frame.
    pub fn piece(&self, index: usize) -> (bytes: &[u8])
        requires
            self@.valid(),
            index < self@.frames.len(),
        ensures
            bytes@ == self@.piece(index as int),
            bytes@.len() > 0,
    {
        let bytes = self.frames[index].as_bytes();
        if index == 0 {
            let length = bytes.len();
            vstd::slice::slice_subrange(bytes, self.front_offset, length)
        } else {
            bytes
        }
    }

    /// Drops what the socket has taken.
    pub fn advance(&mut self, written: usize)
        requires
            old(self)@.valid(),
            written <= old(self)@.unsent().len(),
        ensures
            final(self)@.valid(),
            final(self)@ == old(self)@.advanced(written as nat),
            final(self)@.unsent() == old(self)@.unsent().skip(written as int),
    {
        let mut left: usize = written;
        assert(self@.unsent().skip(0) =~= self@.unsent());
        assert(self@.unsent().len() == wire_of(self@.frames).len() - self@.offset) by {
            lemma_unsent_len(self@);
        }
        while left > 0
            invariant
                self@.valid(),
                left <= written <= old(self)@.unsent().len(),
                left <= self@.unsent().len(),
                old(self)@.advanced(written as nat) == self@.advanced(left as nat),
                old(self)@.unsent().skip(written as int) == self@.unsent().skip(left as int),
            decreases left,
        {
            let ghost before = self@;
            proof {
                lemma_unsent_len(before);
            }
            let front = self.frames[0].as_bytes();
            let remaining: usize = front.len() - self.front_offset;
            if left < remaining {
                self.front_offset = self.front_offset + left;
                proof {
                    lemma_unsent_len(self@);
                    assert(self@.unsent() =~= before.unsent().skip(left as int));
                }
                return ;
            }
            left = left - remaining;
            let _ = self.frames.pop_front();
            self.front_offset = 0;
            proof {
                assert(self@.frames =~= before.frames.drop_first());
                assert(self@.valid()) by {
                    assert forall|i: int| 0 <= i < self@.frames.len() implies (
                    #[trigger] self@.frames[i]).wire().len() > 0 by {
                        assert(self@.frames[i] == before.frames[i + 1]);
                    }
                }
                lemma_unsent_len(self@);
                assert(before.unsent() =~= before.frames[0].wire().skip(before.offset as int)
                    + wire_of(self@.frames));
                assert(self@.unsent() =~= wire_of(self@.frames));
                assert(before.unsent().skip((left + remaining) as int) =~= self@.unsent().skip(
                    left as int,
                ));
            }
        }
        assert(self@.unsent().skip(0) =~= self@.unsent());
    }

    /// Drops every frame.
    pub fn clear(&mut self)
        requires
            old(self)@.valid(),
        ensures
            final(self)@.valid(),
            final(self)@ == WritesView::<F>::idle(old(self)@.vectors),
    {
        self.frames.clear();
        self.front_offset = 0;
    }
}

/// Bytes left are those of the frames less those taken of the first.
proof fn lemma_unsent_len<F: Frame>(queue: WritesView<F>)
    requires
        queue.valid(),
    ensures
        queue.offset <= wire_of(queue.frames).len(),
        queue.unsent().len() == wire_of(queue.frames).len() - queue.offset,
        queue.frames.len() == 0 ==> queue.unsent().len() == 0,
{
}

/// Law: bytes reach the socket in the order in which their frames were queued; queueing
/// a frame appends its bytes to what is still to be sent.
pub proof fn law_frames_keep_their_order<F: Frame>(queue: WritesView<F>, frame: F)
    requires
        queue.valid(),
    ensures
        queue.pushed(frame).unsent() == queue.unsent() + frame.wire(),
{
    lemma_wire_push(queue.frames, frame);
    lemma_unsent_len(queue);
    assert(queue.pushed(frame).unsent() =~= queue.unsent() + frame.wire());
}

proof fn lemma_wire_push<F: Frame>(frames: Seq<F>, frame: F)
    ensures
        wire_of(frames.push(frame)) == wire_of(frames) + frame.wire(),
    decreases frames.len(),
{
    if frames.len() == 0 {
        assert(frames.push(frame).drop_first() =~= Seq::<F>::empty());
        assert(wire_of(Seq::<F>::empty()) =~= Seq::<u8>::empty());
        assert(wire_of(frames.push(frame)) =~= frame.wire());
        assert(wire_of(frames) + frame.wire() =~= frame.wire());
    } else {
        lemma_wire_push(frames.drop_first(), frame);
        assert(frames.push(frame).drop_first() =~= frames.drop_first().push(frame));
        assert(wire_of(frames.push(frame)) =~= wire_of(frames) + frame.wire());
    }
}

/// The bytes of the first pieces that the next write offers, one after the other.
pub open spec fn pieces<F: Frame>(queue: WritesView<F>, count: nat) -> Seq<u8>
    decreases count,
{
    if count == 0 {
        Seq::empty()
    } else {
        pieces(queue, (count - 1) as nat) + queue.piece(count - 1)
    }
}

/// Law: a write offers what comes next: up to as many frames as may go at once, in order, and
/// their pieces together are the first of the bytes that the socket has not taken.
pub proof fn law_writes_offer_what_comes_next<F: Frame>(queue: WritesView<F>)
    requires
        queue.valid(),
    ensures
        queue.frames.len() > 0 ==> 1 <= queue.offered(),
        queue.offered() <= queue.vectors,
        queue.offered() <= queue.frames.len(),
        queue.offered() == queue.frames.len() || queue.offered() == queue.vectors,
        pieces(queue, queue.offered()).len() <= queue.unsent().len(),
        pieces(queue, queue.offered()) == queue.unsent().take(
            pieces(queue, queue.offered()).len() as int,
        ),
        queue.offered() == queue.frames.len() ==> pieces(queue, queue.offered()) == queue.unsent(),
{
    lemma_unsent_len(queue);
    if queue.offered() > 0 {
        lemma_pieces(queue, queue.offered());
        lemma_wire_prefix(queue.frames, queue.offered() as int);
        let head = wire_of(queue.frames.take(queue.offered() as int));
        let all = wire_of(queue.frames);
        assert(all == head + wire_of(queue.frames.skip(queue.offered() as int)));
        assert(queue.unsent() =~= head.skip(queue.offset as int) + wire_of(
            queue.frames.skip(queue.offered() as int),
        )) by {
            lemma_wire_at_least_first(queue.frames.take(queue.offered() as int));
            assert(queue.frames.take(queue.offered() as int)[0] == queue.frames[0]);
        }
        if queue.offered() == queue.frames.len() {
            assert(queue.frames.skip(queue.offered() as int) =~= Seq::<F>::empty());
        }
    }
    assert(pieces(queue, queue.offered()) =~= queue.unsent().take(
        pieces(queue, queue.offered()).len() as int,
    ));
}

proof fn lemma_wire_at_least_first<F: Frame>(frames: Seq<F>)
    requires
        frames.len() > 0,
    ensures
        wire_of(frames).len() >= frames[0].wire().len(),
{
}

proof fn lemma_pieces<F: Frame>(queue: WritesView<F>, count: nat)
    requires
        queue.valid(),
        1 <= count <= queue.frames.len(),
    ensures
        pieces(queue, count) == wire_of(queue.frames.take(count as int)).skip(queue.offset as int),
    decreases count,
{
    let less = queue.frames.take(count - 1);
    assert(queue.frames.take(count as int) =~= less.push(queue.frames[count - 1]));
    lemma_wire_push(less, queue.frames[count - 1]);
    if count == 1 {
        assert(less =~= Seq::<F>::empty());
        assert(wire_of(less) =~= Seq::<u8>::empty());
        assert(wire_of(queue.frames.take(count as int)) =~= queue.frames[0].wire());
        assert(pieces(queue, 0) =~= Seq::<u8>::empty());
        assert(pieces(queue, count) =~= queue.frames[0].wire().skip(queue.offset as int));
    } else {
        lemma_pieces(queue, (count - 1) as nat);
        lemma_wire_at_least_first(less);
        assert(less[0] == queue.frames[0]);
        assert(pieces(queue, count) =~= wire_of(queue.frames.take(count as int)).skip(
            queue.offset as int,
        ));
    }
}

proof fn lemma_wire_prefix<F: Frame>(frames: Seq<F>, count: int)
    requires
        0 <= count <= frames.len(),
    ensures
        wire_of(frames) == wire_of(frames.take(count)) + wire_of(frames.skip(count)),
    decreases count,
{
    if count == 0 {
        assert(frames.take(0) =~= Seq::<F>::empty());
        assert(frames.skip(0) =~= frames);
        assert(wire_of(frames) =~= wire_of(frames.take(0)) + wire_of(frames.skip(0)));
    } else {
        let rest = frames.drop_first();
        lemma_wire_prefix(rest, count - 1);
        assert(frames.take(count).drop_first() =~= rest.take(count - 1));
        assert(frames.skip(count) =~= rest.skip(count - 1));
        assert(frames.take(count)[0] == frames[0]);
        assert(wire_of(frames) =~= wire_of(frames.take(count)) + wire_of(frames.skip(count)));
    }
}

/// Law: what the socket takes leaves the queue from its front, byte for byte; a queue from
/// which everything is taken is empty.
pub proof fn law_taken_bytes_leave_the_front<F: Frame>(queue: WritesView<F>, written: nat)
    requires
        queue.valid(),
        written <= queue.unsent().len(),
    ensures
        queue.advanced(written).valid(),
        queue.advanced(written).unsent() == queue.unsent().skip(written as int),
        queue.advanced(written).vectors == queue.vectors,
        queue.advanced(written).frames.len() <= queue.frames.len(),
        queue.advanced(written).frames == queue.frames.skip(
            queue.frames.len() - queue.advanced(written).frames.len(),
        ),
        written == queue.unsent().len() ==> queue.advanced(written).frames.len() == 0,
    decreases queue.frames.len(),
{
    lemma_unsent_len(queue);
    if written == 0 || queue.frames.len() == 0 {
        assert(queue.unsent().skip(0) =~= queue.unsent());
        assert(queue.frames.skip(0) =~= queue.frames);
        if queue.frames.len() > 0 {
            lemma_wire_at_least_first(queue.frames);
        }
    } else {
        let remaining = queue.frames[0].wire().len() - queue.offset;
        lemma_wire_at_least_first(queue.frames);
        let rest = WritesView { frames: queue.frames.drop_first(), offset: 0, ..queue };
        if written < remaining {
            let after = WritesView { offset: queue.offset + written, ..queue };
            lemma_unsent_len(after);
            assert(after.unsent() =~= queue.unsent().skip(written as int));
            assert(queue.frames.skip(0) =~= queue.frames);
        } else {
            assert(rest.valid()) by {
                assert forall|i: int| 0 <= i < rest.frames.len() implies (
                #[trigger] rest.frames[i]).wire().len() > 0 by {
                    assert(rest.frames[i] == queue.frames[i + 1]);
                }
            }
            lemma_unsent_len(rest);
            let left = (written - remaining) as nat;
            law_taken_bytes_leave_the_front(rest, left);
            assert(rest.unsent() =~= queue.unsent().skip(remaining));
            assert(rest.unsent().skip(left as int) =~= queue.unsent().skip(written as int));
            let after = queue.advanced(written);
            let gone = rest.frames.len() - after.frames.len();
            assert(rest.frames.skip(gone) =~= queue.frames.skip(gone + 1));
        }
    }
}

/// Law: a new queue holds nothing and offers as many frames at once as it was told to; a frame
/// that is queued stands behind all others.
pub proof fn law_frames_queue_behind_others<F: Frame>(queue: WritesView<F>, frame: F, vectors: nat)
    ensures
        WritesView::<F>::idle(vectors).frames.len() == 0,
        WritesView::<F>::idle(vectors).offset == 0,
        WritesView::<F>::idle(vectors).vectors == vectors,
        queue.pushed(frame).frames == queue.frames.push(frame),
        queue.pushed(frame).offset == queue.offset,
        queue.pushed(frame).vectors == queue.vectors,
{
}

/// Law: a frame with bytes is written behind everything that waits, and bytes that the socket
/// took are not offered again.
pub proof fn law_bytes_are_written_once_and_in_order<F: Frame>(
    before: WriteQueue<F>,
    queued: WriteQueue<F>,
    after: WriteQueue<F>,
    frame: F,
    accepted: bool,
    written: usize,
)
    requires
        before@.valid(),
        written <= queued@.unsent().len(),
        exists|queue: &mut WriteQueue<F>|
            *queue == before && *final(queue) == queued && #[trigger] call_ensures(
                WriteQueue::<F>::push,
                (queue, frame),
                accepted,
            ),
        exists|queue: &mut WriteQueue<F>|
            *queue == queued && *final(queue) == after && #[trigger] call_ensures(
                WriteQueue::<F>::advance,
                (queue, written),
                (),
            ),
    ensures
        accepted <==> frame.wire().len() > 0,
        queued@.unsent() == before@.unsent() + frame.wire(),
        queued@.unsent() == queued@.unsent().take(written as int) + after@.unsent(),
{
    law_frames_keep_their_order(before@, frame);
    assert(queued@.unsent() =~= before@.unsent() + frame.wire());
    assert(queued@.unsent() =~= queued@.unsent().take(written as int) + queued@.unsent().skip(
        written as int,
    ));
}

} // verus!
