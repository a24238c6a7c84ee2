//! A single-producer, multi-consumer buffer that broadcasts.
//!
//! Every consumer (a source) reads the whole stream from the position at
//! which it was made. A source that falls behind loses nothing: the ring
//! fills up and the producer (the sink) has to wait. The head of the ring is
//! the position of the slowest source.

use vstd::prelude::*;
use crate::buffer::cursor::{spec_advance, spec_distance, lemma_distance_cases};
use tokio::sync::mpsc::{Receiver, Sender};
use crate::error::Error;
use crate::buffer::notify::{
    attended, notifier, notify_all, spec_attended, spec_bound, spec_kept, try_signal, try_wake,
    Signal, Wake,
};
use crate::buffer::{RingView, State};
use crate::view::{at_once, spec_at_once, Poll, Sink, Source, ViewMut};

verus! {

/// The mathematical content of one source of a broadcast buffer.
pub struct ReaderView {
    /// Cursor of the next element the source has yet to release.
    pub head: int,
    /// Number of elements granted to the source, counted from its head.
    pub granted: int,
    /// Whether the source still exists.
    pub live: bool,
}

/// The mathematical content of a broadcast buffer.
pub struct BufferView<T> {
    /// The ring; its lent window is the one granted to the sink, and its
    /// head is that of the slowest source.
    pub ring: RingView<T>,
    /// Every source that was ever made, in the order of their making.
    pub readers: Seq<ReaderView>,
    /// Whether the sink still exists.
    pub sink_open: bool,
}

impl<T> BufferView<T> {
    /// A new buffer of `capacity` slots that all hold `fill`, with one
    /// source.
    pub open spec fn fresh(capacity: int, fill: T) -> Self {
        BufferView {
            ring: RingView::blank(capacity, fill),
            readers: seq![ReaderView { head: 0, granted: 0, live: true }],
            sink_open: true,
        }
    }

    /// Whether `id` names a source that still exists.
    pub open spec fn is_live(self, id: int) -> bool {
        0 <= id < self.readers.len() && self.readers[id].live
    }

    /// Whether any source still exists.
    pub open spec fn any_live(self) -> bool {
        exists|id: int| self.is_live(id)
    }

    /// Number of elements that source `id` has yet to release.
    pub open spec fn pending(self, id: int) -> int {
        spec_distance(self.ring.capacity(), self.readers[id].head, self.ring.tail)
    }

    /// The elements that source `id` has yet to release, oldest first.
    pub open spec fn queue(self, id: int) -> Seq<T> {
        self.ring.run(self.readers[id].head, self.pending(id))
    }

    /// The largest grant that can ever be made.
    pub open spec fn limit(self) -> int {
        self.ring.capacity() - 1
    }

    /// The invariant of every broadcast buffer: each live source stands
    /// between the head of the ring and its tail, and the slowest of them
    /// stands at the head.
    pub open spec fn wf(self) -> bool {
        &&& self.ring.wf()
        &&& !self.sink_open ==> self.ring.lent == 0
        &&& forall|id: int|
            0 <= id < self.readers.len() ==> {
                &&& 0 <= (#[trigger] self.readers[id]).head < self.ring.capacity()
                &&& 0 <= self.readers[id].granted
                &&& !self.readers[id].live ==> self.readers[id].granted == 0
                &&& self.readers[id].live ==> self.readers[id].granted <= self.pending(id)
                    <= self.ring.readable()
            }
        &&& self.any_live() ==> exists|id: int| #[trigger]
            self.is_live(id) && self.pending(id) == self.ring.readable()
    }

    /// What the sink sees: the slots granted to it.
    pub open spec fn sink_view(self) -> Seq<T> {
        self.ring.window()
    }

    /// What source `id` sees: the elements granted to it. A source that
    /// does not exist sees nothing.
    pub open spec fn source_view(self, id: int) -> Seq<T> {
        if self.is_live(id) {
            self.ring.run(self.readers[id].head, self.readers[id].granted)
        } else {
            Seq::empty()
        }
    }

    /// The live source that is closest to cursor `from` among the first `k`
    /// sources, if there is one; of several at the same distance, the one
    /// made first.
    pub open spec fn earliest(self, from: int, k: int) -> Option<int>
        decreases k,
    {
        if k <= 0 {
            None
        } else {
            let rest = self.earliest(from, k - 1);
            if !self.readers[k - 1].live {
                rest
            } else {
                match rest {
                    None => Some(k - 1),
                    Some(best) => if spec_distance(
                        self.ring.capacity(),
                        from,
                        self.readers[k - 1].head,
                    ) < spec_distance(self.ring.capacity(), from, self.readers[best].head) {
                        Some(k - 1)
                    } else {
                        Some(best)
                    },
                }
            }
        }
    }

    /// The buffer after the head of the ring has caught up with the slowest
    /// live source. Without a live source the head stays.
    pub open spec fn caught_up(self) -> Self {
        match self.earliest(self.ring.head, self.readers.len() as int) {
            Some(id) => BufferView { ring: self.ring.with_head(self.readers[id].head), ..self },
            None => self,
        }
    }

    /// The answer to the sink's request for `count` slots.
    pub open spec fn sink_poll(self, count: int) -> Poll<Result<(), Error>> {
        if count > self.limit() {
            Poll::Ready(Err(Error::Overflow))
        } else if !self.sink_open || !self.any_live() {
            Poll::Ready(Err(Error::Closed))
        } else if self.ring.writable() >= count {
            Poll::Ready(Ok(()))
        } else {
            Poll::Pending
        }
    }

    /// The buffer after the sink's request for `count` slots: a grant
    /// covers every free slot, a closed stream takes the grant away, and
    /// anything else leaves the buffer as it was.
    pub open spec fn sink_granted(self, count: int) -> Self {
        match self.sink_poll(count) {
            Poll::Ready(Ok(_)) => BufferView { ring: self.ring.lend(self.ring.writable()), ..self },
            Poll::Ready(Err(Error::Closed)) => BufferView { ring: self.ring.lend(0), ..self },
            _ => self,
        }
    }

    /// The buffer after the sink has overwritten its window with `w`.
    pub open spec fn sink_filled(self, w: Seq<T>) -> Self {
        BufferView { ring: self.ring.fill(w), ..self }
    }

    /// The buffer after the sink releases `n` slots: they become readable
    /// to every source.
    pub open spec fn sink_released(self, n: int) -> Self {
        BufferView { ring: self.ring.commit(n), ..self }
    }

    /// The buffer after the sink is dropped.
    pub open spec fn sink_dropped(self) -> Self {
        BufferView { ring: self.ring.lend(0), sink_open: false, ..self }
    }

    /// The answer to the request of source `id` for `count` elements. Once
    /// the sink is gone the stream has ended: whatever is left is granted,
    /// and only a source with nothing left is told that it is closed.
    pub open spec fn source_poll(self, id: int, count: int) -> Poll<Result<(), Error>> {
        if !self.is_live(id) {
            Poll::Ready(Err(Error::Closed))
        } else if !self.sink_open {
            if self.pending(id) == 0 {
                Poll::Ready(Err(Error::Closed))
            } else {
                Poll::Ready(Ok(()))
            }
        } else if count > self.limit() {
            Poll::Ready(Err(Error::Overflow))
        } else if self.pending(id) >= count {
            Poll::Ready(Ok(()))
        } else {
            Poll::Pending
        }
    }

    /// The buffer in which source `id` is `reader`.
    pub open spec fn with_reader(self, id: int, reader: ReaderView) -> Self {
        BufferView { readers: self.readers.update(id, reader), ..self }
    }

    /// The buffer after the request of source `id` for `count` elements: a
    /// grant covers everything the source has yet to release, and anything
    /// else leaves the buffer as it was.
    pub open spec fn source_granted(self, id: int, count: int) -> Self {
        match self.source_poll(id, count) {
            Poll::Ready(Ok(_)) => self.with_reader(
                id,
                ReaderView { granted: self.pending(id), ..self.readers[id] },
            ),
            _ => self,
        }
    }

    /// The buffer after source `id` releases `n` elements: the source moves
    /// on, and the head of the ring follows the slowest source.
    pub open spec fn source_released(self, id: int, n: int) -> Self {
        if self.is_live(id) {
            self.with_reader(
                id,
                ReaderView {
                    head: spec_advance(self.ring.capacity(), self.readers[id].head, n),
                    granted: self.readers[id].granted - n,
                    live: true,
                },
            ).caught_up()
        } else {
            self
        }
    }

    /// The buffer after source `id` is cloned: the new source stands where
    /// `id` stands and sees what `id` sees.
    pub open spec fn source_cloned(self, id: int) -> Self {
        if self.is_live(id) {
            BufferView { readers: self.readers.push(self.readers[id]), ..self }
        } else {
            self
        }
    }

    /// The buffer after source `id` is dropped: the head of the ring moves
    /// on to the slowest source that is left.
    pub open spec fn source_dropped(self, id: int) -> Self {
        if self.is_live(id) {
            self.with_reader(
                id,
                ReaderView { granted: 0, live: false, ..self.readers[id] },
            ).caught_up()
        } else {
            self
        }
    }

    /// The buffer after every source is dropped. The head of the ring
    /// stays where it is.
    pub open spec fn sources_dropped(self) -> Self {
        BufferView {
            readers: Seq::new(
                self.readers.len(),
                |id: int| ReaderView { granted: 0, live: false, ..self.readers[id] },
            ),
            ..self
        }
    }

    /// Whether the stream has ended for the sources.
    pub open spec fn ended(self) -> bool {
        !self.sink_open
    }
}


impl<T> BufferView<T> {
    /// The invariant but for its last part: the head of the ring may lag
    /// behind the slowest source.
    pub open spec fn tame(self) -> bool {
        &&& self.ring.wf()
        &&& !self.sink_open ==> self.ring.lent == 0
        &&& forall|id: int|
            0 <= id < self.readers.len() ==> {
                &&& 0 <= (#[trigger] self.readers[id]).head < self.ring.capacity()
                &&& 0 <= self.readers[id].granted
                &&& !self.readers[id].live ==> self.readers[id].granted == 0
                &&& self.readers[id].live ==> self.readers[id].granted <= self.pending(id)
                    <= self.ring.readable()
            }
    }

    /// What `earliest` finds: nothing where no source among the first `k`
    /// is live, else a live source than which none of them is closer to
    /// `from`.
    pub proof fn lemma_earliest(self, from: int, k: int)
        requires
            0 <= k <= self.readers.len(),
        ensures
            match self.earliest(from, k) {
                None => forall|id: int| 0 <= id < k ==> !self.is_live(id),
                Some(best) => {
                    &&& 0 <= best < k
                    &&& self.is_live(best)
                    &&& forall|id: int|
                        0 <= id < k && self.is_live(id) ==> spec_distance(
                            self.ring.capacity(),
                            from,
                            self.readers[best].head,
                        ) <= spec_distance(self.ring.capacity(), from, self.readers[id].head)
                },
            },
        decreases k,
    {
        if k > 0 {
            self.lemma_earliest(from, k - 1);
        }
    }

    /// A cursor between head and tail splits the readable run in two.
    pub proof fn lemma_between(ring: RingView<T>, cursor: int)
        requires
            ring.wf(),
            ring.holds(cursor),
        ensures
            spec_distance(ring.capacity(), ring.head, cursor) + spec_distance(
                ring.capacity(),
                cursor,
                ring.tail,
            ) == ring.readable(),
    {
        lemma_distance_cases(ring.capacity(), ring.head, cursor);
        lemma_distance_cases(ring.capacity(), cursor, ring.tail);
        lemma_distance_cases(ring.capacity(), ring.head, ring.tail);
    }

    /// Catching up with the slowest source restores the invariant and
    /// changes nothing but the head of the ring.
    pub proof fn lemma_caught_up(self)
        requires
            self.tame(),
        ensures
            self.caught_up().wf(),
            self.caught_up().readers == self.readers,
            self.caught_up().sink_open == self.sink_open,
            self.caught_up().ring.tail == self.ring.tail,
            self.caught_up().ring.slots == self.ring.slots,
            self.caught_up().ring.lent == self.ring.lent,
            self.caught_up().ring.readable() <= self.ring.readable(),
            match self.earliest(self.ring.head, self.readers.len() as int) {
                Some(id) => self.caught_up().ring.readable() == self.pending(id),
                None => self.caught_up().ring == self.ring,
            },
    {
        let c = self.ring.capacity();
        let next = self.caught_up();
        self.lemma_earliest(self.ring.head, self.readers.len() as int);
        self.ring.lemma_occupancy();
        match self.earliest(self.ring.head, self.readers.len() as int) {
            Some(best) => {
                assert(self.readers[best].live);
                Self::lemma_between(self.ring, self.readers[best].head);
                assert forall|id: int| 0 <= id < next.readers.len() implies {
                    &&& 0 <= (#[trigger] next.readers[id]).head < next.ring.capacity()
                    &&& 0 <= next.readers[id].granted
                    &&& !next.readers[id].live ==> next.readers[id].granted == 0
                    &&& next.readers[id].live ==> next.readers[id].granted <= next.pending(id)
                        <= next.ring.readable()
                } by {
                    if self.readers[id].live {
                        assert(self.is_live(id));
                        Self::lemma_between(self.ring, self.readers[id].head);
                    }
                }
                assert(next.is_live(best) && next.pending(best) == next.ring.readable());
            },
            None => {
                assert(!self.any_live());
                assert(!next.any_live());
            },
        }
    }
}

/// One source of a broadcast buffer.
#[derive(Clone, Copy)]
pub struct Reader {
    head: usize,
    granted: usize,
    live: bool,
}

impl View for Reader {
    type V = ReaderView;

    closed spec fn view(&self) -> ReaderView {
        ReaderView { head: self.head as int, granted: self.granted as int, live: self.live }
    }
}

/// A broadcast buffer: the ring together with the grant of its sink and
/// the positions and grants of its sources.
pub struct Buffer<T> {
    state: State<T>,
    readers: Vec<Reader>,
    sink_open: bool,
}

impl<T> View for Buffer<T> {
    type V = BufferView<T>;

    closed spec fn view(&self) -> BufferView<T> {
        BufferView {
            ring: self.state@,
            readers: Seq::new(self.readers@.len(), |id: int| self.readers@[id]@),
            sink_open: self.sink_open,
        }
    }
}

impl<T: Copy> Buffer<T> {
    /// The invariant of the buffer.
    pub closed spec fn wf(&self) -> bool {
        &&& self.state.wf()
        &&& self@.wf()
    }

    /// The invariant of the buffer while the head of the ring may lag
    /// behind the slowest source.
    closed spec fn tame(&self) -> bool {
        &&& self.state.wf()
        &&& self@.tame()
    }

    /// A well-formed buffer has a well-formed content.
    pub proof fn lemma_view_wf(&self)
        requires
            self.wf(),
        ensures
            self@.wf(),
    {
    }

    /// Creates a broadcast buffer that can hold `min_size` elements, every
    /// slot of which holds `fill`. Its one source has the index 0.
    pub fn with_fill(min_size: usize, fill: T) -> (b: Self)
        requires
            min_size > 0,
            2 * (min_size + 1) <= usize::MAX,
        ensures
            b.wf(),
            b@ == BufferView::fresh(min_size + 1, fill),
    {
        let state = State::with_fill(min_size, fill);
        let mut readers: Vec<Reader> = Vec::new();
        readers.push(Reader { head: 0, granted: 0, live: true });
        let b = Buffer { state, readers, sink_open: true };
        proof {
            state.lemma_view_wf();
            lemma_distance_cases(min_size + 1, 0, 0);
            assert(b@.readers =~= seq![ReaderView { head: 0, granted: 0, live: true }]);
            assert(b@.is_live(0) && b@.pending(0) == b@.ring.readable());
        }
        b
    }

    /// Number of slots of the ring; one less can be in use.
    pub fn capacity(&self) -> (c: usize)
        requires
            self.wf(),
        ensures
            c == self@.ring.capacity(),
            c >= 2,
    {
        self.state.capacity()
    }

    /// Number of elements that the slowest source has yet to release.
    pub fn readable_len(&self) -> (n: usize)
        requires
            self.wf(),
        ensures
            n == self@.ring.readable(),
            n + self@.ring.writable() + 1 == self@.ring.capacity(),
    {
        self.state.readable_len()
    }

    /// Number of slots that can be written before the ring is full.
    pub fn writable_len(&self) -> (n: usize)
        requires
            self.wf(),
        ensures
            n == self@.ring.writable(),
            self@.ring.readable() + n + 1 == self@.ring.capacity(),
    {
        self.state.writable_len()
    }

    /// Number of sources that were ever made; their indices are the
    /// numbers below it.
    pub fn sources(&self) -> (n: usize)
        ensures
            n == self@.readers.len(),
    {
        self.readers.len()
    }

    /// Whether `id` names a source that still exists.
    pub fn is_live(&self, id: usize) -> (live: bool)
        ensures
            live == self@.is_live(id as int),
    {
        id < self.readers.len() && self.readers[id].live
    }

    /// Whether any source still exists.
    pub fn any_live(&self) -> (live: bool)
        ensures
            live == self@.any_live(),
    {
        let mut id: usize = 0;
        while id < self.readers.len()
            invariant
                id <= self.readers.len(),
                forall|j: int| 0 <= j < id ==> !self@.is_live(j),
            decreases self.readers.len() - id,
        {
            if self.readers[id].live {
                assert(self@.is_live(id as int));
                return true;
            }
            id = id + 1;
        }
        false
    }
}


impl<T: Copy> Buffer<T> {
    /// The index of the live source that is closest to the head of the
    /// ring, which is the slowest one.
    fn earliest(&self) -> (found: Option<usize>)
        requires
            self.tame(),
        ensures
            match found {
                Some(id) => self@.earliest(self@.ring.head, self@.readers.len() as int) == Some(
                    id as int,
                ),
                None => self@.earliest(self@.ring.head, self@.readers.len() as int).is_none(),
            },
    {
        proof {
            self.state.lemma_view_wf();
        }
        let current = self.state.head();
        let mut found: Option<usize> = None;
        let mut smallest: usize = 0;
        let mut id: usize = 0;
        while id < self.readers.len()
            invariant
                self.tame(),
                id <= self.readers.len(),
                current == self@.ring.head,
                match found {
                    Some(best) => {
                        &&& self@.earliest(self@.ring.head, id as int) == Some(best as int)
                        &&& best < id
                        &&& smallest == spec_distance(
                            self@.ring.capacity(),
                            current as int,
                            self@.readers[best as int].head,
                        )
                    },
                    None => self@.earliest(self@.ring.head, id as int).is_none(),
                },
            decreases self.readers.len() - id,
        {
            let reader = self.readers[id];
            assert(self@.readers[id as int] == reader@);
            if reader.live {
                let this = self.state.distance(current, reader.head);
                let closer = match found {
                    Some(_) => this < smallest,
                    None => true,
                };
                if closer {
                    found = Some(id);
                    smallest = this;
                }
            }
            id = id + 1;
        }
        found
    }

    /// Moves the head of the ring to the slowest live source.
    fn catch_up(&mut self)
        requires
            old(self).tame(),
        ensures
            final(self).wf(),
            final(self)@ == old(self)@.caught_up(),
    {
        proof {
            self@.lemma_caught_up();
            self@.lemma_earliest(self@.ring.head, self@.readers.len() as int);
        }
        match self.earliest() {
            Some(id) => {
                let head = self.readers[id].head;
                assert(self@.readers[id as int] == self.readers@[id as int]@);
                assert(self@.is_live(id as int));
                self.state.set_head(head);
            },
            None => {},
        }
    }

    /// Asks for a window of at least `count` free slots for the sink.
    pub fn sink_poll_grant(&mut self, count: usize) -> (p: Poll<Result<(), Error>>)
        requires
            old(self).wf(),
        ensures
            final(self).wf(),
            p == old(self)@.sink_poll(count as int),
            final(self)@ == old(self)@.sink_granted(count as int),
    {
        if count > self.state.capacity() - 1 {
            return Poll::Ready(Err(Error::Overflow));
        }
        if !self.sink_open || !self.any_live() {
            self.state.lend(0);
            proof {
                self.lemma_ring_only(*old(self));
                old(self)@.lemma_lent(0);
            }
            return Poll::Ready(Err(Error::Closed));
        }
        let writable = self.state.writable_len();
        if writable >= count {
            self.state.lend(writable);
            proof {
                self.lemma_ring_only(*old(self));
                old(self)@.lemma_lent(writable as int);
            }
            Poll::Ready(Ok(()))
        } else {
            Poll::Pending
        }
    }

    /// Two buffers that differ in their rings alone have the same sources.
    proof fn lemma_ring_only(&self, other: Self)
        requires
            self.readers == other.readers,
            self.sink_open == other.sink_open,
        ensures
            self@.readers == other@.readers,
            self@.sink_open == other@.sink_open,
    {
    }

    /// Asks for a window of at least `count` free slots for the sink,
    /// without waiting: `Ok(false)` where the request would have to wait.
    pub fn sink_try_grant(&mut self, count: usize) -> (r: Result<bool, Error>)
        requires
            old(self).wf(),
        ensures
            final(self).wf(),
            r == spec_at_once(old(self)@.sink_poll(count as int)),
            final(self)@ == old(self)@.sink_granted(count as int),
    {
        at_once(self.sink_poll_grant(count))
    }

    /// The window granted to the sink.
    pub fn sink_view(&self) -> (w: &[T])
        requires
            self.wf(),
        ensures
            w@ == self@.sink_view(),
    {
        self.state.window()
    }

    /// The window granted to the sink, to write into.
    pub fn sink_view_mut(&mut self) -> (w: &mut [T])
        requires
            old(self).wf(),
        ensures
            w@ == old(self)@.sink_view(),
            final(w)@.len() == w@.len() ==> final(self).wf() && final(self)@
                == old(self)@.sink_filled(final(w)@),
    {
        proof {
            let before = self@;
            assert forall|w: Seq<T>| w.len() == before.ring.lent implies (BufferView {
                ring: #[trigger] self.state@.fill(w),
                ..before
            }).wf() by {
                before.lemma_filled(w);
            }
        }
        self.state.window_mut()
    }

    /// Releases the first `count` slots of the sink's window to every
    /// source.
    pub fn sink_release(&mut self, count: usize)
        requires
            old(self).wf(),
            count <= old(self)@.sink_view().len(),
        ensures
            final(self).wf(),
            final(self)@ == old(self)@.sink_released(count as int),
    {
        proof {
            self@.lemma_released(count as int);
        }
        self.state.commit(count);
        proof {
            self.lemma_ring_only(*old(self));
        }
    }

    /// Drops the sink: the stream ends once the sources have drained it.
    pub fn drop_sink(&mut self)
        requires
            old(self).wf(),
        ensures
            final(self).wf(),
            final(self)@ == old(self)@.sink_dropped(),
    {
        self.state.lend(0);
        self.sink_open = false;
        proof {
            old(self)@.lemma_sink_dropped();
            assert(self@.readers == old(self)@.readers);
        }
    }
}

impl<T> BufferView<T> {
    /// Resizing the sink's window keeps the invariant.
    pub proof fn lemma_lent(self, len: int)
        requires
            self.wf(),
            0 <= len <= self.ring.writable(),
            !self.sink_open ==> len == 0,
        ensures
            (BufferView { ring: self.ring.lend(len), ..self }).wf(),
    {
        let next = BufferView { ring: self.ring.lend(len), ..self };
        assert forall|id: int| 0 <= id < next.readers.len() implies {
            &&& 0 <= (#[trigger] next.readers[id]).head < next.ring.capacity()
            &&& 0 <= next.readers[id].granted
            &&& !next.readers[id].live ==> next.readers[id].granted == 0
            &&& next.readers[id].live ==> next.readers[id].granted <= next.pending(id)
                <= next.ring.readable()
        } by {
            assert(next.pending(id) == self.pending(id));
        }
        if next.any_live() {
            let id = choose|id: int| next.is_live(id);
            assert(self.is_live(id));
            let slow = choose|id: int| #[trigger] self.is_live(id) && self.pending(id)
                == self.ring.readable();
            assert(next.is_live(slow) && next.pending(slow) == next.ring.readable());
        }
    }

    /// Dropping the sink keeps the invariant.
    pub proof fn lemma_sink_dropped(self)
        requires
            self.wf(),
        ensures
            self.sink_dropped().wf(),
    {
        let next = self.sink_dropped();
        assert forall|id: int| 0 <= id < next.readers.len() implies {
            &&& 0 <= (#[trigger] next.readers[id]).head < next.ring.capacity()
            &&& 0 <= next.readers[id].granted
            &&& !next.readers[id].live ==> next.readers[id].granted == 0
            &&& next.readers[id].live ==> next.readers[id].granted <= next.pending(id)
                <= next.ring.readable()
        } by {
            assert(next.pending(id) == self.pending(id));
        }
        if next.any_live() {
            let id = choose|id: int| next.is_live(id);
            assert(self.is_live(id));
            let slow = choose|id: int| #[trigger] self.is_live(id) && self.pending(id)
                == self.ring.readable();
            assert(next.is_live(slow) && next.pending(slow) == next.ring.readable());
        }
    }

    /// Writing into the sink's window keeps the invariant.
    pub proof fn lemma_filled(self, w: Seq<T>)
        requires
            self.wf(),
            w.len() == self.ring.lent,
        ensures
            self.sink_filled(w).wf(),
    {
        let next = self.sink_filled(w);
        self.ring.lemma_fill(w);
        assert forall|id: int| 0 <= id < next.readers.len() implies {
            &&& 0 <= (#[trigger] next.readers[id]).head < next.ring.capacity()
            &&& 0 <= next.readers[id].granted
            &&& !next.readers[id].live ==> next.readers[id].granted == 0
            &&& next.readers[id].live ==> next.readers[id].granted <= next.pending(id)
                <= next.ring.readable()
        } by {
            assert(next.pending(id) == self.pending(id));
        }
        if next.any_live() {
            let id = choose|id: int| next.is_live(id);
            assert(self.is_live(id));
            let slow = choose|id: int| #[trigger] self.is_live(id) && self.pending(id)
                == self.ring.readable();
            assert(next.is_live(slow) && next.pending(slow) == next.ring.readable());
        }
    }

    /// A release by the sink keeps the invariant, and every live source
    /// has `n` more elements to read.
    pub proof fn lemma_released(self, n: int)
        requires
            self.wf(),
            0 <= n <= self.ring.lent,
        ensures
            self.sink_released(n).wf(),
            forall|id: int| #[trigger]
                self.is_live(id) ==> self.sink_released(n).pending(id) == self.pending(id) + n,
    {
        let c = self.ring.capacity();
        let next = self.sink_released(n);
        self.ring.lemma_commit(n);
        self.ring.lemma_occupancy();
        assert forall|id: int| #[trigger] self.is_live(id) implies next.pending(id) == self.pending(
            id,
        ) + n by {
            crate::buffer::cursor::lemma_distance_grows(c, self.readers[id].head, self.ring.tail, n);
        }
        assert forall|id: int| 0 <= id < next.readers.len() implies {
            &&& 0 <= (#[trigger] next.readers[id]).head < next.ring.capacity()
            &&& 0 <= next.readers[id].granted
            &&& !next.readers[id].live ==> next.readers[id].granted == 0
            &&& next.readers[id].live ==> next.readers[id].granted <= next.pending(id)
                <= next.ring.readable()
        } by {
            if self.readers[id].live {
                assert(self.is_live(id));
            }
        }
        if next.any_live() {
            let id = choose|id: int| next.is_live(id);
            assert(self.is_live(id));
            let slow = choose|id: int| #[trigger] self.is_live(id) && self.pending(id)
                == self.ring.readable();
            assert(next.is_live(slow) && next.pending(slow) == next.ring.readable());
        }
    }
}


impl<T> BufferView<T> {
    /// A request by a source keeps the invariant.
    pub proof fn lemma_source_granted(self, id: int, count: int)
        requires
            self.wf(),
        ensures
            self.source_granted(id, count).wf(),
    {
        let next = self.source_granted(id, count);
        if next != self {
            assert forall|j: int| 0 <= j < next.readers.len() implies {
                &&& 0 <= (#[trigger] next.readers[j]).head < next.ring.capacity()
                &&& 0 <= next.readers[j].granted
                &&& !next.readers[j].live ==> next.readers[j].granted == 0
                &&& next.readers[j].live ==> next.readers[j].granted <= next.pending(j)
                    <= next.ring.readable()
            } by {
                assert(next.pending(j) == self.pending(j));
                assert(self.readers[j].live ==> self.readers[j].granted <= self.pending(j));
            }
            let slow = choose|j: int| #[trigger] self.is_live(j) && self.pending(j)
                == self.ring.readable();
            assert(self.is_live(id));
            assert(next.is_live(slow) && next.pending(slow) == next.ring.readable());
        }
    }

    /// A source that has moved forward within its grant leaves a buffer
    /// that only has to catch up.
    pub proof fn lemma_source_moved(self, id: int, n: int)
        requires
            self.wf(),
            self.is_live(id),
            0 <= n <= self.readers[id].granted,
        ensures
            self.with_reader(
                id,
                ReaderView {
                    head: spec_advance(self.ring.capacity(), self.readers[id].head, n),
                    granted: self.readers[id].granted - n,
                    live: true,
                },
            ).tame(),
            self.source_released(id, n).wf(),
            self.source_released(id, n).pending(id) == self.pending(id) - n,
    {
        let c = self.ring.capacity();
        let moved = self.with_reader(
            id,
            ReaderView {
                head: spec_advance(c, self.readers[id].head, n),
                granted: self.readers[id].granted - n,
                live: true,
            },
        );
        self.ring.lemma_occupancy();
        crate::buffer::cursor::lemma_distance_shrinks(c, self.readers[id].head, self.ring.tail, n);
        crate::buffer::cursor::lemma_advance_cases(c, self.readers[id].head, n);
        assert forall|j: int| 0 <= j < moved.readers.len() implies {
            &&& 0 <= (#[trigger] moved.readers[j]).head < moved.ring.capacity()
            &&& 0 <= moved.readers[j].granted
            &&& !moved.readers[j].live ==> moved.readers[j].granted == 0
            &&& moved.readers[j].live ==> moved.readers[j].granted <= moved.pending(j)
                <= moved.ring.readable()
        } by {
            if j != id {
                assert(moved.pending(j) == self.pending(j));
                assert(self.readers[j].live ==> self.readers[j].granted <= self.pending(j));
            }
        }
        moved.lemma_caught_up();
    }

    /// Cloning a source keeps the invariant.
    pub proof fn lemma_source_cloned(self, id: int)
        requires
            self.wf(),
        ensures
            self.source_cloned(id).wf(),
    {
        let next = self.source_cloned(id);
        if self.is_live(id) {
            assert forall|j: int| 0 <= j < next.readers.len() implies {
                &&& 0 <= (#[trigger] next.readers[j]).head < next.ring.capacity()
                &&& 0 <= next.readers[j].granted
                &&& !next.readers[j].live ==> next.readers[j].granted == 0
                &&& next.readers[j].live ==> next.readers[j].granted <= next.pending(j)
                    <= next.ring.readable()
            } by {
                if j < self.readers.len() {
                    assert(next.pending(j) == self.pending(j));
                    assert(self.readers[j].live ==> self.readers[j].granted <= self.pending(j));
                } else {
                    assert(next.pending(j) == self.pending(id));
                    assert(self.readers[id].granted <= self.pending(id));
                }
            }
            let slow = choose|j: int| #[trigger] self.is_live(j) && self.pending(j)
                == self.ring.readable();
            assert(next.is_live(slow) && next.pending(slow) == next.ring.readable());
        }
    }

    /// Dropping a source keeps the invariant.
    pub proof fn lemma_source_dropped(self, id: int)
        requires
            self.wf(),
        ensures
            self.is_live(id) ==> self.with_reader(
                id,
                ReaderView { granted: 0, live: false, ..self.readers[id] },
            ).tame(),
            self.source_dropped(id).wf(),
    {
        if self.is_live(id) {
            let gone = self.with_reader(
                id,
                ReaderView { granted: 0, live: false, ..self.readers[id] },
            );
            assert forall|j: int| 0 <= j < gone.readers.len() implies {
                &&& 0 <= (#[trigger] gone.readers[j]).head < gone.ring.capacity()
                &&& 0 <= gone.readers[j].granted
                &&& !gone.readers[j].live ==> gone.readers[j].granted == 0
                &&& gone.readers[j].live ==> gone.readers[j].granted <= gone.pending(j)
                    <= gone.ring.readable()
            } by {
                assert(gone.pending(j) == self.pending(j));
                assert(self.readers[j].live ==> self.readers[j].granted <= self.pending(j));
            }
            gone.lemma_caught_up();
        }
    }
}

impl<T: Copy> Buffer<T> {
    /// Replacing one source replaces it in the content.
    proof fn lemma_reader_set(&self, before: Self, id: int, reader: Reader)
        requires
            0 <= id < before.readers@.len(),
            self.readers@ == before.readers@.update(id, reader),
            self.state == before.state,
            self.sink_open == before.sink_open,
        ensures
            self@ == before@.with_reader(id, reader@),
    {
        assert(self@.readers =~= before@.readers.update(id, reader@));
    }

    /// Asks for a view of at least `count` readable elements for source
    /// `id`.
    pub fn source_poll_grant(&mut self, id: usize, count: usize) -> (p: Poll<Result<(), Error>>)
        requires
            old(self).wf(),
        ensures
            final(self).wf(),
            p == old(self)@.source_poll(id as int, count as int),
            final(self)@ == old(self)@.source_granted(id as int, count as int),
    {
        proof {
            self.state.lemma_view_wf();
            self@.lemma_source_granted(id as int, count as int);
        }
        if !self.is_live(id) {
            return Poll::Ready(Err(Error::Closed));
        }
        let reader = self.readers[id];
        assert(self@.readers[id as int] == reader@);
        let pending = self.state.distance(reader.head, self.state.tail());
        let grant = Reader { head: reader.head, granted: pending, live: true };
        if !self.sink_open {
            if pending == 0 {
                return Poll::Ready(Err(Error::Closed));
            }
            self.readers.set(id, grant);
            proof {
                self.lemma_reader_set(*old(self), id as int, grant);
            }
            return Poll::Ready(Ok(()));
        }
        if count > self.state.capacity() - 1 {
            return Poll::Ready(Err(Error::Overflow));
        }
        if pending >= count {
            self.readers.set(id, grant);
            proof {
                self.lemma_reader_set(*old(self), id as int, grant);
            }
            Poll::Ready(Ok(()))
        } else {
            Poll::Pending
        }
    }

    /// Asks for a view of at least `count` readable elements for source
    /// `id`, without waiting: `Ok(false)` where the request would have to
    /// wait.
    pub fn source_try_grant(&mut self, id: usize, count: usize) -> (r: Result<bool, Error>)
        requires
            old(self).wf(),
        ensures
            final(self).wf(),
            r == spec_at_once(old(self)@.source_poll(id as int, count as int)),
            final(self)@ == old(self)@.source_granted(id as int, count as int),
    {
        at_once(self.source_poll_grant(id, count))
    }

    /// The elements granted to source `id`.
    pub fn source_view(&self, id: usize) -> (v: &[T])
        requires
            self.wf(),
        ensures
            v@ == self@.source_view(id as int),
    {
        proof {
            self.state.lemma_view_wf();
            lemma_distance_cases(self@.ring.capacity(), self@.ring.head, self@.ring.tail);
        }
        if self.is_live(id) {
            let reader = self.readers[id];
            assert(self@.readers[id as int] == reader@);
            self.state.slice(reader.head, reader.granted)
        } else {
            let v = self.state.slice(self.state.head(), 0);
            assert(v@ =~= Seq::<T>::empty());
            v
        }
    }

    /// Releases the first `count` elements of the view of source `id`.
    /// Their slots go back to the sink once every other source has released
    /// them too.
    pub fn source_release(&mut self, id: usize, count: usize)
        requires
            old(self).wf(),
            count <= old(self)@.source_view(id as int).len(),
        ensures
            final(self).wf(),
            final(self)@ == old(self)@.source_released(id as int, count as int),
    {
        if self.is_live(id) {
            let reader = self.readers[id];
            assert(self@.readers[id as int] == reader@);
            proof {
                self.state.lemma_view_wf();
                self@.lemma_source_moved(id as int, count as int);
            }
            let moved = Reader {
                head: self.state.advance_value(count, reader.head),
                granted: reader.granted - count,
                live: true,
            };
            self.readers.set(id, moved);
            proof {
                self.lemma_reader_set(*old(self), id as int, moved);
            }
            self.catch_up();
        }
    }

    /// Makes a new source that stands where source `id` stands, and
    /// returns its index. There is nothing to clone where `id` names no
    /// live source.
    pub fn clone_source(&mut self, id: usize) -> (made: Option<usize>)
        requires
            old(self).wf(),
        ensures
            final(self).wf(),
            final(self)@ == old(self)@.source_cloned(id as int),
            made == if old(self)@.is_live(id as int) {
                Some(old(self)@.readers.len() as usize)
            } else {
                None
            },
    {
        proof {
            self@.lemma_source_cloned(id as int);
        }
        if self.is_live(id) {
            let reader = self.readers[id];
            assert(self@.readers[id as int] == reader@);
            let made = self.readers.len();
            self.readers.push(reader);
            proof {
                assert(self@.readers =~= old(self)@.readers.push(reader@));
            }
            Some(made)
        } else {
            None
        }
    }

    /// Makes a new source that stands where source `id` stands, together
    /// with the channel on which the sink signals its releases to it: the
    /// sender joins `triggers` at the end, and the receiver is returned with
    /// the index of the new source. Where `id` names no live source nothing
    /// is made, and nothing changes.
    pub fn clone_source_notify(&mut self, id: usize, triggers: &mut Vec<Sender<()>>) -> (made:
        Option<(usize, Receiver<()>)>)
        requires
            old(self).wf(),
        ensures
            final(self).wf(),
            final(self)@ == old(self)@.source_cloned(id as int),
            made is Some <==> old(self)@.is_live(id as int),
            made is Some ==> {
                &&& made->Some_0.0 == old(self)@.readers.len()
                &&& final(triggers)@.len() == old(triggers)@.len() + 1
                &&& final(triggers)@.drop_last() == old(triggers)@
                &&& spec_bound(final(triggers)@.last()) == 1
            },
            made is None ==> final(triggers)@ == old(triggers)@,
    {
        match self.clone_source(id) {
            Some(index) => {
                let (sender, receiver) = notifier();
                triggers.push(sender);
                proof {
                    assert(old(self)@.readers.len() == old(self).readers.len());
                    assert(triggers@.drop_last() =~= old(triggers)@);
                }
                Some((index, receiver))
            },
            None => None,
        }
    }

    /// Drops source `id`. What only it had yet to release goes back to the
    /// sink.
    pub fn drop_source(&mut self, id: usize)
        requires
            old(self).wf(),
        ensures
            final(self).wf(),
            final(self)@ == old(self)@.source_dropped(id as int),
    {
        if self.is_live(id) {
            let reader = self.readers[id];
            assert(self@.readers[id as int] == reader@);
            proof {
                self@.lemma_source_dropped(id as int);
            }
            let gone = Reader { head: reader.head, granted: 0, live: false };
            self.readers.set(id, gone);
            proof {
                self.lemma_reader_set(*old(self), id as int, gone);
            }
            self.catch_up();
        }
    }
}

impl<T: Copy> Buffer<T> {
    /// Drops every source: the sink's next request finds the stream
    /// closed.
    pub fn drop_sources(&mut self)
        requires
            old(self).wf(),
        ensures
            final(self).wf(),
            final(self)@ == old(self)@.sources_dropped(),
    {
        let mut id: usize = 0;
        while id < self.readers.len()
            invariant
                id <= self.readers.len(),
                self.state == old(self).state,
                self.sink_open == old(self).sink_open,
                self.readers@.len() == old(self).readers@.len(),
                forall|j: int|
                    0 <= j < id ==> (#[trigger] self.readers@[j])@ == (ReaderView {
                        granted: 0,
                        live: false,
                        ..old(self).readers@[j]@
                    }),
                forall|j: int|
                    id <= j < self.readers@.len() ==> #[trigger] self.readers@[j] == old(self).readers@[j],
            decreases self.readers.len() - id,
        {
            let reader = self.readers[id];
            self.readers.set(id, Reader { head: reader.head, granted: 0, live: false });
            id = id + 1;
        }
        proof {
            let before = old(self)@;
            let next = before.sources_dropped();
            assert(self@.readers =~= next.readers);
            assert forall|j: int| 0 <= j < next.readers.len() implies {
                &&& 0 <= (#[trigger] next.readers[j]).head < next.ring.capacity()
                &&& 0 <= next.readers[j].granted
                &&& !next.readers[j].live ==> next.readers[j].granted == 0
                &&& next.readers[j].live ==> next.readers[j].granted <= next.pending(j)
                    <= next.ring.readable()
            } by {
                assert(0 <= before.readers[j].head < before.ring.capacity());
            }
            assert(!next.any_live());
        }
    }
}

/// Creates a broadcast buffer that can hold `min_size` elements, with one
/// source of index 0. Every slot starts out as the default value of `T`.
pub fn buffer<T: Copy + Default>(min_size: usize) -> (b: Buffer<T>)
    requires
        min_size > 0,
        2 * (min_size + 1) <= usize::MAX,
    ensures
        b.wf(),
        exists|fill: T|
            call_ensures(T::default, (), fill) && b@ == #[trigger] BufferView::fresh(
                min_size + 1,
                fill,
            ),
{
    Buffer::with_fill(min_size, T::default())
}

impl<T> BufferView<T> {
    /// What a request does to the view of the endpoint that makes it: a
    /// grant covers the request unless the stream has ended, and only ever
    /// lengthens the view; anything else leaves the view as it was.
    pub proof fn lemma_grant_widens_view(self, id: int, count: int)
        requires
            self.wf(),
            0 <= count,
        ensures
            self.sink_poll(count) == Poll::Ready(Ok::<(), Error>(())) ==> {
                &&& self.sink_granted(count).sink_view().len() >= count
                &&& self.sink_granted(count).sink_view().take(self.sink_view().len() as int)
                    == self.sink_view()
            },
            self.sink_poll(count) == Poll::<Result<(), Error>>::Pending ==> self.sink_granted(count)
                == self,
            self.source_poll(id, count) == Poll::Ready(Ok::<(), Error>(())) ==> {
                &&& self.source_granted(id, count).source_view(id).len() >= count || self.ended()
                &&& self.source_granted(id, count).source_view(id).take(
                    self.source_view(id).len() as int,
                ) == self.source_view(id)
            },
            self.source_poll(id, count) == Poll::<Result<(), Error>>::Pending
                ==> self.source_granted(id, count) == self,
    {
        self.ring.lemma_occupancy();
        self.ring.lemma_lend(self.ring.writable());
        if self.is_live(id) {
            assert(self.readers[id].granted <= self.pending(id));
            assert(self.source_granted(id, count).source_view(id).take(
                self.source_view(id).len() as int,
            ) =~= self.source_view(id));
        }
    }

    /// A release by a source takes the released elements off the front of
    /// its view.
    pub proof fn lemma_release_narrows_view(self, id: int, n: int)
        requires
            self.wf(),
            0 <= n <= self.source_view(id).len(),
        ensures
            self.source_released(id, n).source_view(id) == self.source_view(id).skip(n),
    {
        if self.is_live(id) {
            let c = self.ring.capacity();
            self.lemma_source_moved(id, n);
            self.with_reader(
                id,
                ReaderView {
                    head: spec_advance(c, self.readers[id].head, n),
                    granted: self.readers[id].granted - n,
                    live: true,
                },
            ).lemma_caught_up();
            self.ring.lemma_occupancy();
            assert(self.readers[id].granted <= self.pending(id));
            self.ring.lemma_run_split(self.readers[id].head, n, self.readers[id].granted - n);
            assert(self.source_released(id, n).source_view(id) =~= self.ring.run(
                spec_advance(c, self.readers[id].head, n),
                self.readers[id].granted - n,
            ));
            assert(self.source_view(id).skip(n) =~= self.ring.run(
                spec_advance(c, self.readers[id].head, n),
                self.readers[id].granted - n,
            ));
        } else {
            assert(self.source_view(id).skip(n) =~= Seq::<T>::empty());
        }
    }
}

/// The writing end of a broadcast buffer.
pub struct BufferSink<'a, T> {
    /// The buffer written to.
    pub buffer: &'a mut Buffer<T>,
}

/// One of the reading ends of a broadcast buffer.
pub struct BufferSource<'a, T> {
    /// The buffer read from.
    pub buffer: &'a mut Buffer<T>,
    /// The index of the source among those of the buffer.
    pub id: usize,
}

impl<T: Copy> Buffer<T> {
    /// The writing end of the buffer.
    pub fn sink(&mut self) -> (end: BufferSink<'_, T>)
        ensures
            *end.buffer == *old(self),
            *final(end.buffer) == *final(self),
    {
        BufferSink { buffer: self }
    }

    /// The reading end of the buffer that has the index `id`.
    pub fn source(&mut self, id: usize) -> (end: BufferSource<'_, T>)
        ensures
            *end.buffer == *old(self),
            *final(end.buffer) == *final(self),
            end.id == id,
    {
        BufferSource { buffer: self, id }
    }
}

impl<'a, T: Copy> crate::view::View for BufferSink<'a, T> {
    type Item = T;

    type Error = Error;

    open spec fn valid(&self) -> bool {
        self.buffer.wf()
    }

    open spec fn granted(&self) -> Seq<T> {
        self.buffer@.sink_view()
    }

    open spec fn ended(&self) -> bool {
        false
    }

    open spec fn answer(&self, count: int) -> Poll<Result<(), Error>> {
        self.buffer@.sink_poll(count)
    }

    fn view(&self) -> (v: &[T]) {
        self.buffer.sink_view()
    }

    fn poll_grant(&mut self, count: usize) -> (p: Poll<Result<(), Error>>)
        ensures
            final(self).buffer@ == old(self).buffer@.sink_granted(count as int),
            *final(final(self).buffer) == *final(old(self).buffer),
    {
        proof {
            self.buffer.lemma_view_wf();
            self.buffer@.lemma_grant_widens_view(0, count as int);
        }
        self.buffer.sink_poll_grant(count)
    }

    fn try_grant(&mut self, count: usize) -> (r: Result<bool, Error>)
        ensures
            final(self).buffer@ == old(self).buffer@.sink_granted(count as int),
            *final(final(self).buffer) == *final(old(self).buffer),
    {
        proof {
            self.buffer.lemma_view_wf();
            self.buffer@.lemma_grant_widens_view(0, count as int);
        }
        self.buffer.sink_try_grant(count)
    }

    fn release(&mut self, count: usize)
        ensures
            final(self).buffer@ == old(self).buffer@.sink_released(count as int),
            *final(final(self).buffer) == *final(old(self).buffer),
    {
        proof {
            self.buffer.lemma_view_wf();
            self.buffer@.ring.lemma_commit(count as int);
        }
        self.buffer.sink_release(count)
    }
}

impl<'a, T: Copy> ViewMut for BufferSink<'a, T> {
    fn view_mut(&mut self) -> (v: &mut [T])
        ensures
            final(v)@.len() == v@.len() ==> final(self).buffer@ == old(self).buffer@.sink_filled(
                final(v)@,
            ),
    {
        proof {
            self.buffer.lemma_view_wf();
            assert forall|w: Seq<T>| w.len() == self.buffer@.ring.lent implies #[trigger]
                self.buffer@.sink_filled(w).sink_view() == w by {
                self.buffer@.ring.lemma_fill(w);
            }
        }
        self.buffer.sink_view_mut()
    }
}

impl<'a, T: Copy> Sink for BufferSink<'a, T> {

}

impl<'a, T: Copy> crate::view::View for BufferSource<'a, T> {
    type Item = T;

    type Error = Error;

    open spec fn valid(&self) -> bool {
        self.buffer.wf()
    }

    open spec fn granted(&self) -> Seq<T> {
        self.buffer@.source_view(self.id as int)
    }

    open spec fn ended(&self) -> bool {
        self.buffer@.ended()
    }

    open spec fn answer(&self, count: int) -> Poll<Result<(), Error>> {
        self.buffer@.source_poll(self.id as int, count)
    }

    fn view(&self) -> (v: &[T]) {
        self.buffer.source_view(self.id)
    }

    fn poll_grant(&mut self, count: usize) -> (p: Poll<Result<(), Error>>)
        ensures
            final(self).buffer@ == old(self).buffer@.source_granted(
                old(self).id as int,
                count as int,
            ),
            final(self).id == old(self).id,
            *final(final(self).buffer) == *final(old(self).buffer),
    {
        proof {
            self.buffer.lemma_view_wf();
            self.buffer@.lemma_grant_widens_view(self.id as int, count as int);
        }
        self.buffer.source_poll_grant(self.id, count)
    }

    fn try_grant(&mut self, count: usize) -> (r: Result<bool, Error>)
        ensures
            final(self).buffer@ == old(self).buffer@.source_granted(
                old(self).id as int,
                count as int,
            ),
            final(self).id == old(self).id,
            *final(final(self).buffer) == *final(old(self).buffer),
    {
        proof {
            self.buffer.lemma_view_wf();
            self.buffer@.lemma_grant_widens_view(self.id as int, count as int);
        }
        self.buffer.source_try_grant(self.id, count)
    }

    fn release(&mut self, count: usize)
        ensures
            final(self).buffer@ == old(self).buffer@.source_released(
                old(self).id as int,
                count as int,
            ),
            final(self).id == old(self).id,
            *final(final(self).buffer) == *final(old(self).buffer),
    {
        proof {
            self.buffer.lemma_view_wf();
            self.buffer@.lemma_release_narrows_view(self.id as int, count as int);
        }
        self.buffer.source_release(self.id, count)
    }
}

impl<'a, T: Copy> Source for BufferSource<'a, T> {

}

impl<'a, T: Copy> BufferSource<'a, T> {
    /// Makes a new source that stands where this one stands and sees what
    /// this one sees, and returns its index, under which the buffer hands
    /// it out. There is nothing to clone where this source has been
    /// dropped.
    pub fn clone(&mut self) -> (made: Option<usize>)
        requires
            old(self).buffer.wf(),
        ensures
            final(self).buffer.wf(),
            final(self).buffer@ == old(self).buffer@.source_cloned(old(self).id as int),
            final(self).id == old(self).id,
            *final(final(self).buffer) == *final(old(self).buffer),
            made == if old(self).buffer@.is_live(old(self).id as int) {
                Some(old(self).buffer@.readers.len() as usize)
            } else {
                None
            },
    {
        self.buffer.clone_source(self.id)
    }
}

impl<T> BufferView<T> {
    /// The buffer after the sink has signalled its sources and found that
    /// some of them exist, or that none does: without any, every source is
    /// dropped.
    pub open spec fn sources_signalled(self, any_left: bool) -> Self {
        if any_left {
            self
        } else {
            self.sources_dropped()
        }
    }

    /// The buffer after the sink found `wake` in its channel: sources that
    /// have all dropped their senders are dropped.
    pub open spec fn sink_woken(self, wake: Wake) -> Self {
        if spec_attended(wake) {
            self
        } else {
            self.sources_dropped()
        }
    }

    /// The buffer after a source found `wake` in its channel: a sink that
    /// has dropped its sender is dropped.
    pub open spec fn source_woken(self, wake: Wake) -> Self {
        if spec_attended(wake) {
            self
        } else {
            self.sink_dropped()
        }
    }
}

impl<T: Copy> Buffer<T> {
    /// Releases the first `count` slots of the sink's window, given
    /// whether any source was found to exist when they were told of it.
    /// Returns the same.
    pub fn sink_release_on(&mut self, count: usize, any_left: bool) -> (alive: bool)
        requires
            old(self).wf(),
            count <= old(self)@.sink_view().len(),
        ensures
            final(self).wf(),
            final(self)@ == old(self)@.sink_released(count as int).sources_signalled(any_left),
            alive == any_left,
    {
        self.sink_release(count);
        if !any_left {
            self.drop_sources();
        }
        any_left
    }

    /// Releases the first `count` slots of the sink's window and signals
    /// every source through `triggers`, from which the senders whose
    /// receiver is gone are removed. Returns whether any sender is left;
    /// where none is, every source is dropped.
    pub fn sink_release_notify(&mut self, count: usize, triggers: &mut Vec<Sender<()>>) -> (alive:
        bool)
        requires
            old(self).wf(),
            count <= old(self)@.sink_view().len(),
        ensures
            final(self).wf(),
            final(self)@ == old(self)@.sink_released(count as int).sources_signalled(alive),
            alive == (final(triggers)@.len() > 0),
            exists|signals: Seq<Signal>|
                signals.len() == old(triggers)@.len() && final(triggers)@ == #[trigger] spec_kept(
                    old(triggers)@,
                    signals,
                ),
    {
        let any_left = notify_all(triggers);
        self.sink_release_on(count, any_left)
    }

    /// Releases the first `count` elements of the view of source `id` and
    /// signals the sink through `trigger`. A sink that is gone is no reason
    /// to stop: there may be data left to read.
    pub fn source_release_notify(&mut self, id: usize, count: usize, trigger: &Sender<()>)
        requires
            old(self).wf(),
            count <= old(self)@.source_view(id as int).len(),
        ensures
            final(self).wf(),
            final(self)@ == old(self)@.source_released(id as int, count as int),
    {
        self.source_release(id, count);
        let _ = try_signal(trigger);
    }

    /// Asks for a window of at least `count` free slots for the sink, given
    /// what the sink found in its channel.
    pub fn sink_poll_grant_on(&mut self, count: usize, wake: Wake) -> (p: Poll<Result<(), Error>>)
        requires
            old(self).wf(),
        ensures
            final(self).wf(),
            p == old(self)@.sink_woken(wake).sink_poll(count as int),
            final(self)@ == old(self)@.sink_woken(wake).sink_granted(count as int),
    {
        if !attended(wake) {
            self.drop_sources();
        }
        self.sink_poll_grant(count)
    }

    /// Asks for a window of at least `count` free slots for the sink, after
    /// a look into the channel `wake` on which the sources signal their
    /// releases. Sources that have all dropped their senders are dropped,
    /// and the request is answered as for a buffer without sources.
    pub fn sink_poll_grant_wake(&mut self, count: usize, wake: &mut Receiver<()>) -> (p: Poll<
        Result<(), Error>,
    >)
        requires
            old(self).wf(),
        ensures
            final(self).wf(),
            exists|found: Wake|
                {
                    &&& p == (#[trigger] old(self)@.sink_woken(found)).sink_poll(count as int)
                    &&& final(self)@ == old(self)@.sink_woken(found).sink_granted(count as int)
                },
    {
        let found = try_wake(wake);
        self.sink_poll_grant_on(count, found)
    }

    /// Asks for a view of at least `count` readable elements for source
    /// `id`, given what the source found in its channel.
    pub fn source_poll_grant_on(&mut self, id: usize, count: usize, wake: Wake) -> (p: Poll<
        Result<(), Error>,
    >)
        requires
            old(self).wf(),
        ensures
            final(self).wf(),
            p == old(self)@.source_woken(wake).source_poll(id as int, count as int),
            final(self)@ == old(self)@.source_woken(wake).source_granted(id as int, count as int),
    {
        if !attended(wake) {
            self.drop_sink();
        }
        self.source_poll_grant(id, count)
    }

    /// Asks for a view of at least `count` readable elements for source
    /// `id`, after a look into the channel `wake` on which the sink signals
    /// its releases. A sink that has dropped its sender is dropped, and the
    /// request is answered as for a stream that has ended.
    pub fn source_poll_grant_wake(
        &mut self,
        id: usize,
        count: usize,
        wake: &mut Receiver<()>,
    ) -> (p: Poll<Result<(), Error>>)
        requires
            old(self).wf(),
        ensures
            final(self).wf(),
            exists|found: Wake|
                {
                    &&& p == (#[trigger] old(self)@.source_woken(found)).source_poll(
                        id as int,
                        count as int,
                    )
                    &&& final(self)@ == old(self)@.source_woken(found).source_granted(
                        id as int,
                        count as int,
                    )
                },
    {
        let found = try_wake(wake);
        self.source_poll_grant_on(id, count, found)
    }
}

} // verus!
