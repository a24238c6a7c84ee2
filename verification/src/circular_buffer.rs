//! A ring whose elements are addressed by their position in the stream.
//!
//! Positions count the elements from the start of the stream and never wrap;
//! the cursor of a position is the position modulo the capacity of the ring.

use vstd::prelude::*;
use crate::error::Error;
use crate::splittable::SplittableView;
use crate::buffer::{RingView, State};
use crate::view::Poll;

verus! {

/// The mathematical content of a circular buffer.
pub struct CircularView<T> {
    /// The ring.
    pub ring: RingView<T>,
    /// The position in the stream of the element at the head of the ring.
    pub base: int,
    /// Whether the stream has been closed.
    pub closed: bool,
}

impl<T> CircularView<T> {
    /// A new buffer of `capacity` slots that all hold `fill`.
    pub open spec fn fresh(capacity: int, fill: T) -> Self {
        CircularView { ring: RingView::blank(capacity, fill), base: 0, closed: false }
    }

    /// The invariant of every circular buffer.
    pub open spec fn wf(self) -> bool {
        &&& self.ring.wf()
        &&& 0 <= self.base
        &&& self.base + self.ring.readable() <= u64::MAX
        &&& self.closed ==> self.ring.lent == 0
    }

    /// The position one past the last element written.
    pub open spec fn end(self) -> int {
        self.base + self.ring.readable()
    }

    /// What a reader at the head is told of a request for `count`
    /// elements: how many there are, once there are enough or the stream
    /// is closed; that the stream is closed, once it is closed and empty;
    /// an overflow, where the ring could never hold as many.
    pub open spec fn answer(self, count: int) -> Poll<Result<usize, Error>> {
        if self.closed {
            if self.ring.readable() == 0 {
                Poll::Ready(Err(Error::Closed))
            } else {
                Poll::Ready(Ok(self.ring.readable() as usize))
            }
        } else if count > self.ring.capacity() - 1 {
            Poll::Ready(Err(Error::Overflow))
        } else if self.ring.readable() >= count {
            Poll::Ready(Ok(self.ring.readable() as usize))
        } else {
            Poll::Pending
        }
    }
}

/// A ring that numbers its elements by their position in the stream.
pub struct CircularBuffer<T> {
    state: State<T>,
    base: u64,
    closed: bool,
}

impl<T: Copy> CircularBuffer<T> {
    /// The mathematical content of the buffer.
    pub closed spec fn content(&self) -> CircularView<T> {
        CircularView { ring: self.state@, base: self.base as int, closed: self.closed }
    }

    /// The invariant of the buffer.
    pub closed spec fn wf(&self) -> bool {
        &&& self.state.wf()
        &&& self.content().wf()
    }

    /// Creates a buffer that can hold `min_size` elements, every slot of
    /// which holds `fill`.
    pub fn with_fill(min_size: usize, fill: T) -> (b: Self)
        requires
            min_size > 0,
            2 * (min_size + 1) <= usize::MAX,
        ensures
            b.wf(),
            b.content() == CircularView::fresh(min_size + 1, fill),
    {
        let state = State::with_fill(min_size, fill);
        proof {
            state.lemma_view_wf();
            state@.lemma_occupancy();
        }
        CircularBuffer { state, base: 0, closed: false }
    }

    /// Lends every free slot to the writer, and returns their number. A
    /// closed buffer lends nothing.
    pub fn reserve(&mut self) -> (len: usize)
        requires
            old(self).wf(),
        ensures
            final(self).wf(),
            final(self).content() == (CircularView {
                ring: old(self).content().ring.lend(len as int),
                ..old(self).content()
            }),
            len == if old(self).content().closed {
                0
            } else {
                old(self).content().ring.writable()
            },
    {
        proof {
            self.state.lemma_view_wf();
            self.state@.lemma_occupancy();
        }
        let len = if self.closed {
            0
        } else {
            self.state.writable_len()
        };
        self.state.lend(len);
        len
    }

    /// The slots lent to the writer, to write into.
    pub fn window_mut(&mut self) -> (w: &mut [T])
        requires
            old(self).wf(),
        ensures
            w@ == old(self).content().ring.window(),
            final(w)@.len() == w@.len() ==> final(self).wf() && final(self).content() == (CircularView {
                ring: old(self).content().ring.fill(final(w)@),
                ..old(self).content()
            }),
    {
        proof {
            let before = self.content();
            assert forall|w: Seq<T>| w.len() == before.ring.lent implies (CircularView {
                ring: #[trigger] self.state@.fill(w),
                ..before
            }).wf() by {
                before.ring.lemma_fill(w);
                assert(before.ring.fill(w).readable() == before.ring.readable());
            }
        }
        self.state.window_mut()
    }

    /// Commits the first `count` slots lent to the writer: they become
    /// available to the reader.
    pub fn commit(&mut self, count: usize)
        requires
            old(self).wf(),
            count <= old(self).content().ring.lent,
            old(self).content().end() + count <= u64::MAX,
        ensures
            final(self).wf(),
            final(self).content() == (CircularView {
                ring: old(self).content().ring.commit(count as int),
                ..old(self).content()
            }),
            final(self).content().end() == old(self).content().end() + count,
    {
        proof {
            self.state.lemma_view_wf();
            self.state@.lemma_commit(count as int);
        }
        self.state.commit(count);
    }

    /// The slots lent to the writer.
    pub fn window(&self) -> (w: &[T])
        requires
            self.wf(),
        ensures
            w@ == self.content().ring.window(),
    {
        self.state.window()
    }

    /// The position one past the last element committed.
    pub fn end(&self) -> (position: u64)
        requires
            self.wf(),
        ensures
            position == self.content().end(),
    {
        proof {
            self.state.lemma_view_wf();
            self.state@.lemma_occupancy();
        }
        self.base + self.state.readable_len() as u64
    }

    /// Closes the stream: what was committed stays available, and nothing
    /// can be added.
    pub fn close(&mut self)
        requires
            old(self).wf(),
        ensures
            final(self).wf(),
            final(self).content() == (CircularView {
                ring: old(self).content().ring.lend(0),
                closed: true,
                ..old(self).content()
            }),
    {
        proof {
            self.state.lemma_view_wf();
            self.state@.lemma_occupancy();
        }
        self.state.lend(0);
        self.closed = true;
    }
}

impl<T: Copy> SplittableView for CircularBuffer<T> {
    type Item = T;

    type Error = Error;

    open spec fn valid(&self) -> bool {
        self.wf()
    }

    open spec fn head(&self) -> int {
        self.content().base
    }

    open spec fn available(&self) -> Seq<T> {
        self.content().ring.queue()
    }

    open spec fn ended(&self) -> bool {
        self.content().closed
    }

    open spec fn answer(&self, count: int) -> Poll<Result<usize, Error>> {
        self.content().answer(count)
    }

    proof fn lemma_positions_fit(&self) {
        self.state.lemma_view_wf();
        self.state@.lemma_occupancy();
    }

    fn poll_available(&self, index: u64, count: usize) -> (p: Poll<Result<usize, Error>>) {
        proof {
            self.state.lemma_view_wf();
            self.state@.lemma_occupancy();
        }
        let readable = self.state.readable_len();
        if self.closed {
            if readable == 0 {
                Poll::Ready(Err(Error::Closed))
            } else {
                Poll::Ready(Ok(readable))
            }
        } else if count > self.state.capacity() - 1 {
            Poll::Ready(Err(Error::Overflow))
        } else if readable >= count {
            Poll::Ready(Ok(readable))
        } else {
            Poll::Pending
        }
    }

    fn view(&self, index: u64, len: usize) -> (v: &[T]) {
        proof {
            self.state.lemma_view_wf();
            self.state@.lemma_occupancy();
        }
        let v = self.state.slice(self.state.head(), len);
        proof {
            assert(v@ =~= self.content().ring.queue().take(len as int));
        }
        v
    }

    fn set_head(&mut self, index: u64)
        ensures
            final(self).content() == (CircularView {
                ring: old(self).content().ring.consume(index - old(self).content().base),
                base: index as int,
                ..old(self).content()
            }),
    {
        proof {
            self.state.lemma_view_wf();
            self.state@.lemma_occupancy();
            self.state@.lemma_consume(index - self.base);
        }
        let count = (index - self.base) as usize;
        self.state.consume(count);
        self.base = index;
    }
}

impl<T: Copy> crate::splittable::View<CircularBuffer<T>> {
    /// Lends every free slot of the stream in view to the writer, and
    /// returns their number. The view stays as it is.
    pub fn reserve(&mut self) -> (len: usize)
        requires
            old(self).wf(),
        ensures
            final(self).wf(),
            final(self).position() == old(self).position(),
            final(self).length() == old(self).length(),
            final(self).inner().content() == (CircularView {
                ring: old(self).inner().content().ring.lend(len as int),
                ..old(self).inner().content()
            }),
            len == if old(self).inner().content().closed {
                0
            } else {
                old(self).inner().content().ring.writable()
            },
    {
        proof {
            let ring = self.inner().content().ring;
            ring.lemma_occupancy();
            ring.lemma_lend(0);
            ring.lemma_lend(ring.writable());
        }
        self.stream_mut().reserve()
    }

    /// The slots of the stream in view that are lent to the writer, to
    /// write into. The view stays as it is.
    pub fn window_mut(&mut self) -> (w: &mut [T])
        requires
            old(self).wf(),
        ensures
            w@ == old(self).inner().content().ring.window(),
            final(w)@.len() == w@.len() ==> {
                &&& final(self).wf()
                &&& final(self).position() == old(self).position()
                &&& final(self).length() == old(self).length()
                &&& final(self).inner().content() == (CircularView {
                    ring: old(self).inner().content().ring.fill(final(w)@),
                    ..old(self).inner().content()
                })
            },
    {
        proof {
            let ring = self.inner().content().ring;
            assert forall|w: Seq<T>| w.len() == ring.lent implies (#[trigger] ring.fill(
                w,
            )).queue() == ring.queue() by {
                ring.lemma_fill(w);
            }
        }
        self.stream_mut().window_mut()
    }

    /// Commits the first `count` slots lent to the writer: they become
    /// available to the view, which stays as it is until its next grant.
    pub fn commit(&mut self, count: usize)
        requires
            old(self).wf(),
            count <= old(self).inner().content().ring.lent,
            old(self).inner().content().end() + count <= u64::MAX,
        ensures
            final(self).wf(),
            final(self).position() == old(self).position(),
            final(self).length() == old(self).length(),
            final(self).inner().content() == (CircularView {
                ring: old(self).inner().content().ring.commit(count as int),
                ..old(self).inner().content()
            }),
    {
        proof {
            self.inner().content().ring.lemma_commit(count as int);
        }
        self.stream_mut().commit(count)
    }

    /// Closes the stream in view: what was committed stays available, and
    /// nothing can be added.
    pub fn close(&mut self)
        requires
            old(self).wf(),
        ensures
            final(self).wf(),
            final(self).position() == old(self).position(),
            final(self).length() == old(self).length(),
            final(self).inner().content() == (CircularView {
                ring: old(self).inner().content().ring.lend(0),
                closed: true,
                ..old(self).inner().content()
            }),
    {
        proof {
            let ring = self.inner().content().ring;
            ring.lemma_occupancy();
            ring.lemma_lend(0);
        }
        self.stream_mut().close()
    }
}

/// Creates a circular buffer that can hold `min_size` elements. Every slot
/// starts out as the default value of `T`.
pub fn circular_buffer<T: Copy + Default>(min_size: usize) -> (b: CircularBuffer<T>)
    requires
        min_size > 0,
        2 * (min_size + 1) <= usize::MAX,
    ensures
        b.wf(),
        exists|fill: T|
            call_ensures(T::default, (), fill) && b.content() == #[trigger] CircularView::fresh(
                min_size + 1,
                fill,
            ),
{
    CircularBuffer::with_fill(min_size, T::default())
}

} // verus!
