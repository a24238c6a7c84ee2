//! A single-producer, single-consumer buffer.
//!
//! The producer (the sink) is granted a window of free slots, writes into
//! it and releases a prefix, which the consumer (the source) is then
//! granted, reads and releases in turn.

use vstd::prelude::*;
use tokio::sync::mpsc::{Receiver, Sender};
use crate::error::Error;
use crate::buffer::notify::{
    attended, connected, spec_attended, spec_connected, try_signal, try_wake, Signal, Wake,
};
use crate::buffer::{RingView, State};
use crate::view::{at_once, spec_at_once, Poll, Sink, Source, ViewMut};

verus! {

/// The mathematical content of a single-consumer buffer.
pub struct BufferView<T> {
    /// The ring; its lent window is the one granted to the sink.
    pub ring: RingView<T>,
    /// Number of elements granted to the source, counted from the head.
    pub granted: int,
    /// Whether the sink still exists.
    pub sink_open: bool,
    /// Whether the source still exists.
    pub source_open: bool,
}

impl<T> BufferView<T> {
    /// A new buffer of `capacity` slots that all hold `fill`.
    pub open spec fn fresh(capacity: int, fill: T) -> Self {
        BufferView {
            ring: RingView::blank(capacity, fill),
            granted: 0,
            sink_open: true,
            source_open: true,
        }
    }

    /// The invariant of every buffer.
    pub open spec fn wf(self) -> bool {
        &&& self.ring.wf()
        &&& 0 <= self.granted <= self.ring.readable()
        &&& !self.sink_open ==> self.ring.lent == 0
        &&& !self.source_open ==> self.granted == 0
    }

    /// The largest grant that can ever be made.
    pub open spec fn limit(self) -> int {
        self.ring.capacity() - 1
    }

    /// What the sink sees: the slots granted to it.
    pub open spec fn sink_view(self) -> Seq<T> {
        self.ring.window()
    }

    /// What the source sees: the elements granted to it.
    pub open spec fn source_view(self) -> Seq<T> {
        self.ring.run(self.ring.head, self.granted)
    }

    /// The answer to the sink's request for `count` slots.
    pub open spec fn sink_poll(self, count: int) -> Poll<Result<(), Error>> {
        if count > self.limit() {
            Poll::Ready(Err(Error::Overflow))
        } else if !self.sink_open || !self.source_open {
            Poll::Ready(Err(Error::Closed))
        } else if self.ring.writable() >= count {
            Poll::Ready(Ok(()))
        } else {
            Poll::Pending
        }
    }

    /// The buffer after the sink's request for `count` slots: a grant
    /// covers every free slot, a closed stream takes the grant away, and
    /// anything else leaves the buffer as it was.
    pub open spec fn sink_granted(self, count: int) -> Self {
        match self.sink_poll(count) {
            Poll::Ready(Ok(_)) => BufferView { ring: self.ring.lend(self.ring.writable()), ..self },
            Poll::Ready(Err(Error::Closed)) => BufferView { ring: self.ring.lend(0), ..self },
            _ => self,
        }
    }

    /// The buffer after the sink has overwritten its window with `w`.
    pub open spec fn sink_filled(self, w: Seq<T>) -> Self {
        BufferView { ring: self.ring.fill(w), ..self }
    }

    /// The buffer after the sink releases `n` slots: they become readable.
    pub open spec fn sink_released(self, n: int) -> Self {
        BufferView { ring: self.ring.commit(n), ..self }
    }

    /// The buffer after the sink is dropped.
    pub open spec fn sink_dropped(self) -> Self {
        BufferView { ring: self.ring.lend(0), sink_open: false, ..self }
    }

    /// The answer to the source's request for `count` elements. Once the
    /// sink is gone the stream has ended: whatever is left is granted, and
    /// only an empty ring is reported as closed.
    pub open spec fn source_poll(self, count: int) -> Poll<Result<(), Error>> {
        if !self.source_open {
            Poll::Ready(Err(Error::Closed))
        } else if !self.sink_open {
            if self.ring.readable() == 0 {
                Poll::Ready(Err(Error::Closed))
            } else {
                Poll::Ready(Ok(()))
            }
        } else if count > self.limit() {
            Poll::Ready(Err(Error::Overflow))
        } else if self.ring.readable() >= count {
            Poll::Ready(Ok(()))
        } else {
            Poll::Pending
        }
    }

    /// The buffer after the source's request for `count` elements: a grant
    /// covers every readable element, and anything else leaves the buffer
    /// as it was.
    pub open spec fn source_granted(self, count: int) -> Self {
        match self.source_poll(count) {
            Poll::Ready(Ok(_)) => BufferView { granted: self.ring.readable(), ..self },
            _ => self,
        }
    }

    /// The buffer after the source releases `n` elements.
    pub open spec fn source_released(self, n: int) -> Self {
        BufferView { ring: self.ring.consume(n), granted: self.granted - n, ..self }
    }

    /// The buffer after the source is dropped.
    pub open spec fn source_dropped(self) -> Self {
        BufferView { granted: 0, source_open: false, ..self }
    }

    /// Whether the stream has ended for the source.
    pub open spec fn ended(self) -> bool {
        !self.sink_open
    }
}

/// A single-producer, single-consumer buffer: the ring together with the
/// grants of its two endpoints.
pub struct Buffer<T> {
    state: State<T>,
    granted: usize,
    sink_open: bool,
    source_open: bool,
}

impl<T> View for Buffer<T> {
    type V = BufferView<T>;

    closed spec fn view(&self) -> BufferView<T> {
        BufferView {
            ring: self.state@,
            granted: self.granted as int,
            sink_open: self.sink_open,
            source_open: self.source_open,
        }
    }
}

impl<T: Copy> Buffer<T> {
    /// The invariant of the buffer.
    pub closed spec fn wf(&self) -> bool {
        &&& self.state.wf()
        &&& self@.wf()
    }

    /// Creates a buffer that can hold `min_size` elements, every slot of
    /// which holds `fill`.
    pub fn with_fill(min_size: usize, fill: T) -> (b: Self)
        requires
            min_size > 0,
            2 * (min_size + 1) <= usize::MAX,
        ensures
            b.wf(),
            b@ == BufferView::fresh(min_size + 1, fill),
    {
        let state = State::with_fill(min_size, fill);
        proof {
            state.lemma_view_wf();
        }
        Buffer { state, granted: 0, sink_open: true, source_open: true }
    }

    /// A well-formed buffer has a well-formed content.
    pub proof fn lemma_view_wf(&self)
        requires
            self.wf(),
        ensures
            self@.wf(),
    {
    }

    /// Number of slots of the ring; one less can be in use.
    pub fn capacity(&self) -> (c: usize)
        requires
            self.wf(),
        ensures
            c == self@.ring.capacity(),
            c >= 2,
    {
        self.state.capacity()
    }

    /// Number of elements written and released but not yet consumed.
    pub fn readable_len(&self) -> (n: usize)
        requires
            self.wf(),
        ensures
            n == self@.ring.readable(),
            n + self@.ring.writable() + 1 == self@.ring.capacity(),
    {
        self.state.readable_len()
    }

    /// Number of slots that can be written before the ring is full.
    pub fn writable_len(&self) -> (n: usize)
        requires
            self.wf(),
        ensures
            n == self@.ring.writable(),
            self@.ring.readable() + n + 1 == self@.ring.capacity(),
    {
        self.state.writable_len()
    }

    /// Asks for a window of at least `count` free slots for the sink.
    pub fn sink_poll_grant(&mut self, count: usize) -> (p: Poll<Result<(), Error>>)
        requires
            old(self).wf(),
        ensures
            final(self).wf(),
            p == old(self)@.sink_poll(count as int),
            final(self)@ == old(self)@.sink_granted(count as int),
    {
        if count > self.state.capacity() - 1 {
            return Poll::Ready(Err(Error::Overflow));
        }
        if !self.sink_open || !self.source_open {
            self.state.lend(0);
            return Poll::Ready(Err(Error::Closed));
        }
        let writable = self.state.writable_len();
        if writable >= count {
            self.state.lend(writable);
            Poll::Ready(Ok(()))
        } else {
            Poll::Pending
        }
    }

    /// Asks for a window of at least `count` free slots for the sink,
    /// without waiting: `Ok(false)` where the request would have to wait.
    pub fn sink_try_grant(&mut self, count: usize) -> (r: Result<bool, Error>)
        requires
            old(self).wf(),
        ensures
            final(self).wf(),
            r == spec_at_once(old(self)@.sink_poll(count as int)),
            final(self)@ == old(self)@.sink_granted(count as int),
    {
        at_once(self.sink_poll_grant(count))
    }

    /// The window granted to the sink.
    pub fn sink_view(&self) -> (w: &[T])
        requires
            self.wf(),
        ensures
            w@ == self@.sink_view(),
    {
        self.state.window()
    }

    /// The window granted to the sink, to write into.
    pub fn sink_view_mut(&mut self) -> (w: &mut [T])
        requires
            old(self).wf(),
        ensures
            w@ == old(self)@.sink_view(),
            final(w)@.len() == w@.len() ==> final(self).wf() && final(self)@
                == old(self)@.sink_filled(final(w)@),
    {
        self.state.window_mut()
    }

    /// Releases the first `count` slots of the sink's window to the source.
    pub fn sink_release(&mut self, count: usize)
        requires
            old(self).wf(),
            count <= old(self)@.sink_view().len(),
        ensures
            final(self).wf(),
            final(self)@ == old(self)@.sink_released(count as int),
    {
        proof {
            self.state.lemma_view_wf();
            crate::buffer::cursor::lemma_distance_grows(
                self@.ring.capacity(),
                self@.ring.head,
                self@.ring.tail,
                count as int,
            );
        }
        self.state.commit(count);
    }

    /// Drops the sink: the stream ends once the source has drained it.
    pub fn drop_sink(&mut self)
        requires
            old(self).wf(),
        ensures
            final(self).wf(),
            final(self)@ == old(self)@.sink_dropped(),
    {
        self.state.lend(0);
        self.sink_open = false;
    }

    /// Asks for a view of at least `count` readable elements for the
    /// source.
    pub fn source_poll_grant(&mut self, count: usize) -> (p: Poll<Result<(), Error>>)
        requires
            old(self).wf(),
        ensures
            final(self).wf(),
            p == old(self)@.source_poll(count as int),
            final(self)@ == old(self)@.source_granted(count as int),
    {
        if !self.source_open {
            return Poll::Ready(Err(Error::Closed));
        }
        let readable = self.state.readable_len();
        if !self.sink_open {
            if readable == 0 {
                return Poll::Ready(Err(Error::Closed));
            }
            self.granted = readable;
            return Poll::Ready(Ok(()));
        }
        if count > self.state.capacity() - 1 {
            return Poll::Ready(Err(Error::Overflow));
        }
        if readable >= count {
            self.granted = readable;
            Poll::Ready(Ok(()))
        } else {
            Poll::Pending
        }
    }

    /// Asks for a view of at least `count` readable elements for the
    /// source, without waiting: `Ok(false)` where the request would have to
    /// wait.
    pub fn source_try_grant(&mut self, count: usize) -> (r: Result<bool, Error>)
        requires
            old(self).wf(),
        ensures
            final(self).wf(),
            r == spec_at_once(old(self)@.source_poll(count as int)),
            final(self)@ == old(self)@.source_granted(count as int),
    {
        at_once(self.source_poll_grant(count))
    }

    /// The elements granted to the source.
    pub fn source_view(&self) -> (v: &[T])
        requires
            self.wf(),
        ensures
            v@ == self@.source_view(),
    {
        proof {
            self.state.lemma_view_wf();
        }
        self.state.slice(self.state.head(), self.granted)
    }

    /// Releases the first `count` elements of the source's view: their
    /// slots go back to the sink.
    pub fn source_release(&mut self, count: usize)
        requires
            old(self).wf(),
            count <= old(self)@.source_view().len(),
        ensures
            final(self).wf(),
            final(self)@ == old(self)@.source_released(count as int),
    {
        proof {
            self.state.lemma_view_wf();
            crate::buffer::cursor::lemma_distance_cases(
                self@.ring.capacity(),
                self@.ring.head,
                self@.ring.tail,
            );
            crate::buffer::cursor::lemma_distance_shrinks(
                self@.ring.capacity(),
                self@.ring.head,
                self@.ring.tail,
                count as int,
            );
        }
        self.state.consume(count);
        self.granted = self.granted - count;
    }

    /// Drops the source: the sink's next request finds the stream closed.
    pub fn drop_source(&mut self)
        requires
            old(self).wf(),
        ensures
            final(self).wf(),
            final(self)@ == old(self)@.source_dropped(),
    {
        self.granted = 0;
        self.source_open = false;
    }
}

/// Creates a single-producer, single-consumer buffer that can hold
/// `min_size` elements. Every slot starts out as the default value of `T`.
pub fn buffer<T: Copy + Default>(min_size: usize) -> (b: Buffer<T>)
    requires
        min_size > 0,
        2 * (min_size + 1) <= usize::MAX,
    ensures
        b.wf(),
        exists|fill: T|
            call_ensures(T::default, (), fill) && b@ == #[trigger] BufferView::fresh(
                min_size + 1,
                fill,
            ),
{
    Buffer::with_fill(min_size, T::default())
}

/// The writing end of a buffer: writes values for the source to read.
pub struct BufferSink<'a, T> {
    /// The buffer written to.
    pub buffer: &'a mut Buffer<T>,
}

/// The reading end of a buffer: reads the values that the sink wrote.
pub struct BufferSource<'a, T> {
    /// The buffer read from.
    pub buffer: &'a mut Buffer<T>,
}

impl<T: Copy> Buffer<T> {
    /// The writing end of the buffer.
    pub fn sink(&mut self) -> (end: BufferSink<'_, T>)
        ensures
            *end.buffer == *old(self),
            *final(end.buffer) == *final(self),
    {
        BufferSink { buffer: self }
    }

    /// The reading end of the buffer.
    pub fn source(&mut self) -> (end: BufferSource<'_, T>)
        ensures
            *end.buffer == *old(self),
            *final(end.buffer) == *final(self),
    {
        BufferSource { buffer: self }
    }
}

impl<'a, T: Copy> crate::view::View for BufferSink<'a, T> {
    type Item = T;

    type Error = Error;

    open spec fn valid(&self) -> bool {
        self.buffer.wf()
    }

    open spec fn granted(&self) -> Seq<T> {
        self.buffer@.sink_view()
    }

    open spec fn ended(&self) -> bool {
        false
    }

    open spec fn answer(&self, count: int) -> Poll<Result<(), Error>> {
        self.buffer@.sink_poll(count)
    }

    fn view(&self) -> (v: &[T]) {
        self.buffer.sink_view()
    }

    fn poll_grant(&mut self, count: usize) -> (p: Poll<Result<(), Error>>)
        ensures
            final(self).buffer@ == old(self).buffer@.sink_granted(count as int),
            *final(final(self).buffer) == *final(old(self).buffer),
    {
        proof {
            self.buffer.lemma_view_wf();
            self.buffer@.lemma_grant_covers_request(count as int);
            self.buffer@.lemma_grant_keeps_cursors(count as int);
        }
        self.buffer.sink_poll_grant(count)
    }

    fn try_grant(&mut self, count: usize) -> (r: Result<bool, Error>)
        ensures
            final(self).buffer@ == old(self).buffer@.sink_granted(count as int),
            *final(final(self).buffer) == *final(old(self).buffer),
    {
        proof {
            self.buffer.lemma_view_wf();
            self.buffer@.lemma_grant_covers_request(count as int);
            self.buffer@.lemma_grant_keeps_cursors(count as int);
        }
        self.buffer.sink_try_grant(count)
    }

    fn release(&mut self, count: usize)
        ensures
            final(self).buffer@ == old(self).buffer@.sink_released(count as int),
            *final(final(self).buffer) == *final(old(self).buffer),
    {
        proof {
            self.buffer.lemma_view_wf();
            self.buffer@.ring.lemma_commit(count as int);
        }
        self.buffer.sink_release(count)
    }
}

impl<'a, T: Copy> ViewMut for BufferSink<'a, T> {
    fn view_mut(&mut self) -> (v: &mut [T])
        ensures
            final(v)@.len() == v@.len() ==> final(self).buffer@ == old(self).buffer@.sink_filled(
                final(v)@,
            ),
    {
        proof {
            self.buffer.lemma_view_wf();
            assert forall|w: Seq<T>| w.len() == self.buffer@.ring.lent implies #[trigger]
                self.buffer@.sink_filled(w).sink_view() == w by {
                self.buffer@.ring.lemma_fill(w);
            }
        }
        self.buffer.sink_view_mut()
    }
}

impl<'a, T: Copy> Sink for BufferSink<'a, T> {

}

impl<'a, T: Copy> crate::view::View for BufferSource<'a, T> {
    type Item = T;

    type Error = Error;

    open spec fn valid(&self) -> bool {
        self.buffer.wf()
    }

    open spec fn granted(&self) -> Seq<T> {
        self.buffer@.source_view()
    }

    open spec fn ended(&self) -> bool {
        self.buffer@.ended()
    }

    open spec fn answer(&self, count: int) -> Poll<Result<(), Error>> {
        self.buffer@.source_poll(count)
    }

    fn view(&self) -> (v: &[T]) {
        self.buffer.source_view()
    }

    fn poll_grant(&mut self, count: usize) -> (p: Poll<Result<(), Error>>)
        ensures
            final(self).buffer@ == old(self).buffer@.source_granted(count as int),
            *final(final(self).buffer) == *final(old(self).buffer),
    {
        proof {
            self.buffer.lemma_view_wf();
            self.buffer@.lemma_grant_covers_request(count as int);
            self.buffer@.lemma_grant_keeps_cursors(count as int);
        }
        self.buffer.source_poll_grant(count)
    }

    fn try_grant(&mut self, count: usize) -> (r: Result<bool, Error>)
        ensures
            final(self).buffer@ == old(self).buffer@.source_granted(count as int),
            *final(final(self).buffer) == *final(old(self).buffer),
    {
        proof {
            self.buffer.lemma_view_wf();
            self.buffer@.lemma_grant_covers_request(count as int);
            self.buffer@.lemma_grant_keeps_cursors(count as int);
        }
        self.buffer.source_try_grant(count)
    }

    fn release(&mut self, count: usize)
        ensures
            final(self).buffer@ == old(self).buffer@.source_released(count as int),
            *final(final(self).buffer) == *final(old(self).buffer),
    {
        proof {
            self.buffer.lemma_view_wf();
            self.buffer@.ring.lemma_consume(count as int);
            self.buffer@.lemma_source_view_is_queue_front();
            self.buffer@.source_released(count as int).lemma_source_view_is_queue_front();
            assert(self.buffer@.source_released(count as int).source_view()
                =~= self.buffer@.source_view().skip(count as int));
        }
        self.buffer.source_release(count)
    }
}

impl<'a, T: Copy> Source for BufferSource<'a, T> {

}

impl<T> BufferView<T> {
    /// The buffer after a signal from the sink to the source had the
    /// outcome `signal`: a source whose receiver is gone is dropped.
    pub open spec fn source_signalled(self, signal: Signal) -> Self {
        if spec_connected(signal) {
            self
        } else {
            self.source_dropped()
        }
    }

    /// The buffer after the sink found `wake` in its channel: a source
    /// that has dropped its sender is dropped.
    pub open spec fn sink_woken(self, wake: Wake) -> Self {
        if spec_attended(wake) {
            self
        } else {
            self.source_dropped()
        }
    }

    /// The buffer after the source found `wake` in its channel: a sink
    /// that has dropped its sender is dropped.
    pub open spec fn source_woken(self, wake: Wake) -> Self {
        if spec_attended(wake) {
            self
        } else {
            self.sink_dropped()
        }
    }
}

impl<T: Copy> Buffer<T> {
    /// Releases the first `count` slots of the sink's window, given the
    /// outcome of the signal that tells the source of it. Returns whether
    /// the source was found to exist.
    pub fn sink_release_on(&mut self, count: usize, signal: Signal) -> (alive: bool)
        requires
            old(self).wf(),
            count <= old(self)@.sink_view().len(),
        ensures
            final(self).wf(),
            final(self)@ == old(self)@.sink_released(count as int).source_signalled(signal),
            alive == spec_connected(signal),
    {
        self.sink_release(count);
        let alive = connected(signal);
        if !alive {
            self.drop_source();
        }
        alive
    }

    /// Releases the first `count` slots of the sink's window and signals
    /// the source through `trigger`. Returns whether the source was found
    /// to exist; one that was not is dropped.
    pub fn sink_release_notify(&mut self, count: usize, trigger: &Sender<()>) -> (alive: bool)
        requires
            old(self).wf(),
            count <= old(self)@.sink_view().len(),
        ensures
            final(self).wf(),
            final(self)@ == if alive {
                old(self)@.sink_released(count as int)
            } else {
                old(self)@.sink_released(count as int).source_dropped()
            },
    {
        let signal = try_signal(trigger);
        self.sink_release_on(count, signal)
    }

    /// Releases the first `count` elements of the source's view and
    /// signals the sink through `trigger`. A sink that is gone is no
    /// reason to stop: there may be data left to read.
    pub fn source_release_notify(&mut self, count: usize, trigger: &Sender<()>)
        requires
            old(self).wf(),
            count <= old(self)@.source_view().len(),
        ensures
            final(self).wf(),
            final(self)@ == old(self)@.source_released(count as int),
    {
        self.source_release(count);
        let _ = try_signal(trigger);
    }

    /// Asks for a window of at least `count` free slots for the sink, given
    /// what the sink found in its channel.
    pub fn sink_poll_grant_on(&mut self, count: usize, wake: Wake) -> (p: Poll<Result<(), Error>>)
        requires
            old(self).wf(),
        ensures
            final(self).wf(),
            p == old(self)@.sink_woken(wake).sink_poll(count as int),
            final(self)@ == old(self)@.sink_woken(wake).sink_granted(count as int),
    {
        if !attended(wake) {
            self.drop_source();
        }
        self.sink_poll_grant(count)
    }

    /// Asks for a window of at least `count` free slots for the sink, after
    /// a look into the channel `wake` on which the source signals its
    /// releases. A source that has dropped its sender is dropped, and the
    /// request is answered as for a buffer without source.
    pub fn sink_poll_grant_wake(&mut self, count: usize, wake: &mut Receiver<()>) -> (p: Poll<
        Result<(), Error>,
    >)
        requires
            old(self).wf(),
        ensures
            final(self).wf(),
            exists|found: Wake|
                {
                    &&& p == (#[trigger] old(self)@.sink_woken(found)).sink_poll(count as int)
                    &&& final(self)@ == old(self)@.sink_woken(found).sink_granted(count as int)
                },
    {
        let found = try_wake(wake);
        self.sink_poll_grant_on(count, found)
    }

    /// Asks for a view of at least `count` readable elements for the
    /// source, given what the source found in its channel.
    pub fn source_poll_grant_on(&mut self, count: usize, wake: Wake) -> (p: Poll<
        Result<(), Error>,
    >)
        requires
            old(self).wf(),
        ensures
            final(self).wf(),
            p == old(self)@.source_woken(wake).source_poll(count as int),
            final(self)@ == old(self)@.source_woken(wake).source_granted(count as int),
    {
        if !attended(wake) {
            self.drop_sink();
        }
        self.source_poll_grant(count)
    }

    /// Asks for a view of at least `count` readable elements for the
    /// source, after a look into the channel `wake` on which the sink
    /// signals its releases. A sink that has dropped its sender is dropped,
    /// and the request is answered as for a stream that has ended.
    pub fn source_poll_grant_wake(&mut self, count: usize, wake: &mut Receiver<()>) -> (p: Poll<
        Result<(), Error>,
    >)
        requires
            old(self).wf(),
        ensures
            final(self).wf(),
            exists|found: Wake|
                {
                    &&& p == (#[trigger] old(self)@.source_woken(found)).source_poll(count as int)
                    &&& final(self)@ == old(self)@.source_woken(found).source_granted(count as int)
                },
    {
        let found = try_wake(wake);
        self.source_poll_grant_on(count, found)
    }
}

} // verus!
