//! What holds of every single-consumer buffer, whatever its endpoints do.

use vstd::prelude::*;
use crate::error::Error;
use crate::buffer::spsc::BufferView;
use crate::view::Poll;

verus! {

/// One thing an endpoint of a single-consumer buffer can do.
pub enum Step<T> {
    /// The sink asks for this many slots.
    SinkGrant(int),
    /// The sink overwrites its window with these elements.
    SinkFill(Seq<T>),
    /// The sink releases this many slots.
    SinkRelease(int),
    /// The sink is dropped.
    SinkDrop,
    /// The source asks for this many elements.
    SourceGrant(int),
    /// The source releases this many elements.
    SourceRelease(int),
    /// The source is dropped.
    SourceDrop,
}

impl<T> BufferView<T> {
    /// Whether the buffer is in a state in which `step` may be taken.
    pub open spec fn allows(self, step: Step<T>) -> bool {
        match step {
            Step::SinkGrant(count) => count >= 0,
            Step::SinkFill(w) => w.len() == self.ring.lent,
            Step::SinkRelease(n) => 0 <= n <= self.ring.lent,
            Step::SinkDrop => true,
            Step::SourceGrant(count) => count >= 0,
            Step::SourceRelease(n) => 0 <= n <= self.granted,
            Step::SourceDrop => true,
        }
    }

    /// The buffer after `step`; a step that may not be taken changes
    /// nothing.
    pub open spec fn after(self, step: Step<T>) -> Self {
        if !self.allows(step) {
            self
        } else {
            match step {
                Step::SinkGrant(count) => self.sink_granted(count),
                Step::SinkFill(w) => self.sink_filled(w),
                Step::SinkRelease(n) => self.sink_released(n),
                Step::SinkDrop => self.sink_dropped(),
                Step::SourceGrant(count) => self.source_granted(count),
                Step::SourceRelease(n) => self.source_released(n),
                Step::SourceDrop => self.source_dropped(),
            }
        }
    }

    /// The buffer after all of `steps`, in order.
    pub open spec fn after_all(self, steps: Seq<Step<T>>) -> Self
        decreases steps.len(),
    {
        if steps.len() == 0 {
            self
        } else {
            self.after_all(steps.drop_last()).after(steps.last())
        }
    }

    /// The elements that `step` moves from the sink's window into the
    /// queue.
    pub open spec fn written_by(self, step: Step<T>) -> Seq<T> {
        match step {
            Step::SinkRelease(n) => if self.allows(step) {
                self.sink_view().take(n)
            } else {
                Seq::empty()
            },
            _ => Seq::empty(),
        }
    }

    /// The elements that `step` takes off the source's view.
    pub open spec fn read_by(self, step: Step<T>) -> Seq<T> {
        match step {
            Step::SourceRelease(n) => if self.allows(step) {
                self.source_view().take(n)
            } else {
                Seq::empty()
            },
            _ => Seq::empty(),
        }
    }

    /// Everything the sink releases in the course of `steps`, in order.
    pub open spec fn written(self, steps: Seq<Step<T>>) -> Seq<T>
        decreases steps.len(),
    {
        if steps.len() == 0 {
            Seq::empty()
        } else {
            self.written(steps.drop_last()) + self.after_all(steps.drop_last()).written_by(
                steps.last(),
            )
        }
    }

    /// Everything the source releases in the course of `steps`, in order.
    pub open spec fn read(self, steps: Seq<Step<T>>) -> Seq<T>
        decreases steps.len(),
    {
        if steps.len() == 0 {
            Seq::empty()
        } else {
            self.read(steps.drop_last()) + self.after_all(steps.drop_last()).read_by(steps.last())
        }
    }

    /// The source's view is the front of the queue.
    pub proof fn lemma_source_view_is_queue_front(self)
        requires
            self.wf(),
        ensures
            self.source_view() == self.ring.queue().take(self.granted),
    {
        assert(self.source_view() =~= self.ring.queue().take(self.granted));
    }

    /// Occupancy: at every instant the readable elements, the writable
    /// slots and the one slot kept free add up to the capacity.
    pub proof fn lemma_occupancy(self)
        requires
            self.wf(),
        ensures
            self.ring.readable() + self.ring.writable() + 1 == self.ring.capacity(),
    {
        self.ring.lemma_occupancy();
    }

    /// Every step leaves a well-formed buffer, and moves elements only from
    /// the sink's window to the back of the queue and from the front of the
    /// queue to the source.
    pub proof fn lemma_step(self, step: Step<T>)
        requires
            self.wf(),
        ensures
            self.after(step).wf(),
            self.ring.queue() + self.written_by(step) == self.read_by(step) + self.after(
                step,
            ).ring.queue(),
    {
        let q = self.ring.queue();
        let next = self.after(step);
        self.ring.lemma_occupancy();
        if self.allows(step) {
            match step {
                Step::SinkGrant(count) => {
                    self.ring.lemma_lend(self.ring.writable());
                    self.ring.lemma_lend(0);
                },
                Step::SinkFill(w) => {
                    self.ring.lemma_fill(w);
                },
                Step::SinkRelease(n) => {
                    self.ring.lemma_commit(n);
                },
                Step::SinkDrop => {
                    self.ring.lemma_lend(0);
                },
                Step::SourceGrant(count) => {},
                Step::SourceRelease(n) => {
                    self.ring.lemma_consume(n);
                    self.lemma_source_view_is_queue_front();
                    assert(self.source_view().take(n) =~= q.take(n));
                    assert(q =~= q.take(n) + q.skip(n));
                },
                Step::SourceDrop => {},
            }
        }
        assert(q + self.written_by(step) =~= self.read_by(step) + next.ring.queue());
    }

    /// First in, first out: over any course of steps, what was in the
    /// queue at the start followed by everything the sink released is
    /// everything the source released followed by what is in the queue at
    /// the end. For a buffer that starts empty, what the source has read is
    /// the beginning of what the sink has written, element for element.
    pub proof fn lemma_first_in_first_out(self, steps: Seq<Step<T>>)
        requires
            self.wf(),
        ensures
            self.after_all(steps).wf(),
            self.ring.queue() + self.written(steps) == self.read(steps) + self.after_all(
                steps,
            ).ring.queue(),
        decreases steps.len(),
    {
        if steps.len() == 0 {
            assert(self.ring.queue() + self.written(steps) =~= self.read(steps)
                + self.ring.queue());
        } else {
            let before = steps.drop_last();
            let mid = self.after_all(before);
            self.lemma_first_in_first_out(before);
            mid.lemma_step(steps.last());
            let w = mid.written_by(steps.last());
            let r = mid.read_by(steps.last());
            assert(self.ring.queue() + self.written(steps) =~= (self.ring.queue() + self.written(
                before,
            )) + w);
            assert((self.read(before) + mid.ring.queue()) + w =~= self.read(before) + (
            mid.ring.queue() + w));
            assert(self.read(before) + (r + self.after_all(steps).ring.queue()) =~= self.read(steps)
                + self.after_all(steps).ring.queue());
        }
    }
}

impl<T> BufferView<T> {
    /// A grant that succeeds covers the request, unless the stream has
    /// ended.
    pub proof fn lemma_grant_covers_request(self, count: int)
        requires
            self.wf(),
            0 <= count,
        ensures
            self.sink_poll(count) == Poll::Ready(Ok::<(), Error>(())) ==> self.sink_granted(
                count,
            ).sink_view().len() >= count,
            self.source_poll(count) == Poll::Ready(Ok::<(), Error>(())) ==> self.source_granted(
                count,
            ).source_view().len() >= count || self.ended(),
    {
        self.ring.lemma_occupancy();
    }

    /// A request changes no cursor and nothing that is stored, and a grant
    /// only ever lengthens the view it replaces.
    pub proof fn lemma_grant_keeps_cursors(self, count: int)
        requires
            self.wf(),
            0 <= count,
        ensures
            self.sink_granted(count).ring.head == self.ring.head,
            self.sink_granted(count).ring.tail == self.ring.tail,
            self.sink_granted(count).ring.slots == self.ring.slots,
            self.source_granted(count).ring == self.ring,
            self.sink_poll(count) == Poll::Ready(Ok::<(), Error>(())) ==> self.sink_granted(
                count,
            ).sink_view().take(self.sink_view().len() as int) == self.sink_view(),
            self.source_poll(count) == Poll::Ready(Ok::<(), Error>(())) ==> self.source_granted(
                count,
            ).source_view().take(self.source_view().len() as int) == self.source_view(),
    {
        self.ring.lemma_occupancy();
        self.ring.lemma_lend(self.ring.writable());
        assert(self.source_granted(count).source_view().take(self.source_view().len() as int)
            =~= self.source_view());
    }

    /// Asking twice in a row is asking once: the second request gets the
    /// answer of the first and changes nothing.
    pub proof fn lemma_grant_twice(self, count: int)
        requires
            self.wf(),
            0 <= count,
        ensures
            self.sink_granted(count).sink_poll(count) == self.sink_poll(count),
            self.sink_granted(count).sink_granted(count) == self.sink_granted(count),
            self.source_granted(count).source_poll(count) == self.source_poll(count),
            self.source_granted(count).source_granted(count) == self.source_granted(count),
    {
        self.ring.lemma_occupancy();
    }

    /// What the sink releases is what the source is granted next: after
    /// the sink releases `n` slots, a grant to the source shows the whole
    /// queue as it was, followed by the `n` elements just released.
    pub proof fn lemma_source_sees_release(self, n: int, count: int)
        requires
            self.wf(),
            0 <= n <= self.ring.lent,
            0 <= count,
            self.sink_released(n).source_poll(count) == Poll::Ready(Ok::<(), Error>(())),
        ensures
            self.sink_released(n).source_granted(count).source_view() == self.ring.queue()
                + self.sink_view().take(n),
    {
        let next = self.sink_released(n);
        self.lemma_step(Step::SinkRelease(n));
        next.source_granted(count).lemma_source_view_is_queue_front();
        assert(next.ring.queue().take(next.ring.readable()) =~= next.ring.queue());
        assert(self.ring.queue() + self.sink_view().take(n) =~= next.ring.queue());
    }

    /// What the source releases is what the sink is granted next: after
    /// the source releases `n` elements, a grant to the sink is `n` slots
    /// longer than one made before.
    pub proof fn lemma_sink_sees_release(self, n: int, count: int)
        requires
            self.wf(),
            0 <= n <= self.granted,
            0 <= count,
            self.source_released(n).sink_poll(count) == Poll::Ready(Ok::<(), Error>(())),
        ensures
            self.source_released(n).sink_granted(count).sink_view().len()
                == self.ring.writable() + n,
    {
        self.ring.lemma_consume(n);
        self.ring.lemma_occupancy();
        self.ring.consume(n).lemma_occupancy();
    }

    /// A round trip restores the occupancy: once the sink has released `n`
    /// slots and the source has released `n` elements, as many elements are
    /// readable and as many slots writable as before, and both cursors have
    /// moved by `n`.
    pub proof fn lemma_round_trip(self, n: int)
        requires
            self.wf(),
            0 <= n <= self.ring.lent,
            self.sink_open,
            self.source_open,
        ensures
            self.sink_released(n).source_poll(n) == Poll::Ready(Ok::<(), Error>(())),
            ({
                let end = self.sink_released(n).source_granted(n).source_released(n);
                &&& end.wf()
                &&& end.ring.readable() == self.ring.readable()
                &&& end.ring.writable() == self.ring.writable()
                &&& end.ring.head == crate::buffer::cursor::spec_advance(
                    self.ring.capacity(),
                    self.ring.head,
                    n,
                )
                &&& end.ring.tail == crate::buffer::cursor::spec_advance(
                    self.ring.capacity(),
                    self.ring.tail,
                    n,
                )
            }),
    {
        self.ring.lemma_occupancy();
        self.ring.lemma_commit(n);
        let mid = self.sink_released(n).source_granted(n);
        mid.ring.lemma_occupancy();
        mid.ring.lemma_consume(n);
        mid.ring.consume(n).lemma_occupancy();
    }

    /// The limit of a grant: a request for as many slots as the ring has
    /// is refused as an overflow, and a request for one less is granted
    /// whenever the ring can hold it, in full.
    pub proof fn lemma_grant_limit(self)
        requires
            self.wf(),
            self.sink_open,
            self.source_open,
        ensures
            self.sink_poll(self.ring.capacity()) == Poll::Ready(Err::<(), Error>(Error::Overflow)),
            self.source_poll(self.ring.capacity()) == Poll::Ready(
                Err::<(), Error>(Error::Overflow),
            ),
            self.ring.readable() == 0 ==> self.sink_poll(self.limit()) == Poll::Ready(
                Ok::<(), Error>(()),
            ) && self.sink_granted(self.limit()).sink_view().len() == self.limit(),
            self.ring.writable() == 0 ==> self.source_poll(self.limit()) == Poll::Ready(
                Ok::<(), Error>(()),
            ) && self.source_granted(self.limit()).source_view().len() == self.limit(),
    {
        self.ring.lemma_occupancy();
    }

    /// A full ring makes the sink wait, and any release by the source ends
    /// the wait.
    pub proof fn lemma_full_ring_waits_for_release(self, n: int)
        requires
            self.wf(),
            self.sink_open,
            self.source_open,
            self.ring.writable() == 0,
            1 <= n <= self.granted,
        ensures
            self.sink_poll(1) == Poll::<Result<(), Error>>::Pending,
            self.sink_granted(1) == self,
            self.source_released(n).sink_poll(1) == Poll::Ready(Ok::<(), Error>(())),
    {
        self.ring.lemma_occupancy();
        self.ring.lemma_consume(n);
        self.ring.consume(n).lemma_occupancy();
    }

    /// A source whose sink is gone drains exactly what was left: its next
    /// request, whatever the count, is granted the whole queue, and once
    /// that is released every further request finds the stream closed and
    /// the view empty.
    pub proof fn lemma_drain_after_sink_drop(self, count: int, again: int)
        requires
            self.wf(),
            self.source_open,
            self.ring.readable() > 0,
            0 <= count,
            0 <= again,
        ensures
            self.sink_dropped().source_poll(count) == Poll::Ready(Ok::<(), Error>(())),
            self.sink_dropped().source_granted(count).source_view() == self.ring.queue(),
            ({
                let drained = self.sink_dropped().source_granted(count).source_released(
                    self.ring.readable(),
                );
                &&& drained.wf()
                &&& drained.source_poll(again) == Poll::Ready(Err::<(), Error>(Error::Closed))
                &&& drained.source_granted(again).source_view().len() == 0
            }),
    {
        self.ring.lemma_occupancy();
        self.ring.lemma_lend(0);
        let granted = self.sink_dropped().source_granted(count);
        granted.lemma_source_view_is_queue_front();
        assert(granted.ring.queue().take(granted.ring.readable()) =~= granted.ring.queue());
        granted.ring.lemma_consume(self.ring.readable());
    }

    /// A sink whose source is gone finds the stream closed at its next
    /// request, and is left with an empty window.
    pub proof fn lemma_sink_closed_after_source_drop(self, count: int)
        requires
            self.wf(),
            0 <= count <= self.limit(),
        ensures
            self.source_dropped().sink_poll(count) == Poll::Ready(Err::<(), Error>(Error::Closed)),
            self.source_dropped().sink_granted(count).sink_view().len() == 0,
    {
    }
}

impl<T> BufferView<T> {
    /// Gone is gone: no course of steps brings back an endpoint that was
    /// dropped.
    pub proof fn lemma_dropped_stays_dropped(self, steps: Seq<Step<T>>)
        ensures
            self.after_all(steps).sink_open ==> self.sink_open,
            self.after_all(steps).source_open ==> self.source_open,
        decreases steps.len(),
    {
        if steps.len() > 0 {
            self.lemma_dropped_stays_dropped(steps.drop_last());
        }
    }

    /// To release nothing is to do nothing.
    pub proof fn lemma_release_of_nothing(self)
        requires
            self.wf(),
        ensures
            self.sink_released(0) == self,
            self.source_released(0) == self,
    {
        crate::buffer::cursor::lemma_advance_cases(self.ring.capacity(), self.ring.tail, 0);
        crate::buffer::cursor::lemma_advance_cases(self.ring.capacity(), self.ring.head, 0);
    }

    /// An endpoint that has found the stream closed holds nothing, so that
    /// all it can release is nothing.
    pub proof fn lemma_closed_holds_nothing(self, count: int)
        requires
            self.wf(),
        ensures
            self.sink_poll(count) == Poll::Ready(Err::<(), Error>(Error::Closed))
                ==> self.sink_granted(count).sink_view().len() == 0,
            self.source_poll(count) == Poll::Ready(Err::<(), Error>(Error::Closed))
                ==> self.source_granted(count).source_view().len() == 0,
    {
        self.ring.lemma_occupancy();
    }
}

} // verus!
