//! What holds of every broadcast buffer, whatever its endpoints do.

use vstd::prelude::*;
use crate::buffer::cursor::{spec_advance, spec_distance};
use crate::error::Error;
use crate::buffer::spmc::{BufferView, ReaderView};
use crate::view::Poll;

verus! {

/// One thing an endpoint of a broadcast buffer can do.
pub enum Step<T> {
    /// The sink asks for this many slots.
    SinkGrant(int),
    /// The sink overwrites its window with these elements.
    SinkFill(Seq<T>),
    /// The sink releases this many slots.
    SinkRelease(int),
    /// The sink is dropped.
    SinkDrop,
    /// The source of this index asks for this many elements.
    SourceGrant(int, int),
    /// The source of this index releases this many elements.
    SourceRelease(int, int),
    /// The source of this index is cloned.
    SourceClone(int),
    /// The source of this index is dropped.
    SourceDrop(int),
}

impl<T> BufferView<T> {
    /// Whether the buffer is in a state in which `step` may be taken.
    pub open spec fn allows(self, step: Step<T>) -> bool {
        match step {
            Step::SinkGrant(count) => count >= 0,
            Step::SinkFill(w) => w.len() == self.ring.lent,
            Step::SinkRelease(n) => 0 <= n <= self.ring.lent,
            Step::SinkDrop => true,
            Step::SourceGrant(id, count) => count >= 0,
            Step::SourceRelease(id, n) => 0 <= n <= self.source_view(id).len(),
            Step::SourceClone(id) => true,
            Step::SourceDrop(id) => true,
        }
    }

    /// The buffer after `step`; a step that may not be taken changes
    /// nothing.
    pub open spec fn after(self, step: Step<T>) -> Self {
        if !self.allows(step) {
            self
        } else {
            match step {
                Step::SinkGrant(count) => self.sink_granted(count),
                Step::SinkFill(w) => self.sink_filled(w),
                Step::SinkRelease(n) => self.sink_released(n),
                Step::SinkDrop => self.sink_dropped(),
                Step::SourceGrant(id, count) => self.source_granted(id, count),
                Step::SourceRelease(id, n) => self.source_released(id, n),
                Step::SourceClone(id) => self.source_cloned(id),
                Step::SourceDrop(id) => self.source_dropped(id),
            }
        }
    }

    /// The buffer after all of `steps`, in order.
    pub open spec fn after_all(self, steps: Seq<Step<T>>) -> Self
        decreases steps.len(),
    {
        if steps.len() == 0 {
            self
        } else {
            self.after_all(steps.drop_last()).after(steps.last())
        }
    }

    /// The elements that `step` moves from the sink's window into the
    /// stream.
    pub open spec fn written_by(self, step: Step<T>) -> Seq<T> {
        match step {
            Step::SinkRelease(n) => if self.allows(step) {
                self.sink_view().take(n)
            } else {
                Seq::empty()
            },
            _ => Seq::empty(),
        }
    }

    /// The elements that `step` takes off the view of source `id`.
    pub open spec fn read_by(self, id: int, step: Step<T>) -> Seq<T> {
        match step {
            Step::SourceRelease(who, n) => if who == id && self.allows(step) {
                self.source_view(id).take(n)
            } else {
                Seq::empty()
            },
            _ => Seq::empty(),
        }
    }

    /// Everything the sink releases in the course of `steps`, in order.
    pub open spec fn written(self, steps: Seq<Step<T>>) -> Seq<T>
        decreases steps.len(),
    {
        if steps.len() == 0 {
            Seq::empty()
        } else {
            self.written(steps.drop_last()) + self.after_all(steps.drop_last()).written_by(
                steps.last(),
            )
        }
    }

    /// Everything source `id` releases in the course of `steps`, in order.
    pub open spec fn read(self, id: int, steps: Seq<Step<T>>) -> Seq<T>
        decreases steps.len(),
    {
        if steps.len() == 0 {
            Seq::empty()
        } else {
            self.read(id, steps.drop_last()) + self.after_all(steps.drop_last()).read_by(
                id,
                steps.last(),
            )
        }
    }

    /// The view of a live source is the front of what it has yet to
    /// release.
    pub proof fn lemma_source_view_is_queue_front(self, id: int)
        requires
            self.wf(),
            self.is_live(id),
        ensures
            self.source_view(id) == self.queue(id).take(self.readers[id].granted),
    {
        assert(self.readers[id].granted <= self.pending(id));
        assert(self.source_view(id) =~= self.queue(id).take(self.readers[id].granted));
    }

    /// Every step leaves a well-formed buffer and makes no source live
    /// again. For a source that is still live after it, the step moves
    /// elements only from the sink's window to the back of what the source
    /// has yet to release, and from the front of that to the source.
    pub proof fn lemma_step(self, id: int, step: Step<T>)
        requires
            self.wf(),
            0 <= id < self.readers.len(),
        ensures
            self.after(step).wf(),
            self.after(step).readers.len() >= self.readers.len(),
            self.after(step).is_live(id) ==> self.is_live(id),
            self.after(step).is_live(id) ==> self.queue(id) + self.written_by(step) == self.read_by(
                id,
                step,
            ) + self.after(step).queue(id),
    {
        let c = self.ring.capacity();
        let q = self.queue(id);
        let next = self.after(step);
        self.ring.lemma_occupancy();
        if self.allows(step) {
            match step {
                Step::SinkGrant(count) => {
                    if self.sink_poll(count) == Poll::Ready(Ok::<(), Error>(())) {
                        self.lemma_lent(self.ring.writable());
                    } else if self.sink_poll(count) == Poll::Ready(
                        Err::<(), Error>(Error::Closed),
                    ) {
                        self.lemma_lent(0);
                    }
                    assert(next.queue(id) =~= q);
                },
                Step::SinkFill(w) => {
                    self.lemma_filled(w);
                    if self.is_live(id) {
                        assert(self.pending(id) <= self.ring.readable());
                        self.ring.lemma_fill_run(w, self.readers[id].head, self.pending(id));
                    }
                },
                Step::SinkRelease(n) => {
                    self.lemma_released(n);
                    if self.is_live(id) {
                        assert(self.pending(id) <= self.ring.readable());
                        crate::buffer::cursor::lemma_advance_by_distance(
                            c,
                            self.readers[id].head,
                            self.ring.tail,
                        );
                        self.ring.lemma_run_split(self.readers[id].head, self.pending(id), n);
                        assert(self.sink_view().take(n) =~= self.ring.run(self.ring.tail, n));
                        assert(next.queue(id) =~= self.ring.run(
                            self.readers[id].head,
                            self.pending(id) + n,
                        ));
                    }
                },
                Step::SinkDrop => {
                    self.lemma_sink_dropped();
                    assert(next.queue(id) =~= q);
                },
                Step::SourceGrant(who, count) => {
                    self.lemma_source_granted(who, count);
                    assert(next.queue(id) =~= q);
                },
                Step::SourceRelease(who, n) => {
                    if self.is_live(who) {
                        self.lemma_source_moved(who, n);
                        let moved = self.with_reader(
                            who,
                            ReaderView {
                                head: spec_advance(c, self.readers[who].head, n),
                                granted: self.readers[who].granted - n,
                                live: true,
                            },
                        );
                        moved.lemma_caught_up();
                        if who == id {
                            assert(self.readers[id].granted <= self.pending(id));
                            self.ring.lemma_run_split(
                                self.readers[id].head,
                                n,
                                self.pending(id) - n,
                            );
                            assert(self.source_view(id).take(n) =~= self.ring.run(
                                self.readers[id].head,
                                n,
                            ));
                            assert(next.queue(id) =~= self.ring.run(
                                spec_advance(c, self.readers[id].head, n),
                                self.pending(id) - n,
                            ));
                        } else {
                            assert(next.queue(id) =~= q);
                        }
                    }
                },
                Step::SourceClone(who) => {
                    self.lemma_source_cloned(who);
                    assert(next.queue(id) =~= q);
                },
                Step::SourceDrop(who) => {
                    self.lemma_source_dropped(who);
                    if self.is_live(who) {
                        let gone = self.with_reader(
                            who,
                            ReaderView { granted: 0, live: false, ..self.readers[who] },
                        );
                        gone.lemma_caught_up();
                        assert(next.queue(id) =~= q);
                    }
                },
            }
        }
        if next.is_live(id) {
            assert(q + self.written_by(step) =~= self.read_by(id, step) + next.queue(id));
        }
    }

    /// Broadcast in order: over any course of steps, a source that is live
    /// at the end has released, followed by what it has yet to release,
    /// exactly what it had yet to release at the start followed by
    /// everything the sink released since, element for element. Every
    /// source reads the same stream, each from its own starting point.
    pub proof fn lemma_broadcast_in_order(self, id: int, steps: Seq<Step<T>>)
        requires
            self.wf(),
            0 <= id < self.readers.len(),
        ensures
            self.after_all(steps).wf(),
            self.after_all(steps).readers.len() >= self.readers.len(),
            self.after_all(steps).is_live(id) ==> self.is_live(id),
            self.after_all(steps).is_live(id) ==> self.queue(id) + self.written(steps) == self.read(
                id,
                steps,
            ) + self.after_all(steps).queue(id),
        decreases steps.len(),
    {
        if steps.len() == 0 {
            assert(self.queue(id) + self.written(steps) =~= self.read(id, steps) + self.queue(id));
        } else {
            let before = steps.drop_last();
            let mid = self.after_all(before);
            let end = self.after_all(steps);
            self.lemma_broadcast_in_order(id, before);
            mid.lemma_step(id, steps.last());
            if end.is_live(id) {
                let w = mid.written_by(steps.last());
                let r = mid.read_by(id, steps.last());
                assert(self.queue(id) + self.written(steps) =~= (self.queue(id) + self.written(
                    before,
                )) + w);
                assert((self.read(id, before) + mid.queue(id)) + w =~= self.read(id, before) + (
                mid.queue(id) + w));
                assert(self.read(id, before) + (r + end.queue(id)) =~= self.read(id, steps)
                    + end.queue(id));
            }
        }
    }

    /// A clone starts where the source it was made from stands: it has
    /// the same elements yet to release and the same view, and nothing that
    /// the source had released before.
    pub proof fn lemma_clone_starts_at_source(self, id: int)
        requires
            self.wf(),
            self.is_live(id),
        ensures
            self.source_cloned(id).wf(),
            self.source_cloned(id).is_live(self.readers.len() as int),
            self.source_cloned(id).queue(self.readers.len() as int) == self.queue(id),
            self.source_cloned(id).source_view(self.readers.len() as int) == self.source_view(id),
    {
        self.lemma_source_cloned(id);
    }

    /// Cloning adds one source and touches nothing else: the buffer has
    /// one source more, which stands at the cursor of the source it was made
    /// from with the same grant, while the ring, with its head, its tail and
    /// its slots, and every source that was there before stay as they were.
    pub proof fn lemma_clone_adds_one_source(self, id: int)
        requires
            self.wf(),
            self.is_live(id),
        ensures
            self.source_cloned(id).readers.len() == self.readers.len() + 1,
            self.source_cloned(id).readers[self.readers.len() as int] == self.readers[id],
            self.source_cloned(id).ring == self.ring,
            self.source_cloned(id).sink_open == self.sink_open,
            forall|other: int|
                0 <= other < self.readers.len() ==> #[trigger] self.source_cloned(
                    id,
                ).readers[other] == self.readers[other],
    {
    }

    /// Dropping the slowest source lets a waiting sink go on: where the
    /// ring is full only because one source lags behind all others, the
    /// sink has to wait, and once that source is dropped it is granted at
    /// least one slot.
    pub proof fn lemma_dropping_slowest_unblocks(self, slowest: int, other: int)
        requires
            self.wf(),
            self.sink_open,
            self.ring.writable() == 0,
            self.is_live(slowest),
            self.is_live(other),
            other != slowest,
            forall|id: int|
                self.is_live(id) && id != slowest ==> self.pending(id) < self.pending(slowest),
        ensures
            self.sink_poll(1) == Poll::<Result<(), Error>>::Pending,
            self.source_dropped(slowest).sink_poll(1) == Poll::Ready(Ok::<(), Error>(())),
    {
        let gone = self.with_reader(
            slowest,
            ReaderView { granted: 0, live: false, ..self.readers[slowest] },
        );
        let next = self.source_dropped(slowest);
        self.ring.lemma_occupancy();
        self.lemma_source_dropped(slowest);
        gone.lemma_caught_up();
        gone.lemma_earliest(gone.ring.head, gone.readers.len() as int);
        assert(other != slowest);
        assert(gone.is_live(other));
        assert(next.is_live(other));
        match gone.earliest(gone.ring.head, gone.readers.len() as int) {
            Some(id) => {
                assert(gone.is_live(id));
                assert(self.is_live(id) && id != slowest);
                assert(gone.pending(id) == self.pending(id));
                assert(self.pending(slowest) <= self.ring.readable());
            },
            None => {},
        }
        next.ring.lemma_occupancy();
    }

    /// The slowest source holds the sink back, and its release lets the
    /// sink go on: where the ring is full only because one source lags
    /// behind all others, the sink has to wait, and once that source has
    /// released an element the sink is granted at least one slot.
    pub proof fn lemma_full_ring_waits_for_slowest(self, slowest: int, n: int)
        requires
            self.wf(),
            self.sink_open,
            self.ring.writable() == 0,
            self.is_live(slowest),
            1 <= n <= self.readers[slowest].granted,
            forall|id: int|
                self.is_live(id) && id != slowest ==> self.pending(id) < self.pending(slowest),
        ensures
            self.sink_poll(1) == Poll::<Result<(), Error>>::Pending,
            self.source_released(slowest, n).sink_poll(1) == Poll::Ready(Ok::<(), Error>(())),
    {
        let c = self.ring.capacity();
        let moved = self.with_reader(
            slowest,
            ReaderView {
                head: spec_advance(c, self.readers[slowest].head, n),
                granted: self.readers[slowest].granted - n,
                live: true,
            },
        );
        let next = self.source_released(slowest, n);
        self.ring.lemma_occupancy();
        self.lemma_source_moved(slowest, n);
        moved.lemma_caught_up();
        moved.lemma_earliest(moved.ring.head, moved.readers.len() as int);
        assert(moved.is_live(slowest));
        assert(next.is_live(slowest));
        assert(self.pending(slowest) <= self.ring.readable());
        crate::buffer::cursor::lemma_distance_shrinks(c, self.readers[slowest].head, self.ring.tail, n);
        match moved.earliest(moved.ring.head, moved.readers.len() as int) {
            Some(id) => {
                assert(moved.is_live(id));
                if id != slowest {
                    assert(self.is_live(id));
                    assert(moved.pending(id) == self.pending(id));
                }
            },
            None => {},
        }
        next.ring.lemma_occupancy();
    }
}

impl<T> BufferView<T> {
    /// Occupancy: at every instant the elements that the slowest source
    /// has yet to release, the writable slots and the one slot kept free add
    /// up to the capacity.
    pub proof fn lemma_occupancy(self)
        requires
            self.wf(),
        ensures
            self.ring.readable() + self.ring.writable() + 1 == self.ring.capacity(),
            forall|id: int| #[trigger] self.is_live(id) ==> self.pending(id) <= self.ring.readable(),
    {
        self.ring.lemma_occupancy();
    }

    /// Asking twice in a row is asking once: the second request gets the
    /// answer of the first and changes nothing, and no request moves a
    /// cursor.
    pub proof fn lemma_grant_twice(self, id: int, count: int)
        requires
            self.wf(),
            0 <= count,
        ensures
            self.sink_granted(count).sink_poll(count) == self.sink_poll(count),
            self.sink_granted(count).sink_granted(count) == self.sink_granted(count),
            self.sink_granted(count).ring.head == self.ring.head,
            self.sink_granted(count).ring.tail == self.ring.tail,
            self.source_granted(id, count).source_poll(id, count) == self.source_poll(id, count),
            self.source_granted(id, count).source_granted(id, count) == self.source_granted(
                id,
                count,
            ),
            self.source_granted(id, count).ring == self.ring,
            self.is_live(id) ==> self.source_granted(id, count).readers[id].head
                == self.readers[id].head,
    {
        self.ring.lemma_occupancy();
        let once = self.sink_granted(count);
        assert(once.readers == self.readers);
        assert(once.any_live() == self.any_live()) by {
            if self.any_live() {
                let j = choose|j: int| self.is_live(j);
                assert(once.is_live(j));
            }
            if once.any_live() {
                let j = choose|j: int| once.is_live(j);
                assert(self.is_live(j));
            }
        }
        let granted = self.source_granted(id, count);
        if self.is_live(id) {
            assert(granted.pending(id) == self.pending(id));
            assert(granted.source_granted(id, count).readers =~= granted.readers);
        }
    }

    /// The limit of a grant: while both sides exist, a request for as many
    /// slots as the ring has is refused as an overflow, and a request for
    /// one less is granted whenever the ring can hold it, in full.
    pub proof fn lemma_grant_limit(self, id: int)
        requires
            self.wf(),
            self.sink_open,
            self.is_live(id),
        ensures
            self.sink_poll(self.ring.capacity()) == Poll::Ready(Err::<(), Error>(Error::Overflow)),
            self.source_poll(id, self.ring.capacity()) == Poll::Ready(
                Err::<(), Error>(Error::Overflow),
            ),
            self.ring.readable() == 0 ==> self.sink_poll(self.limit()) == Poll::Ready(
                Ok::<(), Error>(()),
            ) && self.sink_granted(self.limit()).sink_view().len() == self.limit(),
            self.pending(id) == self.limit() ==> self.source_poll(id, self.limit()) == Poll::Ready(
                Ok::<(), Error>(()),
            ) && self.source_granted(id, self.limit()).source_view(id).len() == self.limit(),
    {
        self.ring.lemma_occupancy();
    }

    /// What the sink releases is what every source is granted next: after
    /// the sink releases `n` slots, a grant to a live source shows
    /// everything the source had yet to release, followed by the `n`
    /// elements just released.
    pub proof fn lemma_source_sees_release(self, id: int, n: int, count: int)
        requires
            self.wf(),
            self.is_live(id),
            0 <= n <= self.ring.lent,
            0 <= count,
            self.sink_released(n).source_poll(id, count) == Poll::Ready(Ok::<(), Error>(())),
        ensures
            self.sink_released(n).source_granted(id, count).source_view(id) == self.queue(id)
                + self.sink_view().take(n),
    {
        let next = self.sink_released(n);
        self.lemma_step(id, Step::SinkRelease(n));
        next.lemma_source_granted(id, count);
        let granted = next.source_granted(id, count);
        assert(granted.pending(id) == next.pending(id));
        granted.lemma_source_view_is_queue_front(id);
        assert(granted.queue(id) =~= next.queue(id));
        assert(next.queue(id).take(next.pending(id)) =~= next.queue(id));
        assert(self.queue(id) + self.sink_view().take(n) =~= next.queue(id));
    }

    /// A source whose sink is gone drains exactly what was left for it: its
    /// next request, whatever the count, is granted everything it has yet
    /// to release, and once that is released every further request finds
    /// the stream closed and the view empty.
    pub proof fn lemma_drain_after_sink_drop(self, id: int, count: int, again: int)
        requires
            self.wf(),
            self.is_live(id),
            self.pending(id) > 0,
            0 <= count,
            0 <= again,
        ensures
            self.sink_dropped().source_poll(id, count) == Poll::Ready(Ok::<(), Error>(())),
            self.sink_dropped().source_granted(id, count).source_view(id) == self.queue(id),
            ({
                let drained = self.sink_dropped().source_granted(id, count).source_released(
                    id,
                    self.pending(id),
                );
                &&& drained.wf()
                &&& drained.source_poll(id, again) == Poll::Ready(Err::<(), Error>(Error::Closed))
                &&& drained.source_granted(id, again).source_view(id).len() == 0
            }),
    {
        let dropped = self.sink_dropped();
        self.lemma_sink_dropped();
        assert(dropped.pending(id) == self.pending(id));
        dropped.lemma_source_granted(id, count);
        let granted = dropped.source_granted(id, count);
        assert(granted.pending(id) == self.pending(id));
        granted.lemma_source_view_is_queue_front(id);
        assert(granted.queue(id) =~= self.queue(id));
        assert(self.queue(id).take(self.pending(id)) =~= self.queue(id));
        granted.lemma_source_moved(id, self.pending(id));
        granted.lemma_release_narrows_view(id, self.pending(id));
        let drained = granted.source_released(id, self.pending(id));
        assert(drained.is_live(id));
        assert(drained.source_view(id) =~= Seq::<T>::empty());
    }

    /// A sink whose sources are all gone finds the stream closed at its
    /// next request, and is left with an empty window.
    pub proof fn lemma_sink_closed_without_sources(self, count: int)
        requires
            self.wf(),
            !self.any_live(),
            0 <= count <= self.limit(),
        ensures
            self.sink_poll(count) == Poll::Ready(Err::<(), Error>(Error::Closed)),
            self.sink_granted(count).sink_view().len() == 0,
            !self.sources_dropped().any_live(),
    {
    }
}

impl<T> BufferView<T> {
    /// Gone is gone: no course of steps brings back a sink that was
    /// dropped. (That a dropped source stays dropped is part of
    /// `lemma_broadcast_in_order`.)
    pub proof fn lemma_dropped_stays_dropped(self, steps: Seq<Step<T>>)
        ensures
            self.after_all(steps).sink_open ==> self.sink_open,
        decreases steps.len(),
    {
        if steps.len() > 0 {
            self.lemma_dropped_stays_dropped(steps.drop_last());
        }
    }

    /// An endpoint that has found the stream closed holds nothing, so that
    /// all it can release is nothing.
    pub proof fn lemma_closed_holds_nothing(self, id: int, count: int)
        requires
            self.wf(),
        ensures
            self.sink_poll(count) == Poll::Ready(Err::<(), Error>(Error::Closed))
                ==> self.sink_granted(count).sink_view().len() == 0,
            self.source_poll(id, count) == Poll::Ready(Err::<(), Error>(Error::Closed))
                ==> self.source_granted(id, count).source_view(id).len() == 0,
    {
        self.ring.lemma_occupancy();
        if self.is_live(id) {
            assert(self.readers[id].granted <= self.pending(id));
        }
    }
}

} // verus!
