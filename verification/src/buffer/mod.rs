//! Buffers for temporarily caching data, and the ring they share.
//!
//! A ring of capacity `C` stores its elements in `2 * C` cells: cell `p + C`
//! is the twin of cell `p`. Outside the window that is currently lent to the
//! producer a cell always equals its twin, so any run of at most `C` slots
//! that starts at a cursor can be handed out as one flat slice, whether or
//! not it crosses the end of the ring.

pub mod cursor;
pub mod mirrored;
pub mod notify;
pub mod spmc;
pub mod spmc_laws;
pub mod spsc;
pub mod spsc_laws;

use vstd::prelude::*;
use self::cursor::{lemma_advance_cases, lemma_distance_cases, spec_advance, spec_distance};

verus! {

/// The mathematical content of a ring.
pub struct RingView<T> {
    /// The element held by each logical slot; its length is the capacity.
    pub slots: Seq<T>,
    /// Cursor of the oldest readable slot.
    pub head: int,
    /// Cursor of the first writable slot.
    pub tail: int,
    /// Length of the writable window lent to the producer, which starts at
    /// `tail`.
    pub lent: int,
}

impl<T> RingView<T> {
    /// Number of slots, one of which always stays unused.
    pub open spec fn capacity(self) -> int {
        self.slots.len() as int
    }

    /// Number of elements that have been committed and not yet consumed.
    pub open spec fn readable(self) -> int {
        spec_distance(self.capacity(), self.head, self.tail)
    }

    /// Number of slots the producer may still fill.
    pub open spec fn writable(self) -> int {
        self.capacity() - self.readable() - 1
    }

    /// The invariant of every ring.
    pub open spec fn wf(self) -> bool {
        &&& self.capacity() >= 2
        &&& 0 <= self.head < self.capacity()
        &&& 0 <= self.tail < self.capacity()
        &&& 0 <= self.lent <= self.writable()
    }

    /// The `len` elements found from cursor `start` on, in ring order.
    pub open spec fn run(self, start: int, len: int) -> Seq<T> {
        Seq::new(len as nat, |i: int| self.slots[spec_advance(self.capacity(), start, i)])
    }

    /// The committed elements, oldest first.
    pub open spec fn queue(self) -> Seq<T> {
        self.run(self.head, self.readable())
    }

    /// The window lent to the producer.
    pub open spec fn window(self) -> Seq<T> {
        self.run(self.tail, self.lent)
    }

    /// A fresh ring whose slots hold `slots`.
    pub open spec fn fresh(slots: Seq<T>) -> Self {
        RingView { slots, head: 0, tail: 0, lent: 0 }
    }

    /// An empty ring of `capacity` slots that all hold `fill`.
    pub open spec fn blank(capacity: int, fill: T) -> Self {
        Self::fresh(Seq::new(capacity as nat, |p: int| fill))
    }

    /// The ring after the window lent to the producer is resized to `len`.
    pub open spec fn lend(self, len: int) -> Self {
        RingView { lent: len, ..self }
    }

    /// The ring after the producer has overwritten its window with `w`.
    pub open spec fn fill(self, w: Seq<T>) -> Self {
        RingView {
            slots: Seq::new(
                self.slots.len(),
                |p: int|
                    if spec_distance(self.capacity(), self.tail, p) < self.lent {
                        w[spec_distance(self.capacity(), self.tail, p)]
                    } else {
                        self.slots[p]
                    },
            ),
            ..self
        }
    }

    /// The ring after the producer commits the first `n` slots of its
    /// window.
    pub open spec fn commit(self, n: int) -> Self {
        RingView {
            tail: spec_advance(self.capacity(), self.tail, n),
            lent: self.lent - n,
            ..self
        }
    }

    /// The ring after its head moves forward by `n` slots.
    pub open spec fn consume(self, n: int) -> Self {
        RingView { head: spec_advance(self.capacity(), self.head, n), ..self }
    }

    /// The ring after its head moves to cursor `head`.
    pub open spec fn with_head(self, head: int) -> Self {
        RingView { head, ..self }
    }

    /// Whether cursor `cursor` lies between head and tail, both included.
    pub open spec fn holds(self, cursor: int) -> bool {
        &&& 0 <= cursor < self.capacity()
        &&& spec_distance(self.capacity(), cursor, self.tail) <= self.readable()
    }
}

/// A ring of `capacity` slots over `2 * capacity` cells.
pub struct State<T> {
    buffer: Vec<T>,
    size: usize,
    head: usize,
    tail: usize,
    lent: usize,
}

impl<T> View for State<T> {
    type V = RingView<T>;

    closed spec fn view(&self) -> RingView<T> {
        RingView {
            slots: Seq::new(self.size as nat, |p: int| self.buffer@[self.cell_of(p)]),
            head: self.head as int,
            tail: self.tail as int,
            lent: self.lent as int,
        }
    }
}

impl<T> State<T> {
    /// The cell that speaks for logical slot `p`: the one inside the lent
    /// window if the window reaches `p` through the upper half, else the
    /// lower one.
    spec fn cell_of(&self, p: int) -> int {
        if p + self.size < self.tail + self.lent {
            p + self.size
        } else {
            p
        }
    }

    /// Whether the lent window, laid out flat from `tail`, holds a cell of
    /// logical slot `p`.
    spec fn covers(&self, p: int) -> bool {
        self.tail <= p < self.tail + self.lent || p + self.size < self.tail + self.lent
    }

    /// Every slot outside the lent window has equal twins.
    spec fn mirrored(&self) -> bool {
        forall|p: int|
            0 <= p < self.size && !self.covers(p) ==> #[trigger] self.buffer@[p]
                == self.buffer@[p + self.size]
    }

    /// The invariant of the ring and of its cells.
    pub closed spec fn wf(&self) -> bool {
        &&& self.size >= 2
        &&& self.buffer@.len() == 2 * self.size
        &&& self.head < self.size
        &&& self.tail < self.size
        &&& self.lent <= self.size - 1 - spec_distance(
            self.size as int,
            self.head as int,
            self.tail as int,
        )
        &&& self.mirrored()
    }

    /// A well-formed ring has a well-formed content, and its cells fit the
    /// machine.
    pub proof fn lemma_view_wf(&self)
        requires
            self.wf(),
        ensures
            self@.wf(),
            2 * self@.capacity() <= usize::MAX,
    {
        lemma_distance_cases(self.size as int, self.head as int, self.tail as int);
        assert(self.buffer.len() == 2 * self.size);
    }

    /// Number of slots of the ring.
    pub fn capacity(&self) -> (c: usize)
        requires
            self.wf(),
        ensures
            c == self@.capacity(),
            c >= 2,
    {
        self.size
    }

    /// Cursor of the oldest readable slot.
    pub fn head(&self) -> (h: usize)
        requires
            self.wf(),
        ensures
            h == self@.head,
            h < self@.capacity(),
    {
        self.head
    }

    /// Cursor of the first writable slot.
    pub fn tail(&self) -> (t: usize)
        requires
            self.wf(),
        ensures
            t == self@.tail,
            t < self@.capacity(),
    {
        self.tail
    }

    /// Length of the window lent to the producer.
    pub fn lent(&self) -> (n: usize)
        requires
            self.wf(),
        ensures
            n == self@.lent,
            n <= self@.writable(),
    {
        self.lent
    }

    /// Distance from cursor `first` to cursor `second`.
    pub fn distance(&self, first: usize, second: usize) -> (d: usize)
        requires
            self.wf(),
            first < self@.capacity(),
            second < self@.capacity(),
        ensures
            d == spec_distance(self@.capacity(), first as int, second as int),
            d < self@.capacity(),
    {
        crate::buffer::cursor::distance(self.size, first, second)
    }

    /// The cursor `advance` slots after `value`.
    pub fn advance_value(&self, advance: usize, value: usize) -> (moved: usize)
        requires
            self.wf(),
            value < self@.capacity(),
            advance <= self@.capacity(),
        ensures
            moved == spec_advance(self@.capacity(), value as int, advance as int),
            moved < self@.capacity(),
    {
        crate::buffer::cursor::advance_value(self.size, value, advance)
    }

    /// Number of committed elements that no consumer has released yet.
    pub fn readable_len(&self) -> (n: usize)
        requires
            self.wf(),
        ensures
            n == self@.readable(),
            n + self@.writable() + 1 == self@.capacity(),
    {
        crate::buffer::cursor::distance(self.size, self.head, self.tail)
    }

    /// Number of slots the producer may fill before the ring is full.
    pub fn writable_len(&self) -> (n: usize)
        requires
            self.wf(),
        ensures
            n == self@.writable(),
            self@.readable() + n + 1 == self@.capacity(),
    {
        self.size - self.readable_len() - 1
    }
}


impl<T: Copy> State<T> {
    /// The cell that mirrors cell `q`.
    spec fn twin(&self, q: int) -> int {
        if q < self.size {
            q + self.size
        } else {
            q - self.size
        }
    }

    /// Every slot has equal twins.
    spec fn even(&self) -> bool {
        forall|p: int|
            0 <= p < self.size ==> #[trigger] self.buffer@[p] == self.buffer@[p + self.size]
    }

    /// Creates a ring that can hold `min_size` elements, every cell of which
    /// holds `fill`.
    pub fn with_fill(min_size: usize, fill: T) -> (s: Self)
        requires
            min_size > 0,
            2 * (min_size + 1) <= usize::MAX,
        ensures
            s.wf(),
            s@ == RingView::blank(min_size + 1, fill),
    {
        let size: usize = min_size + 1;
        let mut buffer: Vec<T> = Vec::new();
        let mut i: usize = 0;
        while i < 2 * size
            invariant
                i <= 2 * size,
                2 * size <= usize::MAX,
                buffer@.len() == i,
                forall|q: int| 0 <= q < i ==> buffer@[q] == fill,
            decreases 2 * size - i,
        {
            buffer.push(fill);
            i = i + 1;
        }
        let s = State { buffer, size, head: 0, tail: 0, lent: 0 };
        proof {
            lemma_distance_cases(size as int, 0, 0);
            assert(s@.slots =~= Seq::new(size as nat, |p: int| fill));
        }
        s
    }

    /// Copies every cell of the lent window onto its twin.
    fn settle(&mut self)
        requires
            old(self).wf(),
        ensures
            final(self).wf(),
            final(self).even(),
            final(self)@ == old(self)@,
            final(self).size == old(self).size,
            final(self).head == old(self).head,
            final(self).tail == old(self).tail,
            final(self).lent == old(self).lent,
    {
        let ghost before = *self;
        proof {
            lemma_distance_cases(self.size as int, self.head as int, self.tail as int);
            assert(self.buffer.len() == 2 * self.size);
        }
        let mut j: usize = 0;
        while j < self.lent
            invariant
                before.wf(),
                j <= self.lent,
                self.lent < self.size,
                self.tail < self.size,
                2 * self.size <= usize::MAX,
                self.size == before.size,
                self.head == before.head,
                self.tail == before.tail,
                self.lent == before.lent,
                self.buffer@.len() == 2 * self.size,
                forall|q: int|
                    0 <= q < 2 * self.size ==> #[trigger] self.buffer@[q] == if self.tail
                        <= before.twin(q) < self.tail + j {
                        before.buffer@[before.twin(q)]
                    } else {
                        before.buffer@[q]
                    },
            decreases self.lent - j,
        {
            let q: usize = self.tail + j;
            let t: usize = if q < self.size {
                q + self.size
            } else {
                q - self.size
            };
            let v: T = self.buffer[q];
            self.buffer.set(t, v);
            j = j + 1;
        }
        proof {
            assert forall|p: int| 0 <= p < self.size implies #[trigger] self.buffer@[p]
                == self.buffer@[p + self.size] by {
                assert(before.twin(p) == p + self.size);
                assert(before.twin(p + self.size) == p);
                if !before.covers(p) {
                    assert(before.buffer@[p] == before.buffer@[p + before.size]);
                }
            }
            assert forall|p: int| 0 <= p < self.size implies self.buffer@[self.cell_of(p)]
                == before.buffer@[before.cell_of(p)] by {
                assert(before.twin(p) == p + self.size);
                assert(before.twin(p + self.size) == p);
            }
            assert(self@.slots =~= before@.slots);
        }
    }
}


impl<T: Copy> State<T> {
    /// Resizes the window lent to the producer to `len` slots.
    pub fn lend(&mut self, len: usize)
        requires
            old(self).wf(),
            len <= old(self)@.writable(),
        ensures
            final(self).wf(),
            final(self)@ == old(self)@.lend(len as int),
    {
        if len < self.lent {
            self.settle();
        }
        let ghost mid = *self;
        self.lent = len;
        proof {
            lemma_distance_cases(self.size as int, self.head as int, self.tail as int);
            assert forall|p: int| 0 <= p < self.size && !self.covers(p) implies #[trigger] self.buffer@[p]
                == self.buffer@[p + self.size] by {
                if mid.even() {
                } else {
                    assert(!mid.covers(p));
                }
            }
            assert forall|p: int| 0 <= p < self.size implies self.buffer@[self.cell_of(p)]
                == mid.buffer@[mid.cell_of(p)] by {
                if mid.even() {
                } else if self.cell_of(p) != mid.cell_of(p) {
                    assert(!mid.covers(p));
                }
            }
            assert(self@.slots =~= old(self)@.slots);
        }
    }

    /// The window lent to the producer, as one slice.
    pub fn window(&self) -> (w: &[T])
        requires
            self.wf(),
        ensures
            w@ == self@.window(),
    {
        proof {
            lemma_distance_cases(self.size as int, self.head as int, self.tail as int);
            assert(self.buffer.len() == 2 * self.size);
        }
        let w = vstd::slice::slice_subrange(self.buffer.as_slice(), self.tail, self.tail + self.lent);
        proof {
            assert forall|i: int| 0 <= i < self.lent implies w@[i] == self@.window()[i] by {
                lemma_advance_cases(self.size as int, self.tail as int, i);
            }
            assert(w@ =~= self@.window());
        }
        w
    }

    /// Commits the first `n` slots of the lent window: they become
    /// readable, and the window keeps the rest.
    pub fn commit(&mut self, n: usize)
        requires
            old(self).wf(),
            n <= old(self)@.lent,
        ensures
            final(self).wf(),
            final(self)@ == old(self)@.commit(n as int),
    {
        self.settle();
        let ghost mid = *self;
        proof {
            lemma_distance_cases(self.size as int, self.head as int, self.tail as int);
            crate::buffer::cursor::lemma_distance_grows(
                self.size as int,
                self.head as int,
                self.tail as int,
                n as int,
            );
        }
        self.tail = crate::buffer::cursor::advance_value(self.size, self.tail, n);
        self.lent = self.lent - n;
        proof {
            assert forall|p: int| 0 <= p < self.size implies self.buffer@[self.cell_of(p)]
                == mid.buffer@[mid.cell_of(p)] by {
                assert(mid.buffer@[p] == mid.buffer@[p + mid.size]);
            }
            assert(self@.slots =~= mid@.slots);
        }
    }

    /// The `len` elements from cursor `start` on, as one slice. The run must
    /// end at or before the tail.
    pub fn slice(&self, start: usize, len: usize) -> (r: &[T])
        requires
            self.wf(),
            self@.holds(start as int),
            len <= spec_distance(self@.capacity(), start as int, self@.tail),
        ensures
            r@ == self@.run(start as int, len as int),
    {
        proof {
            lemma_distance_cases(self.size as int, self.head as int, self.tail as int);
            lemma_distance_cases(self.size as int, start as int, self.tail as int);
            assert(self.buffer.len() == 2 * self.size);
        }
        let r = vstd::slice::slice_subrange(self.buffer.as_slice(), start, start + len);
        proof {
            assert forall|i: int| 0 <= i < len implies r@[i] == self@.run(
                start as int,
                len as int,
            )[i] by {
                lemma_advance_cases(self.size as int, start as int, i);
                let p = spec_advance(self.size as int, start as int, i);
                assert(!self.covers(p));
                assert(self.buffer@[p] == self.buffer@[p + self.size]);
            }
            assert(r@ =~= self@.run(start as int, len as int));
        }
        r
    }

    /// Moves the head forward by `n` slots, giving them back to the
    /// producer.
    pub fn consume(&mut self, n: usize)
        requires
            old(self).wf(),
            n <= old(self)@.readable(),
        ensures
            final(self).wf(),
            final(self)@ == old(self)@.consume(n as int),
    {
        proof {
            lemma_distance_cases(self.size as int, self.head as int, self.tail as int);
            crate::buffer::cursor::lemma_distance_shrinks(
                self.size as int,
                self.head as int,
                self.tail as int,
                n as int,
            );
        }
        self.head = crate::buffer::cursor::advance_value(self.size, self.head, n);
        proof {
            assert(self@.slots =~= old(self)@.slots);
        }
    }

    /// Moves the head to cursor `head`, which lies between the present head
    /// and the tail.
    pub fn set_head(&mut self, head: usize)
        requires
            old(self).wf(),
            old(self)@.holds(head as int),
        ensures
            final(self).wf(),
            final(self)@ == old(self)@.with_head(head as int),
    {
        self.head = head;
        proof {
            assert(self@.slots =~= old(self)@.slots);
        }
    }
}

impl<T: Copy + Default> State<T> {
    /// Creates an empty ring that can hold `min_size` elements. Every cell
    /// starts out as one and the same value, which `T::default()` returned.
    pub fn new(min_size: usize) -> (s: Self)
        requires
            min_size > 0,
            2 * (min_size + 1) <= usize::MAX,
        ensures
            s.wf(),
            exists|fill: T|
                call_ensures(T::default, (), fill) && s@ == #[trigger] RingView::blank(
                    min_size + 1,
                    fill,
                ),
    {
        Self::with_fill(min_size, T::default())
    }
}


impl<T: Copy> State<T> {
    /// Whether `after` is `before` with the cells of its lent window
    /// overwritten by `w`.
    spec fn refilled(before: Self, after: Self, w: Seq<T>) -> bool {
        &&& w.len() == before.lent
        &&& after.size == before.size
        &&& after.head == before.head
        &&& after.tail == before.tail
        &&& after.lent == before.lent
        &&& after.buffer@.len() == before.buffer@.len()
        &&& forall|q: int|
            0 <= q < after.buffer@.len() ==> #[trigger] after.buffer@[q] == if before.tail <= q
                < before.tail + before.lent {
                w[q - before.tail]
            } else {
                before.buffer@[q]
            }
    }

    /// Overwriting the cells of the lent window leaves a well-formed ring,
    /// whose slots are those of the window where it reaches and the former
    /// ones elsewhere.
    proof fn lemma_fill(before: Self, after: Self, w: Seq<T>)
        requires
            before.wf(),
            Self::refilled(before, after, w),
        ensures
            after.wf(),
            after@ == before@.fill(w),
    {
        let size = before.size as int;
        let tail = before.tail as int;
        let lent = before.lent as int;
        lemma_distance_cases(size, before.head as int, tail);
        assert forall|p: int| 0 <= p < size && !after.covers(p) implies #[trigger] after.buffer@[p]
            == after.buffer@[p + size] by {
            assert(!before.covers(p));
            assert(before.buffer@[p] == before.buffer@[p + size]);
        }
        assert forall|p: int| 0 <= p < size implies after@.slots[p] == before@.fill(w).slots[p] by {
            lemma_distance_cases(size, tail, p);
        }
        assert(after@.slots =~= before@.fill(w).slots);
    }

    /// The cells of the lent window, as one slice to write into.
    fn cells_mut(&mut self) -> (w: &mut [T])
        requires
            old(self).wf(),
        ensures
            w@ == old(self).buffer@.subrange(
                old(self).tail as int,
                old(self).tail + old(self).lent,
            ),
            final(self).size == old(self).size,
            final(self).head == old(self).head,
            final(self).tail == old(self).tail,
            final(self).lent == old(self).lent,
            final(self).buffer@ == old(self).buffer@.subrange(0, old(self).tail as int) + final(w)@
                + old(self).buffer@.subrange(
                old(self).tail + old(self).lent,
                old(self).buffer@.len() as int,
            ),
            final(w)@.len() == w@.len() ==> Self::refilled(*old(self), *final(self), final(w)@),
    {
        proof {
            lemma_distance_cases(self.size as int, self.head as int, self.tail as int);
            assert(self.buffer.len() == 2 * self.size);
        }
        let tail: usize = self.tail;
        let end: usize = self.tail + self.lent;
        let whole = self.buffer.as_mut_slice();
        let (low, _high) = whole.split_at_mut(end);
        let (_skipped, w) = low.split_at_mut(tail);
        w
    }

    /// The window lent to the producer, as one slice to write into. Once
    /// the borrow ends, the slots of the window hold what the slice held
    /// last.
    pub fn window_mut(&mut self) -> (w: &mut [T])
        requires
            old(self).wf(),
        ensures
            w@ == old(self)@.window(),
            final(w)@.len() == w@.len() ==> final(self).wf() && final(self)@ == old(self)@.fill(final(w)@),
    {
        let ghost before = *self;
        proof {
            lemma_distance_cases(self.size as int, self.head as int, self.tail as int);
            assert forall|after: Self, x: Seq<T>| #[trigger]
                Self::refilled(before, after, x) implies after.wf() && after@ == before@.fill(
                x,
            ) by {
                Self::lemma_fill(before, after, x);
            }
        }
        let w = self.cells_mut();
        proof {
            assert forall|i: int| 0 <= i < before.lent implies w@[i] == before@.window()[i] by {
                lemma_advance_cases(before.size as int, before.tail as int, i);
            }
            assert(w@ =~= before@.window());
        }
        w
    }
}


impl<T> RingView<T> {
    /// Occupancy: the readable elements, the writable slots and the one slot
    /// kept free add up to the capacity.
    pub proof fn lemma_occupancy(self)
        requires
            self.wf(),
        ensures
            self.readable() + self.writable() + 1 == self.capacity(),
            0 <= self.readable() < self.capacity(),
            0 <= self.writable() < self.capacity(),
    {
        lemma_distance_cases(self.capacity(), self.head, self.tail);
    }

    /// A run that is read in two parts is the two parts in a row.
    pub proof fn lemma_run_split(self, start: int, m: int, n: int)
        requires
            self.capacity() >= 1,
            0 <= start < self.capacity(),
            0 <= m,
            0 <= n,
            m + n <= self.capacity(),
        ensures
            self.run(start, m + n) == self.run(start, m) + self.run(
                spec_advance(self.capacity(), start, m),
                n,
            ),
    {
        let c = self.capacity();
        let next = spec_advance(c, start, m);
        assert forall|i: int| 0 <= i < m + n implies self.run(start, m + n)[i] == (self.run(
            start,
            m,
        ) + self.run(next, n))[i] by {
            if i >= m {
                crate::buffer::cursor::lemma_advance_twice(c, start, m, i - m);
            }
        }
        assert(self.run(start, m + n) =~= self.run(start, m) + self.run(next, n));
    }

    /// Committing `n` slots appends the first `n` elements of the lent
    /// window to the queue, and leaves the rest of the window lent.
    pub proof fn lemma_commit(self, n: int)
        requires
            self.wf(),
            0 <= n <= self.lent,
        ensures
            self.commit(n).wf(),
            self.commit(n).queue() == self.queue() + self.window().take(n),
            self.commit(n).window() == self.window().skip(n),
            self.commit(n).readable() == self.readable() + n,
    {
        let c = self.capacity();
        self.lemma_occupancy();
        crate::buffer::cursor::lemma_distance_grows(c, self.head, self.tail, n);
        crate::buffer::cursor::lemma_advance_cases(c, self.tail, n);
        crate::buffer::cursor::lemma_advance_by_distance(c, self.head, self.tail);
        self.lemma_run_split(self.head, self.readable(), n);
        self.lemma_run_split(self.tail, n, self.lent - n);
        assert(self.window().take(n) =~= self.run(self.tail, n));
        assert(self.window().skip(n) =~= self.run(spec_advance(c, self.tail, n), self.lent - n));
        assert(self.commit(n).queue() =~= self.run(self.head, self.readable() + n));
        assert(self.commit(n).window() =~= self.run(spec_advance(c, self.tail, n), self.lent - n));
    }

    /// Consuming `n` elements removes them from the front of the queue and
    /// leaves the lent window alone.
    pub proof fn lemma_consume(self, n: int)
        requires
            self.wf(),
            0 <= n <= self.readable(),
        ensures
            self.consume(n).wf(),
            self.consume(n).queue() == self.queue().skip(n),
            self.consume(n).window() == self.window(),
            self.consume(n).readable() == self.readable() - n,
    {
        let c = self.capacity();
        self.lemma_occupancy();
        crate::buffer::cursor::lemma_distance_shrinks(c, self.head, self.tail, n);
        crate::buffer::cursor::lemma_advance_cases(c, self.head, n);
        self.lemma_run_split(self.head, n, self.readable() - n);
        assert(self.queue().skip(n) =~= self.run(spec_advance(c, self.head, n), self.readable() - n));
        assert(self.consume(n).queue() =~= self.run(
            spec_advance(c, self.head, n),
            self.readable() - n,
        ));
        assert(self.consume(n).window() =~= self.window());
    }

    /// Writing into the lent window changes the window and nothing that is
    /// readable.
    pub proof fn lemma_fill(self, w: Seq<T>)
        requires
            self.wf(),
            w.len() == self.lent,
        ensures
            self.fill(w).wf(),
            self.fill(w).window() == w,
            self.fill(w).queue() == self.queue(),
    {
        let c = self.capacity();
        self.lemma_occupancy();
        assert forall|i: int| 0 <= i < self.lent implies self.fill(w).window()[i] == w[i] by {
            crate::buffer::cursor::lemma_advance_cases(c, self.tail, i);
            crate::buffer::cursor::lemma_distance_of_advance(c, self.tail, i);
        }
        assert(self.fill(w).window() =~= w);
        assert forall|i: int| 0 <= i < self.readable() implies self.fill(w).queue()[i]
            == self.queue()[i] by {
            crate::buffer::cursor::lemma_advance_cases(c, self.head, i);
            let p = spec_advance(c, self.head, i);
            lemma_distance_cases(c, self.head, self.tail);
            lemma_distance_cases(c, self.tail, p);
        }
        assert(self.fill(w).queue() =~= self.queue());
    }

    /// Writing into the lent window changes no run that ends at or before
    /// the tail.
    pub proof fn lemma_fill_run(self, w: Seq<T>, start: int, len: int)
        requires
            self.wf(),
            w.len() == self.lent,
            self.holds(start),
            0 <= len <= spec_distance(self.capacity(), start, self.tail),
        ensures
            self.fill(w).run(start, len) == self.run(start, len),
    {
        let c = self.capacity();
        self.lemma_occupancy();
        lemma_distance_cases(c, self.head, self.tail);
        lemma_distance_cases(c, start, self.tail);
        assert forall|i: int| 0 <= i < len implies self.fill(w).run(start, len)[i] == self.run(
            start,
            len,
        )[i] by {
            crate::buffer::cursor::lemma_advance_cases(c, start, i);
            let p = spec_advance(c, start, i);
            lemma_distance_cases(c, self.tail, p);
        }
        assert(self.fill(w).run(start, len) =~= self.run(start, len));
    }

    /// Resizing the lent window changes nothing that is readable, and the
    /// shorter of the two windows is the start of the longer one.
    pub proof fn lemma_lend(self, len: int)
        requires
            self.wf(),
            0 <= len <= self.writable(),
        ensures
            self.lend(len).wf(),
            self.lend(len).queue() == self.queue(),
            self.lend(len).window().len() == len,
            len >= self.lent ==> self.lend(len).window().take(self.lent) == self.window(),
            len <= self.lent ==> self.lend(len).window() == self.window().take(len),
    {
        assert(self.lend(len).queue() =~= self.queue());
        if len >= self.lent {
            assert(self.lend(len).window().take(self.lent) =~= self.window());
        }
        if len <= self.lent {
            assert(self.lend(len).window() =~= self.window().take(len));
        }
    }
}

} // verus!
