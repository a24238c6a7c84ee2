//! Streams seen as sinks that reserve and commit, and as sources that
//! request and consume.
//!
//! Every view is such a stream: to reserve or to request is to ask for a
//! grant, and to commit or to consume is to release.

use vstd::prelude::*;
use crate::error::Error;
use crate::view::View as _;
use crate::view::{Poll, ViewMut};

verus! {

/// A stream to write to.
pub trait Sink {
    /// The type to be written.
    type Item;

    /// Whether the sink is valid; every method keeps it so.
    spec fn sound(&self) -> bool;

    /// The elements of the writable buffer.
    spec fn reserved(&self) -> Seq<Self::Item>;

    /// Whether the stream has ended, so that a request may be answered with
    /// less than was asked for.
    spec fn finished(&self) -> bool;

    /// The answer that a request to reserve `count` elements gets in the
    /// present state.
    spec fn reserving(&self, count: int) -> Poll<Result<(), Error>>;

    /// The buffer to write into. Its size is set by `poll_reserve`, and
    /// what is written counts once it is committed.
    fn sink(&mut self) -> (s: &mut [Self::Item])
        requires
            old(self).sound(),
        ensures
            s@ == old(self).reserved(),
            final(s)@.len() == s@.len() ==> final(self).sound() && final(self).reserved() == final(s)@,
    ;

    /// Tries to reserve `count` elements in the writable buffer. A buffer
    /// that is reserved starts with what it held before; a request that has
    /// to wait or fails leaves it as it was.
    fn poll_reserve(&mut self, count: usize) -> (p: Poll<Result<(), Error>>)
        requires
            old(self).sound(),
        ensures
            final(self).sound(),
            p == old(self).reserving(count as int),
            p is Ready && p->Ready_0 is Ok ==> {
                &&& final(self).reserved().len() >= count || final(self).finished()
                &&& final(self).reserved().len() >= old(self).reserved().len()
                &&& final(self).reserved().take(old(self).reserved().len() as int) == old(self).reserved()
            },
            p is Pending ==> final(self).reserved() == old(self).reserved(),
    ;

    /// Commits the first `count` elements of the writable buffer to the
    /// stream. More than the buffer holds cannot be committed: that is an
    /// overflow, and changes nothing.
    fn poll_commit(&mut self, count: usize) -> (p: Poll<Result<(), Error>>)
        requires
            old(self).sound(),
        ensures
            final(self).sound(),
            p == if count <= old(self).reserved().len() {
                Poll::Ready(Ok::<(), Error>(()))
            } else {
                Poll::Ready(Err::<(), Error>(Error::Overflow))
            },
            final(self).reserved() == if count <= old(self).reserved().len() {
                old(self).reserved().skip(count as int)
            } else {
                old(self).reserved()
            },
    ;

    /// Makes a request to reserve `count` elements, to be put with
    /// `Reserve::poll`.
    fn reserve(&mut self, count: usize) -> (r: Reserve<'_, Self>) where Self: Sized
        ensures
            *r.handle == *old(self),
            *final(r.handle) == *final(self),
            r.count == count,
    {
        Reserve { handle: self, count }
    }

    /// Makes a request to commit the first `count` elements, to be put
    /// with `Commit::poll`.
    fn commit(&mut self, count: usize) -> (c: Commit<'_, Self>) where Self: Sized
        ensures
            *c.handle == *old(self),
            *final(c.handle) == *final(self),
            c.count == count,
    {
        Commit { handle: self, count }
    }
}

/// A stream to read from.
pub trait Source {
    /// The type to be read.
    type Item;

    /// Whether the source is valid; every method keeps it so.
    spec fn sound(&self) -> bool;

    /// The elements of the readable buffer.
    spec fn requested(&self) -> Seq<Self::Item>;

    /// Whether the stream has ended, so that a request may be answered with
    /// less than was asked for.
    spec fn finished(&self) -> bool;

    /// The answer that a request to read `count` elements gets in the
    /// present state.
    spec fn requesting(&self, count: int) -> Poll<Result<(), Error>>;

    /// The buffer to read from. Its size is set by `poll_request`, and it
    /// moves on by `poll_consume`.
    fn source(&self) -> (s: &[Self::Item])
        requires
            self.sound(),
        ensures
            s@ == self.requested(),
    ;

    /// Tries to read `count` elements into the buffer. A buffer that is
    /// filled starts with what it held before; a request that has to wait
    /// leaves it as it was.
    fn poll_request(&mut self, count: usize) -> (p: Poll<Result<(), Error>>)
        requires
            old(self).sound(),
        ensures
            final(self).sound(),
            p == old(self).requesting(count as int),
            p is Ready && p->Ready_0 is Ok ==> {
                &&& final(self).requested().len() >= count || final(self).finished()
                &&& final(self).requested().len() >= old(self).requested().len()
                &&& final(self).requested().take(old(self).requested().len() as int) == old(self).requested()
            },
            p is Pending ==> final(self).requested() == old(self).requested(),
    ;

    /// Moves past the first `count` elements of the buffer. More than the
    /// buffer holds cannot be consumed: that is an overflow, and changes
    /// nothing.
    fn poll_consume(&mut self, count: usize) -> (p: Poll<Result<(), Error>>)
        requires
            old(self).sound(),
        ensures
            final(self).sound(),
            p == if count <= old(self).requested().len() {
                Poll::Ready(Ok::<(), Error>(()))
            } else {
                Poll::Ready(Err::<(), Error>(Error::Overflow))
            },
            final(self).requested() == if count <= old(self).requested().len() {
                old(self).requested().skip(count as int)
            } else {
                old(self).requested()
            },
    ;

    /// Makes a request to read `count` elements, to be put with
    /// `Request::poll`.
    fn request(&mut self, count: usize) -> (r: Request<'_, Self>) where Self: Sized
        ensures
            *r.handle == *old(self),
            *final(r.handle) == *final(self),
            r.count == count,
    {
        Request { handle: self, count }
    }

    /// Makes a request to move past the first `count` elements, to be put
    /// with `Consume::poll`.
    fn consume(&mut self, count: usize) -> (c: Consume<'_, Self>) where Self: Sized
        ensures
            *c.handle == *old(self),
            *final(c.handle) == *final(self),
            c.count == count,
    {
        Consume { handle: self, count }
    }
}

/// A stream to read from whose buffer can be written as well.
pub trait SourceMut: Source {
    /// The buffer to read from, to write into.
    fn source_mut(&mut self) -> (s: &mut [Self::Item])
        requires
            old(self).sound(),
        ensures
            s@ == old(self).requested(),
            final(s)@.len() == s@.len() ==> final(self).sound() && final(self).requested()
                == final(s)@,
    ;
}

/// A request to reserve `count` elements that has yet to be answered.
pub struct Reserve<'a, T> {
    /// The sink that is asked.
    pub handle: &'a mut T,
    /// The number of elements to reserve.
    pub count: usize,
}

impl<'a, T: Sink> Reserve<'a, T> {
    /// Puts the request to the sink once more.
    pub fn poll(&mut self) -> (p: Poll<Result<(), Error>>)
        requires
            old(self).handle.sound(),
        ensures
            final(self).handle.sound(),
            final(self).count == old(self).count,
            *final(final(self).handle) == *final(old(self).handle),
            p == old(self).handle.reserving(old(self).count as int),
            p is Ready && p->Ready_0 is Ok ==> {
                &&& final(self).handle.reserved().len() >= old(self).count || final(self).handle.finished()
                &&& final(self).handle.reserved().len() >= old(self).handle.reserved().len()
                &&& final(self).handle.reserved().take(old(self).handle.reserved().len() as int)
                    == old(self).handle.reserved()
            },
            p is Pending ==> final(self).handle.reserved() == old(self).handle.reserved(),
    {
        self.handle.poll_reserve(self.count)
    }
}

/// A request to commit the first `count` elements that has yet to be
/// answered.
pub struct Commit<'a, T> {
    /// The sink that is asked.
    pub handle: &'a mut T,
    /// The number of elements to commit.
    pub count: usize,
}

impl<'a, T: Sink> Commit<'a, T> {
    /// Puts the request to the sink.
    pub fn poll(&mut self) -> (p: Poll<Result<(), Error>>)
        requires
            old(self).handle.sound(),
        ensures
            final(self).handle.sound(),
            final(self).count == old(self).count,
            *final(final(self).handle) == *final(old(self).handle),
            p == if old(self).count <= old(self).handle.reserved().len() {
                Poll::Ready(Ok::<(), Error>(()))
            } else {
                Poll::Ready(Err::<(), Error>(Error::Overflow))
            },
            final(self).handle.reserved() == if old(self).count <= old(self).handle.reserved().len() {
                old(self).handle.reserved().skip(old(self).count as int)
            } else {
                old(self).handle.reserved()
            },
    {
        self.handle.poll_commit(self.count)
    }
}

/// A request to read `count` elements that has yet to be answered.
pub struct Request<'a, T> {
    /// The source that is asked.
    pub handle: &'a mut T,
    /// The number of elements to read.
    pub count: usize,
}

impl<'a, T: Source> Request<'a, T> {
    /// Puts the request to the source once more.
    pub fn poll(&mut self) -> (p: Poll<Result<(), Error>>)
        requires
            old(self).handle.sound(),
        ensures
            final(self).handle.sound(),
            final(self).count == old(self).count,
            *final(final(self).handle) == *final(old(self).handle),
            p == old(self).handle.requesting(old(self).count as int),
            p is Ready && p->Ready_0 is Ok ==> {
                &&& final(self).handle.requested().len() >= old(self).count || final(self).handle.finished()
                &&& final(self).handle.requested().len() >= old(self).handle.requested().len()
                &&& final(self).handle.requested().take(old(self).handle.requested().len() as int)
                    == old(self).handle.requested()
            },
            p is Pending ==> final(self).handle.requested() == old(self).handle.requested(),
    {
        self.handle.poll_request(self.count)
    }
}

/// A request to move past the first `count` elements that has yet to be
/// answered.
pub struct Consume<'a, T> {
    /// The source that is asked.
    pub handle: &'a mut T,
    /// The number of elements to move past.
    pub count: usize,
}

impl<'a, T: Source> Consume<'a, T> {
    /// Puts the request to the source.
    pub fn poll(&mut self) -> (p: Poll<Result<(), Error>>)
        requires
            old(self).handle.sound(),
        ensures
            final(self).handle.sound(),
            final(self).count == old(self).count,
            *final(final(self).handle) == *final(old(self).handle),
            p == if old(self).count <= old(self).handle.requested().len() {
                Poll::Ready(Ok::<(), Error>(()))
            } else {
                Poll::Ready(Err::<(), Error>(Error::Overflow))
            },
            final(self).handle.requested() == if old(self).count <= old(self).handle.requested().len() {
                old(self).handle.requested().skip(old(self).count as int)
            } else {
                old(self).handle.requested()
            },
    {
        self.handle.poll_consume(self.count)
    }
}

impl<V: ViewMut<Error = Error> + crate::view::Sink> Sink for V {
    type Item = V::Item;

    open spec fn sound(&self) -> bool {
        self.valid()
    }

    open spec fn reserved(&self) -> Seq<V::Item> {
        self.granted()
    }

    open spec fn finished(&self) -> bool {
        self.ended()
    }

    open spec fn reserving(&self, count: int) -> Poll<Result<(), Error>> {
        self.answer(count)
    }

    fn sink(&mut self) -> (s: &mut [V::Item]) {
        self.view_mut()
    }

    fn poll_reserve(&mut self, count: usize) -> (p: Poll<Result<(), Error>>) {
        self.poll_grant(count)
    }

    fn poll_commit(&mut self, count: usize) -> (p: Poll<Result<(), Error>>) {
        if count <= self.view().len() {
            self.release(count);
            Poll::Ready(Ok(()))
        } else {
            Poll::Ready(Err(Error::Overflow))
        }
    }
}

impl<V: crate::view::Source<Error = Error>> Source for V {
    type Item = V::Item;

    open spec fn sound(&self) -> bool {
        self.valid()
    }

    open spec fn requested(&self) -> Seq<V::Item> {
        self.granted()
    }

    open spec fn finished(&self) -> bool {
        self.ended()
    }

    open spec fn requesting(&self, count: int) -> Poll<Result<(), Error>> {
        self.answer(count)
    }

    fn source(&self) -> (s: &[V::Item]) {
        self.view()
    }

    fn poll_request(&mut self, count: usize) -> (p: Poll<Result<(), Error>>) {
        self.poll_grant(count)
    }

    fn poll_consume(&mut self, count: usize) -> (p: Poll<Result<(), Error>>) {
        if count <= self.view().len() {
            self.release(count);
            Poll::Ready(Ok(()))
        } else {
            Poll::Ready(Err(Error::Overflow))
        }
    }
}

impl<V: ViewMut<Error = Error> + crate::view::Source> SourceMut for V {
    fn source_mut(&mut self) -> (s: &mut [V::Item]) {
        self.view_mut()
    }
}

} // verus!
