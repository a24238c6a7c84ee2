//! The view onto a splittable stream.

use vstd::prelude::*;
use vstd::view::View as _;
use crate::splittable::SplittableView;
use crate::view::Poll;

verus! {

/// The answer to a request for a view that goes with the answer `answer`
/// to the question of what is available.
pub open spec fn spec_granted<E>(answer: Poll<Result<usize, E>>) -> Poll<Result<(), E>> {
    match answer {
        Poll::Ready(Ok(_)) => Poll::Ready(Ok(())),
        Poll::Ready(Err(e)) => Poll::Ready(Err(e)),
        Poll::Pending => Poll::Pending,
    }
}

/// A view onto a splittable stream, from the head of the stream on.
pub struct View<T> {
    splittable: T,
    head: u64,
    len: usize,
}

impl<T: SplittableView> View<T> {
    /// The stream that is viewed.
    pub closed spec fn inner(&self) -> T {
        self.splittable
    }

    /// The position of the first element in view.
    pub closed spec fn position(&self) -> int {
        self.head as int
    }

    /// The number of elements in view.
    pub closed spec fn length(&self) -> int {
        self.len as int
    }

    /// The invariant of the view: it stands at the head of its stream and
    /// holds no more than the stream does.
    pub open spec fn wf(&self) -> bool {
        &&& self.inner().valid()
        &&& self.position() == self.inner().head()
        &&& 0 <= self.length() <= self.inner().available().len()
    }

    /// Makes a view onto `splittable`, a stream that has yet to give up
    /// its first element. The view is empty until the first grant.
    pub fn new(splittable: T) -> (v: Self)
        requires
            splittable.valid(),
            splittable.head() == 0,
        ensures
            v.wf(),
            v.inner() == splittable,
            v.position() == 0,
            v.length() == 0,
    {
        View { splittable, head: 0, len: 0 }
    }

    /// Makes a view onto `splittable` that takes up at position `head`,
    /// where the stream has its head: that is where an earlier view onto the
    /// stream left off. The view is empty until the first grant.
    pub fn resume(splittable: T, head: u64) -> (v: Self)
        requires
            splittable.valid(),
            splittable.head() == head,
        ensures
            v.wf(),
            v.inner() == splittable,
            v.position() == head,
            v.length() == 0,
    {
        View { splittable, head, len: 0 }
    }

    /// The position of the first element in view.
    pub fn head(&self) -> (position: u64)
        ensures
            position == self.position(),
    {
        self.head
    }

    /// The stream that is viewed.
    pub fn stream(&self) -> (splittable: &T)
        ensures
            *splittable == self.inner(),
    {
        &self.splittable
    }

    /// The stream that is viewed, for a stream of this crate to be added
    /// to. The view stays where it is.
    pub(crate) fn stream_mut(&mut self) -> (splittable: &mut T)
        ensures
            *splittable == old(self).inner(),
            final(self).inner() == *final(splittable),
            final(self).position() == old(self).position(),
            final(self).length() == old(self).length(),
    {
        &mut self.splittable
    }

    /// Returns the stream that was viewed.
    pub fn into_inner(self) -> (splittable: T)
        ensures
            splittable == self.inner(),
    {
        self.splittable
    }
}

impl<T: SplittableView> crate::view::View for View<T> {
    type Item = T::Item;

    type Error = T::Error;

    open spec fn valid(&self) -> bool {
        self.wf()
    }

    open spec fn granted(&self) -> Seq<T::Item> {
        self.inner().available().take(self.length())
    }

    open spec fn ended(&self) -> bool {
        self.inner().ended()
    }

    open spec fn answer(&self, count: int) -> Poll<Result<(), T::Error>> {
        spec_granted(self.inner().answer(count))
    }

    fn view(&self) -> (v: &[T::Item]) {
        self.splittable.view(self.head, self.len)
    }

    fn poll_grant(&mut self, count: usize) -> (p: Poll<Result<(), T::Error>>)
        ensures
            final(self).inner() == old(self).inner(),
            final(self).position() == old(self).position(),
            p is Ready && p->Ready_0 is Ok ==> final(self).length() == old(self).inner().available().len(),
            !(p is Ready && p->Ready_0 is Ok) ==> final(self).length() == old(self).length(),
    {
        match self.splittable.poll_available(self.head, count) {
            Poll::Ready(Ok(len)) => {
                proof {
                    let all = self.splittable.available();
                    assert(all.take(len as int).take(self.len as int) =~= all.take(
                        self.len as int,
                    ));
                }
                self.len = len;
                Poll::Ready(Ok(()))
            },
            Poll::Ready(Err(e)) => Poll::Ready(Err(e)),
            Poll::Pending => Poll::Pending,
        }
    }

    fn try_grant(&mut self, count: usize) -> (r: Result<bool, T::Error>)
        ensures
            final(self).inner() == old(self).inner(),
            final(self).position() == old(self).position(),
            r == Ok::<bool, T::Error>(true) ==> final(self).length() == old(self).inner().available().len(),
            r != Ok::<bool, T::Error>(true) ==> final(self).length() == old(self).length(),
    {
        match self.splittable.poll_available(self.head, count) {
            Poll::Ready(Ok(len)) => {
                proof {
                    let all = self.splittable.available();
                    assert(all.take(len as int).take(self.len as int) =~= all.take(
                        self.len as int,
                    ));
                }
                self.len = len;
                Ok(true)
            },
            Poll::Ready(Err(e)) => Err(e),
            Poll::Pending => Ok(false),
        }
    }

    fn release(&mut self, count: usize)
        ensures
            final(self).position() == old(self).position() + count,
            final(self).length() == old(self).length() - count,
            final(self).inner().available() == old(self).inner().available().skip(count as int),
    {
        proof {
            self.splittable.lemma_positions_fit();
        }
        self.len = self.len - count;
        self.head = self.head + count as u64;
        self.splittable.set_head(self.head);
        proof {
            let all = old(self).splittable.available();
            assert(all.skip(count as int).take(self.len as int) =~= all.take(
                old(self).len as int,
            ).skip(count as int));
        }
    }
}

} // verus!
