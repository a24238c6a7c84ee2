//! Views into streams of contiguous data.

use vstd::prelude::*;
use vstd::view::View as _;

verus! {

/// Whether a request has been answered yet.
#[derive(Debug, PartialEq, Eq, Structural)]
pub enum Poll<T> {
    /// The answer.
    Ready(T),
    /// No answer yet: ask again once the other side has made progress.
    Pending,
}

/// The answer a request that does not wait gives where a request that
/// waits gives `answer`: whether the grant was made.
pub open spec fn spec_at_once<E>(answer: Poll<Result<(), E>>) -> Result<bool, E> {
    match answer {
        Poll::Ready(Ok(_)) => Ok(true),
        Poll::Ready(Err(e)) => Err(e),
        Poll::Pending => Ok(false),
    }
}

/// Turns the answer of a request that waits into that of one that does
/// not.
pub fn at_once<E>(answer: Poll<Result<(), E>>) -> (r: Result<bool, E>)
    ensures
        r == spec_at_once(answer),
{
    match answer {
        Poll::Ready(Ok(_)) => Ok(true),
        Poll::Ready(Err(e)) => Err(e),
        Poll::Pending => Ok(false),
    }
}


/// A window onto a stream of contiguous data.
///
/// A view starts out empty. A grant widens it to at least the number of
/// elements asked for, a release narrows it from the front, and what lies
/// in between is stable: nothing but the owner of the view touches it.
pub trait View: Sized {
    /// The streamed type.
    type Item;

    /// The error reported when a grant cannot be made.
    type Error;

    /// Whether the view is valid; every method keeps it so.
    spec fn valid(&self) -> bool;

    /// The elements in view.
    spec fn granted(&self) -> Seq<Self::Item>;

    /// Whether the stream has ended, so that a grant may fall short of the
    /// request.
    spec fn ended(&self) -> bool;

    /// The answer that a request for `count` elements gets in the present
    /// state.
    spec fn answer(&self, count: int) -> Poll<Result<(), Self::Error>>;

    /// The current view of the stream.
    fn view(&self) -> (v: &[Self::Item])
        requires
            self.valid(),
        ensures
            v@ == self.granted(),
    ;

    /// Asks for a view of at least `count` elements. A view that is
    /// granted holds at least that many unless the stream has ended, and
    /// starts with what was in view before; a request that has to wait
    /// leaves the view as it was.
    fn poll_grant(&mut self, count: usize) -> (p: Poll<Result<(), Self::Error>>)
        requires
            old(self).valid(),
        ensures
            final(self).valid(),
            p == old(self).answer(count as int),
            p is Ready && p->Ready_0 is Ok ==> {
                &&& final(self).granted().len() >= count || final(self).ended()
                &&& final(self).granted().len() >= old(self).granted().len()
                &&& final(self).granted().take(old(self).granted().len() as int) == old(self).granted()
            },
            p is Pending ==> final(self).granted() == old(self).granted(),
    ;

    /// Asks for a view of at least `count` elements without waiting:
    /// `Ok(true)` where `poll_grant` grants, `Ok(false)` where it would
    /// wait.
    fn try_grant(&mut self, count: usize) -> (r: Result<bool, Self::Error>)
        requires
            old(self).valid(),
        ensures
            final(self).valid(),
            r == spec_at_once(old(self).answer(count as int)),
            r == Ok::<bool, Self::Error>(true) ==> {
                &&& final(self).granted().len() >= count || final(self).ended()
                &&& final(self).granted().len() >= old(self).granted().len()
                &&& final(self).granted().take(old(self).granted().len() as int) == old(self).granted()
            },
            r == Ok::<bool, Self::Error>(false) ==> final(self).granted() == old(self).granted(),
    ;

    /// Moves past the first `count` elements of the view.
    fn release(&mut self, count: usize)
        requires
            old(self).valid(),
            count <= old(self).granted().len(),
        ensures
            final(self).valid(),
            final(self).granted() == old(self).granted().skip(count as int),
    ;

    /// Makes a request for a view of at least `count` elements, to be put
    /// with `Grant::poll`.
    fn grant(&mut self, count: usize) -> (g: Grant<'_, Self>)
        ensures
            *g.handle == *old(self),
            *final(g.handle) == *final(self),
            g.count == count,
    {
        Grant { handle: self, count }
    }
}

/// A view whose elements can be written.
pub trait ViewMut: View {
    /// The current view of the stream, to write into. Once the borrow ends
    /// the view holds what the slice held last.
    fn view_mut(&mut self) -> (v: &mut [Self::Item])
        requires
            old(self).valid(),
        ensures
            v@ == old(self).granted(),
            final(v)@.len() == v@.len() ==> final(self).valid() && final(self).granted()
                == final(v)@,
    ;
}

/// Marks a view that reads from its stream: a newly granted view holds data
/// of the stream.
pub trait Source: View {

}

/// Marks a view that writes to its stream: what a released view held is
/// committed to the stream.
pub trait Sink: ViewMut {

}

/// A request for a view of `count` elements that has yet to be answered.
pub struct Grant<'a, T> {
    /// The view that is asked.
    pub handle: &'a mut T,
    /// The number of elements asked for.
    pub count: usize,
}

impl<'a, T: View> Grant<'a, T> {
    /// Makes a request of `handle` for `count` elements.
    pub fn new(handle: &'a mut T, count: usize) -> (g: Self)
        ensures
            *g.handle == *old(handle),
            *final(g.handle) == *final(handle),
            g.count == count,
    {
        Grant { handle, count }
    }

    /// Puts the request to the view once more.
    pub fn poll(&mut self) -> (p: Poll<Result<(), T::Error>>)
        requires
            old(self).handle.valid(),
        ensures
            final(self).handle.valid(),
            final(self).count == old(self).count,
            *final(final(self).handle) == *final(old(self).handle),
            p == old(self).handle.answer(old(self).count as int),
            p is Ready && p->Ready_0 is Ok ==> {
                &&& final(self).handle.granted().len() >= old(self).count || final(self).handle.ended()
                &&& final(self).handle.granted().len() >= old(self).handle.granted().len()
                &&& final(self).handle.granted().take(old(self).handle.granted().len() as int)
                    == old(self).handle.granted()
            },
            p is Pending ==> final(self).handle.granted() == old(self).handle.granted(),
    {
        self.handle.poll_grant(self.count)
    }
}

/// Wraps `view` into a view that reports the errors that `f` makes of its
/// errors.
pub fn map_error<V: View, E, F: Fn(V::Error) -> E>(view: V, f: F) -> (m: MapError<V, E, F>)
    ensures
        m.inner() == view,
        m.mapper() == f,
{
    MapError::new(view, f)
}

/// A view that reports the errors of another view in another form.
#[derive(Debug, Hash)]
pub struct MapError<V, E, F> {
    view: V,
    map: F,
    error: core::marker::PhantomData<E>,
}

impl<V: View, E, F: Fn(V::Error) -> E> MapError<V, E, F> {
    /// The view that is wrapped.
    pub closed spec fn inner(&self) -> V {
        self.view
    }

    /// The function that maps the errors.
    pub closed spec fn mapper(&self) -> F {
        self.map
    }

    /// Whether the view is valid: the wrapped view is, and the mapper takes
    /// every error.
    pub open spec fn valid(&self) -> bool {
        &&& self.inner().valid()
        &&& forall|e: V::Error| #[trigger] call_requires(self.mapper(), (e,))
    }

    /// Whether `mapped` is an answer that the mapper can make of `answer`:
    /// the same but for an error, which is one that the mapper returns for
    /// the error of `answer`.
    pub open spec fn maps(&self, answer: Poll<Result<(), V::Error>>, mapped: Poll<Result<(), E>>) -> bool {
        match answer {
            Poll::Ready(Ok(_)) => mapped == Poll::Ready(Ok::<(), E>(())),
            Poll::Pending => mapped == Poll::<Result<(), E>>::Pending,
            Poll::Ready(Err(e)) => mapped is Ready && mapped->Ready_0 is Err && call_ensures(
                self.mapper(),
                (e,),
                mapped->Ready_0->Err_0,
            ),
        }
    }

    /// Wraps `view` into a view that reports the errors that `map` makes
    /// of its errors.
    pub fn new(view: V, map: F) -> (m: Self)
        ensures
            m.inner() == view,
            m.mapper() == map,
    {
        MapError { view, map, error: core::marker::PhantomData }
    }

    /// Returns the view that was wrapped.
    pub fn into_inner(self) -> (view: V)
        ensures
            view == self.inner(),
    {
        self.view
    }

    /// The current view of the stream.
    pub fn view(&self) -> (v: &[V::Item])
        requires
            self.valid(),
        ensures
            v@ == self.inner().granted(),
    {
        self.view.view()
    }

    /// Asks the wrapped view for at least `count` elements, and maps the
    /// error if there is one.
    pub fn poll_grant(&mut self, count: usize) -> (p: Poll<Result<(), E>>)
        requires
            old(self).valid(),
        ensures
            final(self).valid(),
            final(self).mapper() == old(self).mapper(),
            old(self).maps(old(self).inner().answer(count as int), p),
            p is Ready && p->Ready_0 is Ok ==> {
                &&& final(self).inner().granted().len() >= count || final(self).inner().ended()
                &&& final(self).inner().granted().len() >= old(self).inner().granted().len()
                &&& final(self).inner().granted().take(old(self).inner().granted().len() as int)
                    == old(self).inner().granted()
            },
            p is Pending ==> final(self).inner().granted() == old(self).inner().granted(),
    {
        let answer = self.view.poll_grant(count);
        assert(self.mapper() == old(self).mapper());
        match answer {
            Poll::Ready(Ok(_)) => Poll::Ready(Ok(())),
            Poll::Ready(Err(e)) => {
                assert(call_requires(old(self).mapper(), (e,)));
                Poll::Ready(Err((self.map)(e)))
            },
            Poll::Pending => Poll::Pending,
        }
    }

    /// Asks the wrapped view for at least `count` elements without
    /// waiting, and maps the error if there is one.
    pub fn try_grant(&mut self, count: usize) -> (r: Result<bool, E>)
        requires
            old(self).valid(),
        ensures
            final(self).valid(),
            final(self).mapper() == old(self).mapper(),
            match spec_at_once(old(self).inner().answer(count as int)) {
                Ok(granted) => r == Ok::<bool, E>(granted),
                Err(e) => r is Err && call_ensures(old(self).mapper(), (e,), r->Err_0),
            },
            r == Ok::<bool, E>(true) ==> {
                &&& final(self).inner().granted().len() >= count || final(self).inner().ended()
                &&& final(self).inner().granted().len() >= old(self).inner().granted().len()
                &&& final(self).inner().granted().take(old(self).inner().granted().len() as int)
                    == old(self).inner().granted()
            },
            r == Ok::<bool, E>(false) ==> final(self).inner().granted() == old(self).inner().granted(),
    {
        let answer = self.view.try_grant(count);
        assert(self.mapper() == old(self).mapper());
        match answer {
            Ok(granted) => Ok(granted),
            Err(e) => {
                assert(call_requires(old(self).mapper(), (e,)));
                Err((self.map)(e))
            },
        }
    }

    /// Moves past the first `count` elements of the view.
    pub fn release(&mut self, count: usize)
        requires
            old(self).valid(),
            count <= old(self).inner().granted().len(),
        ensures
            final(self).valid(),
            final(self).mapper() == old(self).mapper(),
            final(self).inner().granted() == old(self).inner().granted().skip(count as int),
    {
        self.view.release(count);
        assert(self.mapper() == old(self).mapper());
    }
}

impl<V: ViewMut, E, F: Fn(V::Error) -> E> MapError<V, E, F> {
    /// The current view of the stream, to write into.
    pub fn view_mut(&mut self) -> (v: &mut [V::Item])
        requires
            old(self).valid(),
        ensures
            v@ == old(self).inner().granted(),
            final(self).mapper() == old(self).mapper(),
            final(v)@.len() == v@.len() ==> final(self).valid() && final(self).inner().granted()
                == final(v)@,
    {
        self.view.view_mut()
    }
}

impl<V: Clone, E, F: Clone> Clone for MapError<V, E, F> {
    fn clone(&self) -> (copy: Self) {
        MapError { view: self.view.clone(), map: self.map.clone(), error: core::marker::PhantomData }
    }
}

impl<V: Copy, E, F: Copy> Copy for MapError<V, E, F> {

}

} // verus!
