//! Views onto streams that are addressed by position.
//!
//! A splittable stream numbers its elements from zero on, and never
//! reuses a number. It tells how many elements are available from a
//! position on and hands them out as one slice; the view keeps the position
//! and the length of what it was granted.

pub mod view;

use vstd::prelude::*;
use vstd::view::View as _;
use crate::view::Poll;

pub use self::view::View;

verus! {

/// A stream that can be viewed from the position of its head.
pub trait SplittableView: Sized {
    /// The streamed type.
    type Item;

    /// The error reported when nothing can be made available.
    type Error;

    /// Whether the stream is valid; every method keeps it so.
    spec fn valid(&self) -> bool;

    /// The position of the oldest element that the stream still holds.
    spec fn head(&self) -> int;

    /// The elements that the stream holds, from its head on.
    spec fn available(&self) -> Seq<Self::Item>;

    /// Whether the stream has ended, so that no further element will
    /// arrive.
    spec fn ended(&self) -> bool;

    /// The answer that a request for `count` elements gets in the present
    /// state.
    spec fn answer(&self, count: int) -> Poll<Result<usize, Self::Error>>;

    /// The positions of a valid stream fit the machine.
    proof fn lemma_positions_fit(&self)
        requires
            self.valid(),
        ensures
            0 <= self.head(),
            self.head() + self.available().len() <= u64::MAX,
            self.available().len() <= usize::MAX,
    ;

    /// Asks how many elements are available from position `index` on,
    /// where at least `count` are wanted. The number reported is that of
    /// all the elements the stream holds; it is below `count` only where
    /// the stream has ended.
    fn poll_available(&self, index: u64, count: usize) -> (p: Poll<Result<usize, Self::Error>>)
        requires
            self.valid(),
            index == self.head(),
        ensures
            p == self.answer(count as int),
            p is Ready && p->Ready_0 is Ok ==> {
                &&& p->Ready_0->Ok_0 == self.available().len()
                &&& p->Ready_0->Ok_0 >= count || self.ended()
            },
    ;

    /// The `len` elements from position `index` on.
    fn view(&self, index: u64, len: usize) -> (v: &[Self::Item])
        requires
            self.valid(),
            index == self.head(),
            len <= self.available().len(),
        ensures
            v@ == self.available().take(len as int),
    ;

    /// Moves the head of the stream to position `index`: what lies before
    /// it is given up.
    fn set_head(&mut self, index: u64)
        requires
            old(self).valid(),
            old(self).head() <= index <= old(self).head() + old(self).available().len(),
        ensures
            final(self).valid(),
            final(self).head() == index,
            final(self).available() == old(self).available().skip(index - old(self).head()),
            final(self).ended() == old(self).ended(),
    ;
}

} // verus!
