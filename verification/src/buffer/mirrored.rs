//! Sizing a buffer after a mirrored allocation.
//!
//! Memory that is mapped twice in a row comes in whole pages. A buffer that
//! is to match such an allocation holds as many elements as one half of the
//! allocation does, less the one slot that a ring keeps free.

use vstd::prelude::*;
use vstd::layout::size_of;

verus! {

/// The number of bytes of a mirrored allocation for `len` elements of type
/// `T`.
///
/// Calls `slice_deque::Buffer::<T>::size_in_bytes`, which multiplies `len`
/// by the size of `T` and rounds the product up to an even number of pages,
/// two at least. The size of a page is for the machine to say, so all that
/// is claimed of the result is that it is no less than the product. The
/// product is kept within a quarter of `usize`, which leaves the rounding
/// room for any page that fits a quarter of the address space.
#[verifier::external_body]
fn mirrored_bytes<T>(len: usize) -> (bytes: usize)
    requires
        len * size_of::<T>() <= usize::MAX / 4,
    ensures
        bytes >= len * size_of::<T>(),
{
    slice_deque::Buffer::<T>::size_in_bytes(len)
}

/// The number of elements that a buffer holds if it is to fill a mirrored
/// allocation of `bytes` bytes with elements of `unit` bytes: as many as one
/// half of the allocation holds, less one, and `min_size` at least.
pub open spec fn spec_fit(bytes: int, unit: int, min_size: int) -> int {
    if unit > 0 && bytes / unit / 2 > min_size + 1 {
        bytes / unit / 2 - 1
    } else {
        min_size
    }
}

/// Computes the number of elements that a buffer holds if it is to fill a
/// mirrored allocation of `bytes` bytes with elements of `unit` bytes.
pub fn fit(bytes: usize, unit: usize, min_size: usize) -> (size: usize)
    ensures
        size == spec_fit(bytes as int, unit as int, min_size as int),
        size >= min_size,
{
    if unit == 0 {
        return min_size;
    }
    let half = bytes / unit / 2;
    if min_size < usize::MAX && half > min_size + 1 {
        half - 1
    } else {
        min_size
    }
}

/// Whether a mirrored allocation can be sized for `min_size` elements of
/// `unit` bytes and the slot kept free, twice: the elements have a size,
/// and all of them together stay within a quarter of `usize`.
pub open spec fn spec_sizable(unit: int, min_size: int) -> bool {
    &&& unit > 0
    &&& (usize::MAX / 4) as int / unit >= 2
    &&& min_size < (usize::MAX / 4) as int / unit / 2
}

/// The number of elements, `min_size` at least, with which a buffer of
/// elements of type `T` fills the mirrored allocation that holds `min_size`
/// elements and the slot kept free, twice. Where that allocation cannot be
/// sized the result is `min_size` itself. Where it can, the result is what
/// fits the number of bytes that the allocation takes on this machine: a
/// number that is for the machine to say, but never less than the elements
/// asked for take.
pub fn mirrored_size<T>(min_size: usize) -> (size: usize)
    ensures
        size >= min_size,
        !spec_sizable(size_of::<T>() as int, min_size as int) ==> size == min_size,
        spec_sizable(size_of::<T>() as int, min_size as int) ==> exists|bytes: int|
            {
                &&& 2 * (min_size + 1) * size_of::<T>() <= bytes <= usize::MAX
                &&& size == #[trigger] spec_fit(bytes, size_of::<T>() as int, min_size as int)
            },
{
    let unit = core::mem::size_of::<T>();
    if unit == 0 {
        return min_size;
    }
    let most = usize::MAX / 4 / unit;
    if most < 2 || min_size >= most / 2 {
        return min_size;
    }
    let len: usize = 2 * (min_size + 1);
    assert(len * unit <= usize::MAX / 4) by (nonlinear_arith)
        requires
            len <= most,
            unit > 0,
            most == (usize::MAX / 4) as int / unit as int,
    ;
    let bytes = mirrored_bytes::<T>(len);
    fit(bytes, unit, min_size)
}

} // verus!
