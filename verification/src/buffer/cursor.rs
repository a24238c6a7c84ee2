//! Modular arithmetic on ring cursors.
//!
//! A ring of capacity `size` keeps its cursors in `[0, size)`. The functions
//! here measure the distance between two cursors and move a cursor forward,
//! together with the facts about both that the rest of the crate relies on.

use vstd::prelude::*;

verus! {

/// Number of slots from cursor `first` up to, but not including, cursor
/// `second` on a ring of `size` slots.
pub open spec fn spec_distance(size: int, first: int, second: int) -> int {
    (second + size - first) % size
}

/// The cursor reached from `value` after moving forward by `advance` slots
/// on a ring of `size` slots.
pub open spec fn spec_advance(size: int, value: int, advance: int) -> int {
    (value + advance) % size
}

/// A value in `[0, 2 * size)` reduces modulo `size` by at most one subtraction.
pub proof fn lemma_wrap_once(size: int, x: int)
    requires
        0 <= x < 2 * size,
    ensures
        x % size == if x < size { x } else { x - size },
{
    if x < size {
        vstd::arithmetic::div_mod::lemma_small_mod(x as nat, size as nat);
    } else {
        vstd::arithmetic::div_mod::lemma_small_mod((x - size) as nat, size as nat);
        vstd::arithmetic::div_mod::lemma_mod_sub_multiples_vanish(x, size);
    }
}

/// The distance between two in-range cursors, without the modulus.
pub proof fn lemma_distance_cases(size: int, first: int, second: int)
    requires
        0 <= first < size,
        0 <= second < size,
    ensures
        spec_distance(size, first, second) == if second >= first {
            second - first
        } else {
            second + size - first
        },
        0 <= spec_distance(size, first, second) < size,
{
    lemma_wrap_once(size, second + size - first);
}

/// Moving an in-range cursor by at most one lap, without the modulus.
pub proof fn lemma_advance_cases(size: int, value: int, advance: int)
    requires
        0 <= value < size,
        0 <= advance <= size,
    ensures
        spec_advance(size, value, advance) == if value + advance < size {
            value + advance
        } else {
            value + advance - size
        },
        0 <= spec_advance(size, value, advance) < size,
{
    lemma_wrap_once(size, value + advance);
}

/// A cursor moved forward by `n < size` slots is exactly `n` slots away.
pub proof fn lemma_distance_of_advance(size: int, value: int, n: int)
    requires
        0 <= value < size,
        0 <= n < size,
    ensures
        spec_distance(size, value, spec_advance(size, value, n)) == n,
{
    lemma_advance_cases(size, value, n);
    lemma_distance_cases(size, value, spec_advance(size, value, n));
}

/// Moving a cursor forward by its distance to another cursor reaches it.
pub proof fn lemma_advance_by_distance(size: int, first: int, second: int)
    requires
        0 <= first < size,
        0 <= second < size,
    ensures
        spec_advance(size, first, spec_distance(size, first, second)) == second,
{
    lemma_distance_cases(size, first, second);
    lemma_advance_cases(size, first, spec_distance(size, first, second));
}

/// Two moves in a row are one move by the sum, as long as the sum stays
/// within one lap.
pub proof fn lemma_advance_twice(size: int, value: int, m: int, n: int)
    requires
        0 <= value < size,
        0 <= m,
        0 <= n,
        m + n <= size,
    ensures
        spec_advance(size, spec_advance(size, value, m), n) == spec_advance(size, value, m + n),
{
    lemma_advance_cases(size, value, m);
    lemma_advance_cases(size, spec_advance(size, value, m), n);
    lemma_advance_cases(size, value, m + n);
}

/// Moving the far cursor forward by `n` lengthens the distance by `n`, as
/// long as it does not catch up with the near cursor.
pub proof fn lemma_distance_grows(size: int, first: int, second: int, n: int)
    requires
        0 <= first < size,
        0 <= second < size,
        0 <= n,
        spec_distance(size, first, second) + n < size,
    ensures
        spec_distance(size, first, spec_advance(size, second, n)) == spec_distance(
            size,
            first,
            second,
        ) + n,
{
    lemma_distance_cases(size, first, second);
    lemma_advance_cases(size, second, n);
    lemma_distance_cases(size, first, spec_advance(size, second, n));
}

/// Moving the near cursor forward by `n` shortens the distance by `n`, as
/// long as it does not pass the far cursor.
pub proof fn lemma_distance_shrinks(size: int, first: int, second: int, n: int)
    requires
        0 <= first < size,
        0 <= second < size,
        0 <= n <= spec_distance(size, first, second),
    ensures
        spec_distance(size, spec_advance(size, first, n), second) == spec_distance(
            size,
            first,
            second,
        ) - n,
{
    lemma_distance_cases(size, first, second);
    lemma_advance_cases(size, first, n);
    lemma_distance_cases(size, spec_advance(size, first, n), second);
}

/// Computes the distance from cursor `first` to cursor `second`.
pub fn distance(size: usize, first: usize, second: usize) -> (d: usize)
    requires
        first < size,
        second < size,
    ensures
        d == spec_distance(size as int, first as int, second as int),
        d < size,
{
    proof {
        lemma_distance_cases(size as int, first as int, second as int);
    }
    if second >= first {
        second - first
    } else {
        size - first + second
    }
}

/// Moves cursor `value` forward by `advance` slots.
pub fn advance_value(size: usize, value: usize, advance: usize) -> (moved: usize)
    requires
        value < size,
        advance <= size,
    ensures
        moved == spec_advance(size as int, value as int, advance as int),
        moved < size,
{
    proof {
        lemma_advance_cases(size as int, value as int, advance as int);
    }
    if advance < size - value {
        value + advance
    } else {
        advance - (size - value)
    }
}

} // verus!
