//! Small arithmetic helpers shared by the partition data structures and the
//! search routines.

use vstd::prelude::*;

verus! {

/// Absolute difference of two machine integers, as a mathematical value.
pub open spec fn dist1(a: int, b: int) -> int {
    if a >= b {
        a - b
    } else {
        b - a
    }
}

/// Manhattan distance between two cells.
pub open spec fn manhattan(x1: int, y1: int, x2: int, y2: int) -> int {
    dist1(x1, x2) + dist1(y1, y2)
}

/// Executable absolute difference.
pub fn abs_diff(a: usize, b: usize) -> (r: usize)
    ensures
        r == dist1(a as int, b as int),
{
    if a >= b {
        a - b
    } else {
        b - a
    }
}

/// Executable Manhattan distance between `(x1, y1)` and `(x2, y2)`.
pub fn cell_dist(x1: usize, y1: usize, x2: usize, y2: usize) -> (r: usize)
    requires
        manhattan(x1 as int, y1 as int, x2 as int, y2 as int) <= usize::MAX,
    ensures
        r == manhattan(x1 as int, y1 as int, x2 as int, y2 as int),
{
    let dx = abs_diff(x1, x2);
    let dy = abs_diff(y1, y2);
    dx + dy
}

/// Ceiling division: the least integer at least `n / k`.
pub fn ceil_div(n: usize, k: usize) -> (r: usize)
    requires
        1 <= k,
    ensures
        r == if n as int % k as int == 0 {
            n as int / k as int
        } else {
            n as int / k as int + 1
        },
{
    if n % k == 0 {
        return n / k;
    }
    proof {
        assert(k >= 2);
        assert(n as int / k as int <= n as int / 2) by {
            vstd::arithmetic::div_mod::lemma_div_is_ordered_by_denominator(n as int, 2, k as int);
        }
        assert(n as int / 2 < usize::MAX);
    }
    n / k + 1
}

} // verus!
