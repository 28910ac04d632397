use vstd::prelude::*;

verus! {

/// Distance between two integers.
pub open spec fn abs_diff(x: int, y: int) -> int {
    if x < y {
        y - x
    } else {
        x - y
    }
}

/// Manhattan distance between two cells.
pub open spec fn manhattan(p: (usize, usize), q: (usize, usize)) -> int {
    abs_diff(p.0 as int, q.0 as int) + abs_diff(p.1 as int, q.1 as int)
}

/// Chebyshev distance between two cells.
pub open spec fn chebyshev(p: (usize, usize), q: (usize, usize)) -> int {
    let a = abs_diff(p.0 as int, q.0 as int);
    let b = abs_diff(p.1 as int, q.1 as int);
    if a < b {
        b
    } else {
        a
    }
}

/// Absolute difference of two unsigned integers.
pub fn uabs(x: usize, y: usize) -> (r: usize)
    ensures
        r == abs_diff(x as int, y as int),
{
    if x < y {
        y - x
    } else {
        x - y
    }
}

/// Manhattan distance between `p` and `q`.
pub fn mdist(p: (usize, usize), q: (usize, usize)) -> (r: usize)
    requires
        manhattan(p, q) <= usize::MAX,
    ensures
        r == manhattan(p, q),
{
    uabs(p.0, q.0) + uabs(p.1, q.1)
}

/// Chebyshev distance between `p` and `q`.
pub fn cdist(p: (usize, usize), q: (usize, usize)) -> (r: usize)
    ensures
        r == chebyshev(p, q),
{
    let a = uabs(p.0, q.0);
    let b = uabs(p.1, q.1);
    if a < b {
        b
    } else {
        a
    }
}

} // verus!
