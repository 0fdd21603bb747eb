//! Small integer helpers for drawing code.

use vstd::prelude::*;

verus! {

/// The smaller of two signed numbers.
pub fn mini(a: isize, b: isize) -> (r: isize)
    ensures
        r <= a,
        r <= b,
        r == a || r == b,
{
    if a < b {
        a
    } else {
        b
    }
}

/// The smaller of two unsigned numbers.
pub fn minu(a: usize, b: usize) -> (r: usize)
    ensures
        r <= a,
        r <= b,
        r == a || r == b,
{
    if a < b {
        a
    } else {
        b
    }
}

/// The larger of two signed numbers.
pub fn maxi(a: isize, b: isize) -> (r: isize)
    ensures
        r >= a,
        r >= b,
        r == a || r == b,
{
    if a < b {
        b
    } else {
        a
    }
}

/// The larger of two unsigned numbers.
pub fn maxu(a: usize, b: usize) -> (r: usize)
    ensures
        r >= a,
        r >= b,
        r == a || r == b,
{
    if a < b {
        b
    } else {
        a
    }
}

/// A point on the screen.
#[derive(Debug, Clone, Copy, PartialEq, Eq, Structural)]
pub struct Point2i {
    x: isize,
    y: isize,
}

impl View for Point2i {
    type V = (isize, isize);

    closed spec fn view(&self) -> (isize, isize) {
        (self.x, self.y)
    }
}

impl Point2i {
    pub fn new(x: isize, y: isize) -> (p: Point2i)
        ensures
            p@ == (x, y),
    {
        Point2i { x, y }
    }

    /// The coordinates, x first.
    pub fn tuple_xy(&self) -> (r: (isize, isize))
        ensures
            r == self@,
    {
        (self.x, self.y)
    }
}

} // verus!
