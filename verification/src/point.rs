use vstd::prelude::*;

verus! {

/// A point of the plane with non-negative integer coordinates.
///
/// Two points are equal exactly when both coordinates are equal.
#[derive(Clone, Copy, Debug, PartialEq, Eq, Structural)]
pub struct Point {
    x: usize,
    y: usize,
}

impl View for Point {
    type V = (nat, nat);

    /// The pair of coordinates.
    closed spec fn view(&self) -> (nat, nat) {
        (self.x as nat, self.y as nat)
    }
}

impl Point {
    /// The point with the given coordinates.
    pub fn new(x: usize, y: usize) -> (p: Point)
        ensures
            p@ == (x as nat, y as nat),
    {
        Point { x, y }
    }

    /// The first coordinate.
    pub fn x(&self) -> (x: usize)
        ensures
            x == self@.0,
    {
        self.x
    }

    /// The second coordinate.
    pub fn y(&self) -> (y: usize)
        ensures
            y == self@.1,
    {
        self.y
    }

    /// A point is determined by its coordinates.
    pub proof fn lemma_view_injective(p: Point, q: Point)
        ensures
            p@ == q@ <==> p == q,
    {
    }
}

} // verus!
