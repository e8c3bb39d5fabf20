use vstd::prelude::*;

verus! {

/// A position on the maze grid. Immutable value type; equality is by fields.
#[derive(Debug, Clone, Copy, PartialEq, Eq, Structural, Hash)]
pub struct Coord {
    pub x: usize,
    pub y: usize,
}

impl Coord {
    pub fn new(x: usize, y: usize) -> (c: Coord)
        ensures
            c == (Coord { x, y }),
    {
        Coord { x, y }
    }

    /// Whether the coordinate lies outside a `w` by `h` grid.
    pub open spec fn spec_out_of_bounds(self, w: usize, h: usize) -> bool {
        self.x >= w || self.y >= h
    }

    pub fn out_of_bounds(&self, w: usize, h: usize) -> (r: bool)
        ensures
            r == self.spec_out_of_bounds(w, h),
    {
        self.x >= w || self.y >= h
    }

    pub open spec fn in_bounds(self, w: usize, h: usize) -> bool {
        !self.spec_out_of_bounds(w, h)
    }
}

/// Two coordinates are grid-adjacent when they differ by exactly one step
/// along exactly one axis.
pub open spec fn adjacent(a: Coord, b: Coord) -> bool {
    ||| a.y == b.y && (a.x + 1 == b.x || b.x + 1 == a.x)
    ||| a.x == b.x && (a.y + 1 == b.y || b.y + 1 == a.y)
}

} // verus!
