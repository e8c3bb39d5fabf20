use crate::coord::{adjacent, Coord};
use crate::input::{spec_move_target, SerKey};
use vstd::prelude::*;

verus! {

/// One cell of the maze graph: its own coordinate and the list of adjacent
/// coordinates that were connected to it during generation. A link is stored
/// on one side only (parent to child), so passability between two cells must
/// always be tested in both directions.
#[derive(Debug, Clone, PartialEq)]
pub struct Cell {
    pub coord: Coord,
    pub n: Vec<Coord>,
}

/// The mathematical value of a `Cell`: its coordinate and link list.
pub struct CellView {
    pub coord: Coord,
    pub n: Seq<Coord>,
}

impl View for Cell {
    type V = CellView;

    open spec fn view(&self) -> CellView {
        CellView { coord: self.coord, n: self.n@ }
    }
}

impl Cell {
    pub fn new(coord: Coord) -> (c: Cell)
        ensures
            c.coord == coord,
            c.n@ == Seq::<Coord>::empty(),
    {
        Cell { coord, n: Vec::new() }
    }

    /// The four grid neighbours of this cell's coordinate, with saturating
    /// arithmetic: at a zero edge the "negative" neighbour collapses onto the
    /// cell's own coordinate.
    pub fn get_adjacent_coords(&self) -> (r: Vec<Coord>)
        ensures
            r@ == seq![
                spec_move_target(self.coord, SerKey::Left),
                spec_move_target(self.coord, SerKey::Right),
                spec_move_target(self.coord, SerKey::Up),
                spec_move_target(self.coord, SerKey::Down),
            ],
    {
        let mut r: Vec<Coord> = Vec::new();
        r.push(crate::input::move_target(self.coord, SerKey::Left));
        r.push(crate::input::move_target(self.coord, SerKey::Right));
        r.push(crate::input::move_target(self.coord, SerKey::Up));
        r.push(crate::input::move_target(self.coord, SerKey::Down));
        proof {
            assert(r@ =~= seq![
                spec_move_target(self.coord, SerKey::Left),
                spec_move_target(self.coord, SerKey::Right),
                spec_move_target(self.coord, SerKey::Up),
                spec_move_target(self.coord, SerKey::Down),
            ]);
        }
        r
    }

    pub fn push_neighbor(&mut self, coord: Coord)
        ensures
            final(self).coord == old(self).coord,
            final(self).n@ == old(self).n@.push(coord),
    {
        self.n.push(coord);
    }

    /// A deep copy; `Cell` carries a vector, so this is spelled out rather
    /// than derived.
    pub fn duplicate(&self) -> (r: Cell)
        ensures
            r.coord == self.coord,
            r.n@ == self.n@,
    {
        let mut n: Vec<Coord> = Vec::new();
        let mut i: usize = 0;
        while i < self.n.len()
            invariant
                i <= self.n.len(),
                n@ == self.n@.subrange(0, i as int),
            decreases self.n.len() - i,
        {
            n.push(self.n[i]);
            i = i + 1;
        }
        proof {
            assert(n@ =~= self.n@);
        }
        Cell { coord: self.coord, n }
    }
}

/// Any coordinate adjacent to `a` is one of the four saturated neighbour
/// coordinates that `get_adjacent_coords` lists.
pub proof fn lemma_adjacent_is_listed(a: Coord, c: Coord)
    requires
        adjacent(a, c),
    ensures
        c == spec_move_target(a, SerKey::Left) || c == spec_move_target(a, SerKey::Right)
            || c == spec_move_target(a, SerKey::Up) || c == spec_move_target(a, SerKey::Down),
{
}

} // verus!
