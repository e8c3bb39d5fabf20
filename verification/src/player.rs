use crate::constants::{HEIGHT, WIDTH};
use crate::coord::Coord;
use vstd::prelude::*;

verus! {

/// One of the four fixed player slots. `number` runs from 1 to 4; the colour
/// a player is drawn with is presentation-only and lives outside this crate.
#[derive(Debug, Clone, Copy, PartialEq, Eq, Structural)]
pub struct Player {
    pub number: usize,
    pub coord: Coord,
}

/// The starting corner of slot `number` on a `w` by `h` grid: slot 1 top
/// left, 2 top right, 3 bottom left, 4 bottom right; any other number falls
/// back to the top left corner.
pub open spec fn spec_start_corner(number: usize, w: usize, h: usize) -> Coord {
    if number == 2 {
        Coord { x: (w - 1) as usize, y: 0 }
    } else if number == 3 {
        Coord { x: 0, y: (h - 1) as usize }
    } else if number == 4 {
        Coord { x: (w - 1) as usize, y: (h - 1) as usize }
    } else {
        Coord { x: 0, y: 0 }
    }
}

impl Player {
    /// A player in its starting corner of the default grid.
    pub fn new(number: usize) -> (p: Player)
        ensures
            p.number == number,
            p.coord == spec_start_corner(number, WIDTH, HEIGHT),
    {
        Player {
            number,
            coord: match number {
                2 => Coord::new(WIDTH - 1, 0),
                3 => Coord::new(0, HEIGHT - 1),
                4 => Coord::new(WIDTH - 1, HEIGHT - 1),
                _ => Coord::new(0, 0),
            },
        }
    }
}

/// The four slots in their starting corners of a `w` by `h` grid.
pub fn corner_players(w: usize, h: usize) -> (r: Vec<Player>)
    requires
        w >= 1,
        h >= 1,
    ensures
        r@.len() == 4,
        forall|i: int|
            0 <= i < 4 ==> r@[i] == (Player {
                number: (i + 1) as usize,
                coord: spec_start_corner((i + 1) as usize, w, h),
            }),
{
    let mut r: Vec<Player> = Vec::new();
    r.push(Player { number: 1, coord: Coord { x: 0, y: 0 } });
    r.push(Player { number: 2, coord: Coord { x: w - 1, y: 0 } });
    r.push(Player { number: 3, coord: Coord { x: 0, y: h - 1 } });
    r.push(Player { number: 4, coord: Coord { x: w - 1, y: h - 1 } });
    r
}

/// The roster as every process starts out with it: the four slots in the
/// corners of the default grid.
pub fn init_players() -> (r: Vec<Player>)
    ensures
        r@.len() == 4,
        forall|i: int|
            0 <= i < 4 ==> r@[i] == (Player {
                number: (i + 1) as usize,
                coord: spec_start_corner((i + 1) as usize, WIDTH, HEIGHT),
            }),
{
    corner_players(WIDTH, HEIGHT)
}

} // verus!
