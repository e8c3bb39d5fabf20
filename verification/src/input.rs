use crate::coord::{adjacent, Coord};
use vstd::prelude::*;

verus! {

/// A direction key as it travels over the wire. `Undefined` stands for
/// "no direction pressed" and never moves a player.
#[derive(Debug, Clone, Copy, PartialEq, Eq, Structural)]
pub enum SerKey {
    Undefined,
    Right,
    Down,
    Left,
    Up,
}

/// The coordinate one step from `c` in direction `k`. Steps toward the
/// negative directions saturate at 0; a step past `usize::MAX` saturates
/// there. `Undefined` stays in place.
pub open spec fn spec_move_target(c: Coord, k: SerKey) -> Coord {
    match k {
        SerKey::Undefined => c,
        SerKey::Right => Coord {
            x: if c.x == usize::MAX {
                c.x
            } else {
                (c.x + 1) as usize
            },
            y: c.y,
        },
        SerKey::Left => Coord {
            x: if c.x == 0 {
                0
            } else {
                (c.x - 1) as usize
            },
            y: c.y,
        },
        SerKey::Down => Coord {
            x: c.x,
            y: if c.y == usize::MAX {
                c.y
            } else {
                (c.y + 1) as usize
            },
        },
        SerKey::Up => Coord {
            x: c.x,
            y: if c.y == 0 {
                0
            } else {
                (c.y - 1) as usize
            },
        },
    }
}

/// A saturated one-step target that differs from its origin is
/// grid-adjacent to it (it only fails to be adjacent when saturation
/// collapsed it onto the origin).
pub proof fn lemma_target_adjacent_unless_same(a: Coord, c: Coord)
    requires
        c == spec_move_target(a, SerKey::Left) || c == spec_move_target(a, SerKey::Right)
            || c == spec_move_target(a, SerKey::Up) || c == spec_move_target(a, SerKey::Down),
        c != a,
    ensures
        adjacent(a, c),
{
}

pub fn move_target(c: Coord, k: SerKey) -> (t: Coord)
    ensures
        t == spec_move_target(c, k),
{
    match k {
        SerKey::Undefined => c,
        SerKey::Right => Coord {
            x: if c.x == usize::MAX {
                c.x
            } else {
                c.x + 1
            },
            y: c.y,
        },
        SerKey::Left => Coord {
            x: if c.x == 0 {
                0
            } else {
                c.x - 1
            },
            y: c.y,
        },
        SerKey::Down => Coord {
            x: c.x,
            y: if c.y == usize::MAX {
                c.y
            } else {
                c.y + 1
            },
        },
        SerKey::Up => Coord {
            x: c.x,
            y: if c.y == 0 {
                0
            } else {
                c.y - 1
            },
        },
    }
}

} // verus!
