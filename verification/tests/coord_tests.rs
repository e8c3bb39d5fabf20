use mazehem::cell::Cell;
use mazehem::coord::Coord;
use mazehem::input::{move_target, SerKey};
use mazehem::player::{init_players, Player};

#[test]
fn out_of_bounds_checks_both_axes() {
    assert!(!Coord::new(0, 0).out_of_bounds(1, 1));
    assert!(Coord::new(1, 0).out_of_bounds(1, 1));
    assert!(Coord::new(0, 1).out_of_bounds(1, 1));
    assert!(Coord::new(49, 49).out_of_bounds(50, 49));
    assert!(!Coord::new(49, 48).out_of_bounds(50, 49));
}

#[test]
fn move_target_saturates_at_zero() {
    let origin = Coord::new(0, 0);
    assert_eq!(move_target(origin, SerKey::Left), origin);
    assert_eq!(move_target(origin, SerKey::Up), origin);
    assert_eq!(move_target(origin, SerKey::Right), Coord::new(1, 0));
    assert_eq!(move_target(origin, SerKey::Down), Coord::new(0, 1));
    assert_eq!(move_target(origin, SerKey::Undefined), origin);
}

#[test]
fn adjacent_coords_follow_saturating_arithmetic() {
    let cell = Cell::new(Coord::new(0, 2));
    let adj = cell.get_adjacent_coords();
    assert_eq!(adj.len(), 4);
    assert_eq!(adj[0], Coord::new(0, 2));
    assert_eq!(adj[1], Coord::new(1, 2));
    assert_eq!(adj[2], Coord::new(0, 1));
    assert_eq!(adj[3], Coord::new(0, 3));
}

#[test]
fn players_start_in_the_four_corners() {
    let players = init_players();
    assert_eq!(players.len(), 4);
    assert_eq!(players[0], Player { number: 1, coord: Coord::new(0, 0) });
    assert_eq!(players[1], Player { number: 2, coord: Coord::new(49, 0) });
    assert_eq!(players[2], Player { number: 3, coord: Coord::new(0, 49) });
    assert_eq!(players[3], Player { number: 4, coord: Coord::new(49, 49) });
    assert_eq!(Player::new(2), players[1]);
    assert_eq!(Player::new(7).coord, Coord::new(0, 0));
}
