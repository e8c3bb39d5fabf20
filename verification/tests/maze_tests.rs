use mazehem::cell::Cell;
use mazehem::coord::Coord;
use mazehem::maze::Maze;

use std::collections::VecDeque;

fn link_count(cells: &indexmap::IndexMap<Coord, Cell>) -> usize {
    cells.values().map(|c| c.n.len()).sum()
}

fn reachable_count(cells: &indexmap::IndexMap<Coord, Cell>, root: Coord) -> usize {
    let mut visited: Vec<Coord> = Vec::new();
    let mut queue: VecDeque<Coord> = VecDeque::new();
    queue.push_back(root);
    visited.push(root);
    while let Some(cur) = queue.pop_front() {
        for (coord, cell) in cells.iter() {
            let linked = (cur == *coord && false)
                || cells.get(&cur).map(|c| c.n.contains(coord)).unwrap_or(false)
                || cell.n.contains(&cur);
            if linked && !visited.contains(coord) {
                visited.push(*coord);
                queue.push_back(*coord);
            }
        }
    }
    visited.len()
}

#[test]
fn generation_4x4_has_16_cells_and_15_links() {
    let mut maze = Maze::new(4, 4);
    let cells = maze.generate();
    assert_eq!(cells.len(), 16);
    assert_eq!(link_count(&cells), 15);
    let root = Coord::new(2, 2);
    for (coord, cell) in cells.iter() {
        if *coord != root {
            let incoming = cells.values().any(|c| c.n.contains(coord));
            let outgoing = !cell.n.is_empty();
            assert!(incoming || outgoing);
        }
    }
}

#[test]
fn generation_4x4_is_connected_from_root() {
    let mut maze = Maze::new(4, 4);
    let cells = maze.generate();
    assert_eq!(reachable_count(&cells, Coord::new(2, 2)), 16);
}

#[test]
fn generation_root_is_grid_centre_and_first() {
    let mut maze = Maze::new(5, 3);
    let cells = maze.generate();
    let (first, _) = cells.get_index(0).unwrap();
    assert_eq!(*first, Coord::new(2, 1));
    assert_eq!(cells.len(), 15);
    assert_eq!(link_count(&cells), 14);
}

#[test]
fn generation_degenerate_single_cell() {
    let mut maze = Maze::new(1, 1);
    let cells = maze.generate();
    assert_eq!(cells.len(), 1);
    assert_eq!(link_count(&cells), 0);
    assert!(cells.contains_key(&Coord::new(0, 0)));
}

#[test]
fn generation_degenerate_single_row() {
    let mut maze = Maze::new(6, 1);
    let cells = maze.generate();
    assert_eq!(cells.len(), 6);
    assert_eq!(link_count(&cells), 5);
    assert_eq!(reachable_count(&cells, Coord::new(3, 0)), 6);
}

#[test]
fn generation_from_same_choices_is_deterministic() {
    let choices: Vec<(usize, usize)> = vec![(7, 3), (1, 9), (4, 0), (2, 2), (5, 1), (0, 8), (3, 3), (6, 5)];
    let mut first = Maze::new(3, 3);
    let a = first.generate_from(&choices);
    let mut second = Maze::new(3, 3);
    let b = second.generate_from(&choices);
    assert_eq!(a.len(), b.len());
    for (coord, cell) in a.iter() {
        let other = b.get(coord).expect("same coordinates in both runs");
        assert_eq!(cell.coord, other.coord);
        assert_eq!(cell.n, other.n);
    }
}

#[test]
fn generated_links_join_grid_neighbours() {
    let mut maze = Maze::new(4, 4);
    let cells = maze.generate();
    for cell in cells.values() {
        for n in &cell.n {
            let dx = cell.coord.x.abs_diff(n.x);
            let dy = cell.coord.y.abs_diff(n.y);
            assert_eq!(dx + dy, 1);
            assert!(n.x < 4 && n.y < 4);
        }
    }
}
