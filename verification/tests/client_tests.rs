use mazehem::cell::Cell;
use mazehem::client::Client;
use mazehem::coord::Coord;
use mazehem::data::Data;
use mazehem::input::SerKey;
use mazehem::player::Player;

fn batch() -> Vec<Cell> {
    let mut a = Cell::new(Coord::new(0, 0));
    a.push_neighbor(Coord::new(1, 0));
    let mut b = Cell::new(Coord::new(1, 0));
    b.push_neighbor(Coord::new(1, 1));
    let c = Cell::new(Coord::new(1, 1));
    vec![a, b, c]
}

#[test]
fn fresh_client_has_default_roster_and_no_cells() {
    let client = Client::new();
    assert!(client.cells.is_empty());
    assert_eq!(client.players.len(), 4);
    assert_eq!(client.players[0].coord, Coord::new(0, 0));
    assert_eq!(client.players[3].coord, Coord::new(49, 49));
    assert_eq!(client.last_key, SerKey::Undefined);
}

#[test]
fn merging_the_same_batch_twice_equals_merging_it_once() {
    let mut once = Client::new();
    once.handle_data(&Data::Cells(batch()));
    let mut twice = Client::new();
    twice.handle_data(&Data::Cells(batch()));
    twice.handle_data(&Data::Cells(batch()));
    assert_eq!(once.cells, twice.cells);
    assert_eq!(once.cells.len(), 3);
}

#[test]
fn overlapping_batches_accumulate_by_coordinate() {
    let mut client = Client::new();
    client.handle_data(&Data::Cells(batch()));
    let mut more = batch();
    more.push(Cell::new(Coord::new(0, 1)));
    client.handle_data(&Data::Cells(more));
    assert_eq!(client.cells.len(), 4);
    let coords: Vec<Coord> = client.cells.iter().map(|c| c.coord).collect();
    assert!(coords.contains(&Coord::new(0, 1)));
}

#[test]
fn roster_snapshot_replaces_wholesale() {
    let mut client = Client::new();
    let roster = vec![
        Player { number: 1, coord: Coord::new(5, 5) },
        Player { number: 2, coord: Coord::new(6, 5) },
        Player { number: 3, coord: Coord::new(5, 6) },
        Player { number: 4, coord: Coord::new(6, 6) },
    ];
    let reply = client.handle_data(&Data::Players(roster.clone()));
    assert!(reply.is_none());
    assert_eq!(client.players, roster);
    // A malformed roster (wrong size) is dropped, last writer still wins.
    client.handle_data(&Data::Players(vec![Player { number: 1, coord: Coord::new(0, 0) }]));
    assert_eq!(client.players, roster);
}

#[test]
fn tick_message_repeats_last_sampled_key() {
    let mut client = Client::new();
    assert_eq!(client.tick_message(), Data::Key(SerKey::Undefined));
    client.press(SerKey::Left);
    assert_eq!(client.tick_message(), Data::Key(SerKey::Left));
    assert_eq!(client.tick_message(), Data::Key(SerKey::Left));
}

#[test]
fn connection_request_is_the_connection_message() {
    let client = Client::new();
    assert_eq!(client.connection_request(), Data::Connection);
}

#[test]
fn unexpected_messages_are_ignored() {
    let mut client = Client::new();
    let before = client.cells.clone();
    assert!(client.handle_data(&Data::Connection).is_none());
    assert!(client.handle_data(&Data::Key(SerKey::Up)).is_none());
    assert!(client.handle_data(&Data::Handshake(vec![1, 2])).is_none());
    assert_eq!(client.cells, before);
}
