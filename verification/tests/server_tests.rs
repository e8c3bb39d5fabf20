use indexmap::IndexMap;
use mazehem::cell::Cell;
use mazehem::client::Client;
use mazehem::coord::Coord;
use mazehem::crypto::challenge_bytes;
use mazehem::data::Data;
use mazehem::input::SerKey;
use mazehem::player::Player;
use mazehem::server::{Addr, ClientSession, Server};

const KEY_BITS: usize = 384;

fn addr(n: u128) -> Addr {
    Addr { ip: n, port: 9090 }
}

/// A fixed 2x2 maze whose passages run (0,0)-(1,0)-(1,1)-(0,1): the edge
/// between (0,0) and (0,1) is deliberately not carved.
fn two_by_two_server(client: Addr) -> Server {
    let mut server = Server::new(1, 1, KEY_BITS).expect("key generation");
    let mut cells: IndexMap<Coord, Cell> = IndexMap::new();
    let mut c00 = Cell::new(Coord::new(0, 0));
    c00.push_neighbor(Coord::new(1, 0));
    let mut c10 = Cell::new(Coord::new(1, 0));
    c10.push_neighbor(Coord::new(1, 1));
    let mut c11 = Cell::new(Coord::new(1, 1));
    c11.push_neighbor(Coord::new(0, 1));
    let c01 = Cell::new(Coord::new(0, 1));
    cells.insert(c00.coord, c00);
    cells.insert(c10.coord, c10);
    cells.insert(c11.coord, c11);
    cells.insert(c01.coord, c01);
    server.width = 2;
    server.height = 2;
    server.cells = cells;
    server.players = vec![
        Player { number: 1, coord: Coord::new(0, 0) },
        Player { number: 2, coord: Coord::new(1, 0) },
        Player { number: 3, coord: Coord::new(0, 1) },
        Player { number: 4, coord: Coord::new(1, 1) },
    ];
    server.sessions = vec![ClientSession { addr: client, slot: 0 }];
    server
}

#[test]
fn rejected_move_leaves_player_in_place() {
    let client = addr(1);
    let mut server = two_by_two_server(client);
    // No passage joins (0,0) and (0,1), so Down is dropped silently.
    let msgs = server.handle_data(client, &Data::Key(SerKey::Down));
    assert!(msgs.is_empty());
    let broadcast = server.broadcast();
    assert_eq!(broadcast.len(), 1);
    assert_eq!(broadcast[0].0, client);
    match &broadcast[0].1 {
        Data::Players(roster) => assert_eq!(roster[0].coord, Coord::new(0, 0)),
        other => panic!("expected a roster snapshot, got {:?}", other),
    }
}

#[test]
fn allowed_move_shifts_player_one_cell() {
    let client = addr(1);
    let mut server = two_by_two_server(client);
    server.handle_data(client, &Data::Key(SerKey::Right));
    assert_eq!(server.players[0].coord, Coord::new(1, 0));
    // The passage is stored on the (0,0) side only, yet walking back works.
    server.handle_data(client, &Data::Key(SerKey::Left));
    assert_eq!(server.players[0].coord, Coord::new(0, 0));
}

#[test]
fn out_of_bounds_move_is_dropped() {
    let client = addr(1);
    let mut server = two_by_two_server(client);
    server.handle_data(client, &Data::Key(SerKey::Up));
    assert_eq!(server.players[0].coord, Coord::new(0, 0));
    server.handle_data(client, &Data::Key(SerKey::Undefined));
    assert_eq!(server.players[0].coord, Coord::new(0, 0));
}

#[test]
fn key_from_unknown_address_is_ignored() {
    let client = addr(1);
    let mut server = two_by_two_server(client);
    server.handle_data(addr(99), &Data::Key(SerKey::Right));
    assert_eq!(server.players[0].coord, Coord::new(0, 0));
}

#[test]
fn handshake_round_admits_client_and_transfers_maze_in_batches() {
    let mut server = Server::new(4, 4, KEY_BITS).expect("key generation");
    let mut client = Client::new();
    let peer = addr(7);

    let offers = server.handle_data(peer, &Data::Connection);
    assert_eq!(offers.len(), 1);
    assert_eq!(offers[0].0, peer);
    assert!(matches!(offers[0].1, Data::PublicKeyOffer(_)));
    assert!(server.sessions.is_empty());

    let reply = client.handle_data(&offers[0].1).expect("handshake reply");
    assert!(matches!(reply, Data::Handshake(_)));

    let batches = server.handle_data(peer, &reply);
    assert_eq!(server.sessions.len(), 1);
    assert_eq!(server.sessions[0].addr, peer);
    assert_eq!(server.sessions[0].slot, 0);
    let mut total = 0;
    for (to, msg) in &batches {
        assert_eq!(*to, peer);
        match msg {
            Data::Cells(batch) => {
                assert!(batch.len() <= 10);
                assert!(!batch.is_empty());
                total += batch.len();
            },
            other => panic!("expected a cell batch, got {:?}", other),
        }
    }
    assert_eq!(total, 16);

    // A duplicate correct handshake is an idempotent no-op.
    let again = server.handle_data(peer, &reply);
    assert!(again.is_empty());
    assert_eq!(server.sessions.len(), 1);
}

#[test]
fn wrong_challenge_is_dropped_silently() {
    let peer = addr(3);
    let mut server = two_by_two_server(addr(1));
    let msgs = server.on_handshake_plaintext(peer, &vec![1, 2, 3]);
    assert!(msgs.is_empty());
    assert_eq!(server.sessions.len(), 1);
    // Garbage ciphertext is equally silent.
    let msgs = server.handle_data(peer, &Data::Handshake(vec![0; 48]));
    assert!(msgs.is_empty());
    assert_eq!(server.sessions.len(), 1);
}

#[test]
fn fifth_address_is_never_admitted_nor_broadcast_to() {
    let mut server = two_by_two_server(addr(1));
    server.sessions = vec![
        ClientSession { addr: addr(1), slot: 0 },
        ClientSession { addr: addr(2), slot: 1 },
        ClientSession { addr: addr(3), slot: 2 },
        ClientSession { addr: addr(4), slot: 3 },
    ];
    let fifth = addr(5);
    let msgs = server.on_handshake_plaintext(fifth, &challenge_bytes());
    assert!(msgs.is_empty());
    assert_eq!(server.sessions.len(), 4);
    for s in &server.sessions {
        assert_ne!(s.addr, fifth);
    }
    let broadcast = server.broadcast();
    assert_eq!(broadcast.len(), 4);
    for (to, _) in &broadcast {
        assert_ne!(*to, fifth);
    }
}

#[test]
fn disconnect_frees_session_and_slot_but_not_the_player() {
    let one = addr(1);
    let two = addr(2);
    let mut server = two_by_two_server(one);
    server.sessions.push(ClientSession { addr: two, slot: 1 });
    server.handle_data(one, &Data::Key(SerKey::Right));
    server.on_disconnect(one);
    assert_eq!(server.sessions.len(), 1);
    assert_eq!(server.sessions[0].addr, two);
    // The player stays where it was last seen.
    assert_eq!(server.players[0].coord, Coord::new(1, 0));
    let broadcast = server.broadcast();
    assert_eq!(broadcast.len(), 1);
    assert_eq!(broadcast[0].0, two);
}

#[test]
fn freed_slot_is_reused_for_the_next_admission() {
    let mut server = two_by_two_server(addr(1));
    server.sessions = vec![
        ClientSession { addr: addr(1), slot: 0 },
        ClientSession { addr: addr(2), slot: 1 },
        ClientSession { addr: addr(3), slot: 2 },
    ];
    server.on_disconnect(addr(2));
    let msgs = server.on_handshake_plaintext(addr(9), &challenge_bytes());
    assert!(!msgs.is_empty());
    assert_eq!(server.sessions.len(), 3);
    assert_eq!(server.sessions[2].addr, addr(9));
    assert_eq!(server.sessions[2].slot, 1);
}
