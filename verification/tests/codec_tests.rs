use mazehem::cell::Cell;
use mazehem::codec::{decode_data, encode_data};
use mazehem::coord::Coord;
use mazehem::data::Data;
use mazehem::input::SerKey;
use mazehem::player::Player;

fn round_trip(d: Data) {
    let bytes = encode_data(&d);
    let back = decode_data(&bytes);
    assert_eq!(back, Some(d));
}

#[test]
fn round_trip_connection() {
    round_trip(Data::Connection);
}

#[test]
fn round_trip_public_key_offer() {
    round_trip(Data::PublicKeyOffer(vec![1, 2, 3, 250, 0, 7]));
    round_trip(Data::PublicKeyOffer(Vec::new()));
}

#[test]
fn round_trip_handshake() {
    round_trip(Data::Handshake(vec![9; 64]));
}

#[test]
fn round_trip_cells() {
    let mut a = Cell::new(Coord::new(0, 0));
    a.push_neighbor(Coord::new(1, 0));
    a.push_neighbor(Coord::new(0, 1));
    let b = Cell::new(Coord::new(1, 0));
    round_trip(Data::Cells(vec![a, b]));
    round_trip(Data::Cells(Vec::new()));
}

#[test]
fn round_trip_players() {
    let roster = vec![
        Player { number: 1, coord: Coord::new(0, 0) },
        Player { number: 2, coord: Coord::new(49, 0) },
        Player { number: 3, coord: Coord::new(0, 49) },
        Player { number: 4, coord: Coord::new(49, 49) },
    ];
    round_trip(Data::Players(roster));
}

#[test]
fn round_trip_keys() {
    round_trip(Data::Key(SerKey::Undefined));
    round_trip(Data::Key(SerKey::Right));
    round_trip(Data::Key(SerKey::Down));
    round_trip(Data::Key(SerKey::Left));
    round_trip(Data::Key(SerKey::Up));
}

#[test]
fn exact_bytes_of_small_messages() {
    assert_eq!(encode_data(&Data::Connection), vec![0]);
    assert_eq!(encode_data(&Data::Key(SerKey::Up)), vec![5, 4]);
    assert_eq!(
        encode_data(&Data::PublicKeyOffer(vec![7])),
        vec![1, 1, 0, 0, 0, 0, 0, 0, 0, 7]
    );
}

#[test]
fn malformed_payloads_are_rejected() {
    assert_eq!(decode_data(&Vec::new()), None);
    assert_eq!(decode_data(&vec![9]), None);
    assert_eq!(decode_data(&vec![0, 0]), None);
    assert_eq!(decode_data(&vec![5]), None);
    assert_eq!(decode_data(&vec![5, 9]), None);
    assert_eq!(decode_data(&vec![1, 2, 0, 0, 0, 0, 0, 0, 0, 1]), None);
    let mut trailing = encode_data(&Data::Connection);
    trailing.push(0);
    assert_eq!(decode_data(&trailing), None);
    let mut truncated = encode_data(&Data::Handshake(vec![1, 2, 3]));
    truncated.pop();
    assert_eq!(decode_data(&truncated), None);
}
