use crate::cell::{Cell, CellView};
use crate::input::SerKey;
use crate::player::Player;
use vstd::prelude::*;

verus! {

/// The wire envelope: the closed set of messages the client and server
/// exchange, one per packet payload.
#[derive(Debug, Clone, PartialEq)]
pub enum Data {
    /// Client asks to join and begin the handshake.
    Connection,
    /// Server offers its public key, as PKCS#1 DER bytes.
    PublicKeyOffer(Vec<u8>),
    /// Client returns the fixed challenge, encrypted to the offered key.
    Handshake(Vec<u8>),
    /// One batch of maze geometry.
    Cells(Vec<Cell>),
    /// A full roster snapshot, all four slots.
    Players(Vec<Player>),
    /// The client's latest sampled input.
    Key(SerKey),
}

/// The mathematical value of a `Data` message.
pub enum DataView {
    Connection,
    PublicKeyOffer(Seq<u8>),
    Handshake(Seq<u8>),
    Cells(Seq<CellView>),
    Players(Seq<Player>),
    Key(SerKey),
}

impl View for Data {
    type V = DataView;

    open spec fn view(&self) -> DataView {
        match self {
            Data::Connection => DataView::Connection,
            Data::PublicKeyOffer(p) => DataView::PublicKeyOffer(p@),
            Data::Handshake(p) => DataView::Handshake(p@),
            Data::Cells(cs) => DataView::Cells(cs@.map_values(|c: Cell| c@)),
            Data::Players(ps) => DataView::Players(ps@),
            Data::Key(k) => DataView::Key(*k),
        }
    }
}

} // verus!
