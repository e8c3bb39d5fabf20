//! Core of a small multiplayer maze game: a procedural maze generator that
//! builds a random spanning tree over a grid, a movement validator, the wire
//! codec for the client/server messages, and the connection/handshake state
//! machines of both sides. All transport and rendering stays outside; this
//! crate holds the verified game logic.

pub mod cell;
pub mod client;
pub mod codec;
pub mod constants;
pub mod coord;
pub mod crypto;
pub mod data;
pub mod input;
pub mod maze;
pub mod player;
pub mod rng;
pub mod server;
pub mod spanning;
pub mod treemap;
