use vstd::prelude::*;

verus! {

/// Width of the default maze grid, in cells.
pub const WIDTH: usize = 50;

/// Height of the default maze grid, in cells.
pub const HEIGHT: usize = 50;

/// Greatest number of client sessions the server admits at once.
pub const SESSION_CAP: usize = 4;

/// How many cells travel in one maze-transfer message.
pub const BATCH_SIZE: usize = 10;

} // verus!
