//! The client sync agent: it accumulates maze batches keyed by coordinate,
//! swallows roster snapshots wholesale, answers the server's key offer with
//! the encrypted challenge, and reports its latest sampled input every
//! tick. It predicts nothing; it is a pure display of the last snapshot.

use crate::cell::{Cell, CellView};
use crate::coord::Coord;
use crate::crypto::{challenge_bytes, rsa_encrypt, rsa_public_key_from_der};
use crate::data::{Data, DataView};
use crate::input::SerKey;
use crate::player::{init_players, spec_start_corner, Player};
use vstd::prelude::*;

verus! {

/// Some accumulated cell already sits at coordinate `c`.
pub open spec fn acc_has_coord(s: Seq<CellView>, c: Coord) -> bool {
    exists|i: int| 0 <= i < s.len() && (#[trigger] s[i]).coord == c
}

pub open spec fn acc_coords_distinct(s: Seq<CellView>) -> bool {
    forall|i: int, j: int| 0 <= i < j < s.len() ==> s[i].coord != s[j].coord
}

/// Merging a batch into the accumulator: each batch cell in turn is
/// appended unless a cell with its coordinate is already there. Receiving
/// a cell twice therefore cannot corrupt or duplicate the local maze.
pub open spec fn merge_cells(acc: Seq<CellView>, batch: Seq<CellView>) -> Seq<CellView>
    decreases batch.len(),
{
    if batch.len() == 0 {
        acc
    } else {
        let acc2 = if acc_has_coord(acc, batch[0].coord) {
            acc
        } else {
            acc.push(batch[0])
        };
        merge_cells(acc2, batch.skip(1))
    }
}

/// Merging only appends: what is already accumulated stays, in place.
proof fn lemma_merge_extends(acc: Seq<CellView>, batch: Seq<CellView>)
    ensures
        merge_cells(acc, batch).len() >= acc.len(),
        forall|i: int| 0 <= i < acc.len() ==> merge_cells(acc, batch)[i] == acc[i],
    decreases batch.len(),
{
    if batch.len() > 0 {
        let acc2 = if acc_has_coord(acc, batch[0].coord) {
            acc
        } else {
            acc.push(batch[0])
        };
        lemma_merge_extends(acc2, batch.skip(1));
        assert(merge_cells(acc, batch) == merge_cells(acc2, batch.skip(1)));
        assert forall|i: int| 0 <= i < acc.len() implies merge_cells(acc, batch)[i] == acc[i] by {
            assert(merge_cells(acc2, batch.skip(1))[i] == acc2[i]);
            assert(acc2[i] == acc[i]);
        }
    }
}

/// After a merge, every coordinate of the batch is accumulated.
proof fn lemma_merge_covers(acc: Seq<CellView>, batch: Seq<CellView>)
    ensures
        forall|j: int|
            0 <= j < batch.len() ==> acc_has_coord(
                merge_cells(acc, batch),
                (#[trigger] batch[j]).coord,
            ),
    decreases batch.len(),
{
    if batch.len() > 0 {
        let acc2 = if acc_has_coord(acc, batch[0].coord) {
            acc
        } else {
            acc.push(batch[0])
        };
        assert(acc_has_coord(acc2, batch[0].coord)) by {
            if !acc_has_coord(acc, batch[0].coord) {
                assert(acc2[acc.len() as int].coord == batch[0].coord);
            } else {
                let i = choose|i: int|
                    0 <= i < acc.len() && (#[trigger] acc[i]).coord == batch[0].coord;
                assert(acc2[i].coord == batch[0].coord);
            }
        }
        lemma_merge_covers(acc2, batch.skip(1));
        lemma_merge_extends(acc2, batch.skip(1));
        assert forall|j: int|
            0 <= j < batch.len() implies acc_has_coord(
            merge_cells(acc, batch),
            (#[trigger] batch[j]).coord,
        ) by {
            if j == 0 {
                let i = choose|i: int|
                    0 <= i < acc2.len() && (#[trigger] acc2[i]).coord == batch[0].coord;
                assert(merge_cells(acc2, batch.skip(1))[i].coord == batch[0].coord);
            } else {
                assert(batch.skip(1)[j - 1] == batch[j]);
            }
        }
    }
}

/// A batch whose coordinates are all accumulated already merges to nothing.
proof fn lemma_merge_noop(acc: Seq<CellView>, batch: Seq<CellView>)
    requires
        forall|j: int|
            0 <= j < batch.len() ==> acc_has_coord(acc, (#[trigger] batch[j]).coord),
    ensures
        merge_cells(acc, batch) == acc,
    decreases batch.len(),
{
    if batch.len() > 0 {
        assert(acc_has_coord(acc, batch[0].coord));
        assert forall|j: int|
            0 <= j < batch.skip(1).len() implies acc_has_coord(
            acc,
            (#[trigger] batch.skip(1)[j]).coord,
        ) by {
            assert(batch.skip(1)[j] == batch[j + 1]);
        }
        lemma_merge_noop(acc, batch.skip(1));
    }
}

/// Chunk-merge idempotence: feeding the same batch to the accumulator
/// twice leaves exactly the accumulator that one feeding leaves.
pub proof fn lemma_merge_idempotent(acc: Seq<CellView>, batch: Seq<CellView>)
    ensures
        merge_cells(merge_cells(acc, batch), batch) == merge_cells(acc, batch),
{
    lemma_merge_covers(acc, batch);
    lemma_merge_noop(merge_cells(acc, batch), batch);
}

/// The client's local state.
pub struct Client {
    pub last_key: SerKey,
    pub cells: Vec<Cell>,
    pub players: Vec<Player>,
}

impl Client {
    pub open spec fn acc(self) -> Seq<CellView> {
        self.cells@.map_values(|c: Cell| c@)
    }

    pub open spec fn wf(self) -> bool {
        acc_coords_distinct(self.acc())
    }

    /// A fresh client: no maze yet, the default four-corner roster, and no
    /// key pressed.
    pub fn new() -> (c: Client)
        ensures
            c.wf(),
            c.last_key == SerKey::Undefined,
            c.acc().len() == 0,
            c.players@.len() == 4,
            forall|i: int|
                0 <= i < 4 ==> c.players@[i] == (Player {
                    number: (i + 1) as usize,
                    coord: spec_start_corner(
                        (i + 1) as usize,
                        crate::constants::WIDTH,
                        crate::constants::HEIGHT,
                    ),
                }),
    {
        let c = Client { last_key: SerKey::Undefined, cells: Vec::new(), players: init_players() };
        proof {
            assert(c.acc() =~= Seq::<CellView>::empty());
        }
        c
    }

    /// The message that begins the handshake.
    pub fn connection_request(&self) -> (d: Data)
        ensures
            d@ == DataView::Connection,
    {
        Data::Connection
    }

    /// Record the direction sampled from local input this tick.
    pub fn press(&mut self, k: SerKey)
        ensures
            final(self).last_key == k,
            final(self).cells == old(self).cells,
            final(self).players == old(self).players,
    {
        self.last_key = k;
    }

    /// The fire-and-forget keepalive sent every tick, changed or not.
    pub fn tick_message(&self) -> (d: Data)
        ensures
            d@ == DataView::Key(self.last_key),
    {
        Data::Key(self.last_key)
    }

    /// Merge one maze batch into the accumulator, keyed by coordinate.
    pub fn merge_batch(&mut self, batch: &Vec<Cell>)
        requires
            old(self).wf(),
        ensures
            final(self).wf(),
            final(self).last_key == old(self).last_key,
            final(self).players == old(self).players,
            final(self).acc() == merge_cells(old(self).acc(), batch@.map_values(|c: Cell| c@)),
    {
        let ghost batchv = batch@.map_values(|c: Cell| c@);
        let mut i: usize = 0;
        while i < batch.len()
            invariant
                i <= batch@.len(),
                batchv == batch@.map_values(|c: Cell| c@),
                self.wf(),
                self.last_key == old(self).last_key,
                self.players == old(self).players,
                self.acc() == merge_cells(old(self).acc(), batchv.take(i as int)),
            decreases batch@.len() - i,
        {
            let ghost accv = self.acc();
            let c = &batch[i];
            proof {
                lemma_merge_snoc(old(self).acc(), batchv.take(i as int), batchv[i as int]);
                assert(batchv.take(i + 1) =~= batchv.take(i as int).push(batchv[i as int]));
            }
            if !contains_cell_coord(&self.cells, c.coord) {
                self.cells.push(c.duplicate());
                proof {
                    assert(self.acc() =~= accv.push(batchv[i as int]));
                    assert forall|p: int, q: int|
                        0 <= p < q < self.acc().len() implies self.acc()[p].coord
                        != self.acc()[q].coord by {
                        if q < accv.len() {
                            assert(accv[p].coord != accv[q].coord);
                        } else {
                            assert(!acc_has_coord(accv, batchv[i as int].coord));
                            if self.acc()[p].coord == self.acc()[q].coord {
                                assert(accv[p].coord == batchv[i as int].coord);
                                assert(acc_has_coord(accv, batchv[i as int].coord));
                            }
                        }
                    }
                }
            }
            i = i + 1;
        }
        proof {
            assert(batchv.take(batchv.len() as int) =~= batchv);
        }
    }

    /// One decoded inbound message. `Cells` batches merge into the
    /// accumulator; a four-entry `Players` snapshot replaces the roster
    /// wholesale, last writer wins; a `PublicKeyOffer` is answered with the
    /// encrypted challenge when the key parses; everything else is silently
    /// dropped.
    pub fn handle_data(&mut self, d: &Data) -> (reply: Option<Data>)
        requires
            old(self).wf(),
        ensures
            final(self).wf(),
            d@ matches DataView::Cells(batch) ==> final(self).acc() == merge_cells(
                old(self).acc(),
                batch,
            ) && final(self).players == old(self).players && final(self).last_key == old(self).last_key && reply is None,
            d@ matches DataView::Players(ps) ==> final(self).cells == old(self).cells && final(self).last_key == old(self).last_key && (if ps.len() == 4 {
                final(self).players@ == ps
            } else {
                final(self).players == old(self).players
            }) && reply is None,
            d@ is PublicKeyOffer ==> final(self).cells == old(self).cells && final(self).players
                == old(self).players && final(self).last_key == old(self).last_key && (match reply {
                Option::Some(h) => h@ is Handshake,
                Option::None => true,
            }),
            d@ is Connection || d@ is Handshake || d@ is Key ==> *final(self) == *old(self)
                && reply is None,
    {
        match d {
            Data::Cells(batch) => {
                self.merge_batch(batch);
                None
            },
            Data::Players(ps) => {
                if ps.len() == 4 {
                    self.players = copy_roster(ps);
                }
                None
            },
            Data::PublicKeyOffer(der) => {
                let pk = match rsa_public_key_from_der(der.as_slice()) {
                    Some(pk) => pk,
                    None => {
                        return None;
                    },
                };
                let msg = challenge_bytes();
                match rsa_encrypt(&pk, msg.as_slice()) {
                    Some(ct) => Some(Data::Handshake(ct)),
                    None => None,
                }
            },
            _ => None,
        }
    }
}

/// Appending one cell to the batch merges it after the rest.
proof fn lemma_merge_snoc(acc: Seq<CellView>, batch: Seq<CellView>, x: CellView)
    ensures
        merge_cells(acc, batch.push(x)) == (if acc_has_coord(merge_cells(acc, batch), x.coord) {
            merge_cells(acc, batch)
        } else {
            merge_cells(acc, batch).push(x)
        }),
    decreases batch.len(),
{
    if batch.len() == 0 {
        assert(batch.push(x)[0] == x);
        assert(batch.push(x).skip(1) =~= Seq::<CellView>::empty());
        let acc2 = if acc_has_coord(acc, x.coord) {
            acc
        } else {
            acc.push(x)
        };
        assert(merge_cells(acc, batch.push(x)) == merge_cells(acc2, Seq::<CellView>::empty()));
        assert(merge_cells(acc2, Seq::<CellView>::empty()) == acc2);
        assert(merge_cells(acc, batch) == acc);
    } else {
        assert(batch.push(x)[0] == batch[0]);
        assert(batch.push(x).skip(1) =~= batch.skip(1).push(x));
        let acc2 = if acc_has_coord(acc, batch[0].coord) {
            acc
        } else {
            acc.push(batch[0])
        };
        lemma_merge_snoc(acc2, batch.skip(1), x);
        assert(merge_cells(acc, batch.push(x)) == merge_cells(acc2, batch.skip(1).push(x)));
        assert(merge_cells(acc, batch) == merge_cells(acc2, batch.skip(1)));
    }
}

/// Whether a cell at `c` is already accumulated.
fn contains_cell_coord(v: &Vec<Cell>, c: Coord) -> (r: bool)
    ensures
        r == acc_has_coord(v@.map_values(|cc: Cell| cc@), c),
{
    let ghost s = v@.map_values(|cc: Cell| cc@);
    let mut i: usize = 0;
    while i < v.len()
        invariant
            i <= v@.len(),
            s == v@.map_values(|cc: Cell| cc@),
            forall|j: int| 0 <= j < i ==> (#[trigger] s[j]).coord != c,
        decreases v@.len() - i,
    {
        if v[i].coord.x == c.x && v[i].coord.y == c.y {
            proof {
                assert(s[i as int].coord == c);
            }
            return true;
        }
        i = i + 1;
    }
    false
}

/// A plain copy of a roster vector.
fn copy_roster(v: &Vec<Player>) -> (r: Vec<Player>)
    ensures
        r@ == v@,
{
    let mut r: Vec<Player> = Vec::new();
    let mut i: usize = 0;
    while i < v.len()
        invariant
            i <= v@.len(),
            r@ == v@.take(i as int),
        decreases v@.len() - i,
    {
        r.push(v[i]);
        proof {
            assert(v@.take(i + 1) =~= v@.take(i as int).push(v@[i as int]));
        }
        i = i + 1;
    }
    proof {
        assert(v@.take(v@.len() as int) =~= v@);
    }
    r
}

} // verus!
