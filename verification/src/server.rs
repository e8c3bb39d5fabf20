//! The authoritative server: it owns the maze and the player roster, admits
//! at most four sessions through the challenge handshake, validates every
//! move against the maze topology, and broadcasts the roster to exactly the
//! admitted addresses. The transport loop around it lives outside; this
//! state machine is driven one decoded message at a time.

use crate::cell::{Cell, CellView};
use crate::constants::{BATCH_SIZE, SESSION_CAP};
use crate::coord::Coord;
use crate::crypto::{
    challenge, challenge_matches, rsa_decrypt, rsa_generate_key, rsa_public_key_der,
    rsa_public_key_of,
};
use crate::data::{Data, DataView};
use crate::input::{move_target, spec_move_target, SerKey};
use crate::maze::{keys_agree, linked_one_way, passable, root_coord, wf_tree, Maze};
use crate::player::{corner_players, spec_start_corner, Player};
use crate::treemap::{keys_distinct, tree_entries, tree_get};
use indexmap::IndexMap;
use rsa::RsaPrivateKey;
use vstd::prelude::*;

verus! {

/// A remote peer, as the plain values the library reasons about: transport
/// code outside the crate converts its socket addresses to and from this.
#[derive(Debug, Clone, Copy, PartialEq, Eq, Structural, Hash)]
pub struct Addr {
    pub ip: u128,
    pub port: u16,
}

/// One admitted client: its address and the roster slot bound to it.
#[derive(Debug, Clone, Copy, PartialEq, Eq, Structural)]
pub struct ClientSession {
    pub addr: Addr,
    pub slot: usize,
}

/// The batches that carry a maze of cells `all` to `addr`: each message is
/// a `Cells` batch of at most `BATCH_SIZE` cells, full except perhaps the
/// last, and stitched back together they are exactly `all` in order.
pub open spec fn is_cell_batches(msgs: Seq<(Addr, Data)>, addr: Addr, all: Seq<CellView>) -> bool {
    &&& if all.len() == 0 {
        msgs.len() == 0
    } else {
        BATCH_SIZE * (msgs.len() - 1) < all.len() <= BATCH_SIZE * msgs.len()
    }
    &&& forall|k: int|
        0 <= k < msgs.len() ==> (#[trigger] msgs[k]).0 == addr && msgs[k].1@ == DataView::Cells(
            all.subrange(
                k * BATCH_SIZE,
                if (k + 1) * BATCH_SIZE <= all.len() {
                    (k + 1) * BATCH_SIZE
                } else {
                    all.len() as int
                },
            ),
        )
}

pub open spec fn session_addrs_distinct(s: Seq<ClientSession>) -> bool {
    forall|i: int, j: int| 0 <= i < j < s.len() ==> s[i].addr != s[j].addr
}

pub open spec fn session_slots_distinct(s: Seq<ClientSession>) -> bool {
    forall|i: int, j: int| 0 <= i < j < s.len() ==> s[i].slot != s[j].slot
}

pub open spec fn session_slots_in_range(s: Seq<ClientSession>) -> bool {
    forall|i: int| 0 <= i < s.len() ==> (#[trigger] s[i]).slot < SESSION_CAP
}

pub open spec fn has_session(s: Seq<ClientSession>, a: Addr) -> bool {
    exists|i: int| 0 <= i < s.len() && (#[trigger] s[i]).addr == a
}

/// The position of the session bound to `a`, unique while addresses are
/// distinct.
pub open spec fn session_index(s: Seq<ClientSession>, a: Addr) -> int {
    choose|i: int| 0 <= i < s.len() && (#[trigger] s[i]).addr == a
}

pub open spec fn slot_used(s: Seq<ClientSession>, k: usize) -> bool {
    exists|i: int| 0 <= i < s.len() && (#[trigger] s[i]).slot == k
}

/// The slot a newly admitted client is bound to: the lowest one no session
/// holds. While fewer than four sessions exist, this is below the cap.
pub open spec fn lowest_free_slot(s: Seq<ClientSession>) -> usize {
    if !slot_used(s, 0) {
        0
    } else if !slot_used(s, 1) {
        1
    } else if !slot_used(s, 2) {
        2
    } else if !slot_used(s, 3) {
        3
    } else {
        4
    }
}

/// With fewer than four sessions and distinct slots, some slot below the
/// cap is free.
proof fn lemma_free_slot_in_range(s: Seq<ClientSession>)
    requires
        session_slots_distinct(s),
        session_slots_in_range(s),
        s.len() < SESSION_CAP,
    ensures
        lowest_free_slot(s) < SESSION_CAP,
        !slot_used(s, lowest_free_slot(s)),
{
    if slot_used(s, 0) && slot_used(s, 1) && slot_used(s, 2) && slot_used(s, 3) {
        let i0 = choose|i: int| 0 <= i < s.len() && (#[trigger] s[i]).slot == 0;
        let i1 = choose|i: int| 0 <= i < s.len() && (#[trigger] s[i]).slot == 1;
        let i2 = choose|i: int| 0 <= i < s.len() && (#[trigger] s[i]).slot == 2;
        let i3 = choose|i: int| 0 <= i < s.len() && (#[trigger] s[i]).slot == 3;
        assert(i0 != i1 && i0 != i2 && i0 != i3 && i1 != i2 && i1 != i3 && i2 != i3);
        assert(false);
    }
}

/// The one authoritative owner of maze, roster and session table.
pub struct Server {
    pub private_key: RsaPrivateKey,
    pub sessions: Vec<ClientSession>,
    pub players: Vec<Player>,
    pub cells: IndexMap<Coord, Cell>,
    pub width: usize,
    pub height: usize,
}

impl Server {
    pub open spec fn entries(self) -> Seq<(Coord, Cell)> {
        tree_entries(self.cells)
    }

    pub open spec fn wf(self) -> bool {
        &&& self.players@.len() == SESSION_CAP
        &&& self.sessions@.len() <= SESSION_CAP
        &&& session_addrs_distinct(self.sessions@)
        &&& session_slots_distinct(self.sessions@)
        &&& session_slots_in_range(self.sessions@)
        &&& keys_agree(self.entries())
        &&& keys_distinct(self.entries())
    }

    /// A fresh server: a newly generated key, a maze spanning the grid, the
    /// four players in their corners, and no sessions. `None` only when key
    /// generation fails.
    pub fn new(width: usize, height: usize, key_bits: usize) -> (r: Option<Server>)
        requires
            1 <= width,
            1 <= height,
            width * height <= usize::MAX,
            128 <= key_bits <= 4096,
        ensures
            r matches Some(s) ==> s.wf() && s.width == width && s.height == height
                && s.sessions@.len() == 0 && s.players@.len() == 4 && wf_tree(
                s.entries(),
                width,
                height,
            ) && s.entries().len() == width * height && s.entries()[0].1.coord == root_coord(
                width,
                height,
            ) && (forall|i: int|
                0 <= i < 4 ==> s.players@[i] == (Player {
                    number: (i + 1) as usize,
                    coord: spec_start_corner((i + 1) as usize, width, height),
                })),
    {
        let private_key = match rsa_generate_key(key_bits) {
            Some(k) => k,
            None => {
                return None;
            },
        };
        let mut maze = Maze::new(width, height);
        let cells = maze.generate();
        let players = corner_players(width, height);
        Some(
            Server {
                private_key,
                sessions: Vec::new(),
                players,
                cells,
                width,
                height,
            },
        )
    }

    /// Whether a step from `from` onto `to` is legal: on the grid, and a
    /// passage exists in either stored direction.
    pub open spec fn spec_move_allowed(self, from: Coord, to: Coord) -> bool {
        &&& to.in_bounds(self.width, self.height)
        &&& passable(self.entries(), from, to)
    }

    /// Where the player at `from` ends up after `key`: one step in that
    /// direction if the move is legal, unmoved otherwise (and `Undefined`
    /// never moves).
    pub open spec fn spec_moved_coord(self, from: Coord, key: SerKey) -> Coord {
        if key != SerKey::Undefined && self.spec_move_allowed(from, spec_move_target(from, key)) {
            spec_move_target(from, key)
        } else {
            from
        }
    }

    fn move_allowed(&self, from: Coord, to: Coord) -> (r: bool)
        requires
            self.wf(),
        ensures
            r == self.spec_move_allowed(from, to),
    {
        let ghost s = self.entries();
        if to.out_of_bounds(self.width, self.height) {
            return false;
        }
        let fwd = match tree_get(&self.cells, from) {
            Some(cell) => contains_coord(&cell.n, to),
            None => false,
        };
        if fwd {
            proof {
                lemma_get_linked(s, from, to);
            }
            return true;
        }
        let back = match tree_get(&self.cells, to) {
            Some(cell) => contains_coord(&cell.n, from),
            None => false,
        };
        proof {
            lemma_get_linked(s, from, to);
            lemma_get_linked(s, to, from);
        }
        back
    }

    /// Apply one direction key to the player in `slot`. Only that player's
    /// coordinate can change, and only to a legal neighbour; an illegal or
    /// out-of-bounds move is dropped without any effect.
    pub fn move_player(&mut self, slot: usize, key: SerKey)
        requires
            old(self).wf(),
            slot < old(self).players@.len(),
        ensures
            final(self).wf(),
            final(self).private_key == old(self).private_key,
            final(self).sessions == old(self).sessions,
            final(self).cells == old(self).cells,
            final(self).width == old(self).width,
            final(self).height == old(self).height,
            final(self).players@.len() == old(self).players@.len(),
            forall|j: int|
                0 <= j < old(self).players@.len() && j != slot ==> final(self).players@[j] == old(self).players@[j],
            final(self).players@[slot as int].number == old(self).players@[slot as int].number,
            final(self).players@[slot as int].coord == old(self).spec_moved_coord(
                old(self).players@[slot as int].coord,
                key,
            ),
    {
        let from = self.players[slot].coord;
        let number = self.players[slot].number;
        match key {
            SerKey::Undefined => {},
            _ => {
                let to = move_target(from, key);
                if self.move_allowed(from, to) {
                    self.players[slot] = Player { number, coord: to };
                }
            },
        }
    }

    /// The maze, split for transfer into batches of at most `BATCH_SIZE`
    /// cells, all addressed to `addr`, in discovery order.
    fn batch_messages(&self, addr: Addr) -> (msgs: Vec<(Addr, Data)>)
        requires
            self.wf(),
        ensures
            is_cell_batches(msgs@, addr, crate::maze::cells_of_entries(self.entries())),
    {
        let ghost all = crate::maze::cells_of_entries(self.entries());
        let vals = crate::treemap::tree_values(&self.cells);
        let n = vals.len();
        proof {
            assert(forall|i: int| 0 <= i < n ==> (#[trigger] vals@[i])@ == all[i]);
        }
        let mut msgs: Vec<(Addr, Data)> = Vec::new();
        let mut start: usize = 0;
        while start < n
            invariant
                n == all.len(),
                n == vals@.len(),
                forall|i: int| 0 <= i < n ==> (#[trigger] vals@[i])@ == all[i],
                start <= n,
                (start == BATCH_SIZE * msgs@.len() && start <= n) || (start == n && BATCH_SIZE * (
                msgs@.len() - 1) < n <= BATCH_SIZE * msgs@.len()),
                forall|k: int|
                    0 <= k < msgs@.len() ==> (#[trigger] msgs@[k]).0 == addr && msgs@[k].1@
                        == DataView::Cells(
                        all.subrange(
                            k * BATCH_SIZE,
                            if (k + 1) * BATCH_SIZE <= n {
                                (k + 1) * BATCH_SIZE
                            } else {
                                n as int
                            },
                        ),
                    ),
            decreases n - start,
        {
            let m: usize = if n - start < BATCH_SIZE {
                n - start
            } else {
                BATCH_SIZE
            };
            let mut batch: Vec<Cell> = Vec::new();
            let mut j: usize = 0;
            while j < m
                invariant
                    start + m <= n,
                    n == vals@.len(),
                    n == all.len(),
                    forall|i: int| 0 <= i < n ==> (#[trigger] vals@[i])@ == all[i],
                    j <= m,
                    batch@.map_values(|c: Cell| c@) =~= all.subrange(
                        start as int,
                        start + j,
                    ),
                decreases m - j,
            {
                let ghost bv = batch@.map_values(|c: Cell| c@);
                batch.push(vals[start + j].duplicate());
                proof {
                    assert(batch@.map_values(|c: Cell| c@) =~= bv.push(all[start + j]));
                    assert(all.subrange(start as int, start + j + 1) =~= all.subrange(
                        start as int,
                        start + j,
                    ).push(all[start + j]));
                }
                j = j + 1;
            }
            let ghost msgs_before = msgs@;
            msgs.push((addr, Data::Cells(batch)));
            proof {
                assert(msgs@[msgs_before.len() as int].1@ == DataView::Cells(
                    all.subrange(start as int, start + m),
                ));
                assert(forall|k: int|
                    0 <= k < msgs_before.len() ==> msgs@[k] == #[trigger] msgs_before[k]);
            }
            start = start + m;
        }
        msgs
    }

    /// What the handshake decides once the plaintext is in hand. A correct
    /// challenge from a new address, while a slot is free, admits that
    /// address into the lowest free slot and sends it the whole maze in
    /// batches; a correct challenge from a known address is an idempotent
    /// no-op; a full table or a wrong plaintext changes nothing and stays
    /// silent.
    pub fn on_handshake_plaintext(&mut self, addr: Addr, plain: &Vec<u8>) -> (msgs: Vec<(Addr, Data)>)
        requires
            old(self).wf(),
        ensures
            final(self).wf(),
            final(self).private_key == old(self).private_key,
            final(self).players == old(self).players,
            final(self).cells == old(self).cells,
            final(self).width == old(self).width,
            final(self).height == old(self).height,
            plain@ == challenge() && !has_session(old(self).sessions@, addr) && old(self).sessions@.len() < SESSION_CAP ==> final(self).sessions@ == old(self).sessions@.push(
                ClientSession { addr, slot: lowest_free_slot(old(self).sessions@) },
            ) && is_cell_batches(
                msgs@,
                addr,
                crate::maze::cells_of_entries(old(self).entries()),
            ),
            plain@ == challenge() && has_session(old(self).sessions@, addr) ==> final(self).sessions@ == old(self).sessions@ && msgs@.len() == 0,
            plain@ == challenge() && !has_session(old(self).sessions@, addr) && old(self).sessions@.len() >= SESSION_CAP ==> final(self).sessions@ == old(self).sessions@
                && msgs@.len() == 0,
            plain@ != challenge() ==> final(self).sessions@ == old(self).sessions@ && msgs@.len()
                == 0,
    {
        if !challenge_matches(plain) {
            return Vec::new();
        }
        if find_session(&self.sessions, addr).is_some() {
            return Vec::new();
        }
        if self.sessions.len() >= SESSION_CAP {
            return Vec::new();
        }
        proof {
            lemma_free_slot_in_range(self.sessions@);
        }
        let slot = lowest_free_slot_exec(&self.sessions);
        let ghost before = self.sessions@;
        self.sessions.push(ClientSession { addr, slot });
        proof {
            assert forall|i: int, j: int|
                0 <= i < j < self.sessions@.len() implies self.sessions@[i].addr
                != self.sessions@[j].addr && self.sessions@[i].slot != self.sessions@[j].slot by {
                if j == before.len() {
                    assert(!has_session(before, addr));
                    assert(!slot_used(before, slot));
                }
            }
        }
        self.batch_messages(addr)
    }

    /// One decoded inbound message. A `Key` from an admitted address moves
    /// that address's player; `Connection` is answered with the public key
    /// offer; `Handshake` is decrypted and handed to the admission rule;
    /// everything else is silently dropped. The maze and the key never
    /// change.
    pub fn handle_data(&mut self, addr: Addr, d: &Data) -> (msgs: Vec<(Addr, Data)>)
        requires
            old(self).wf(),
        ensures
            final(self).wf(),
            final(self).private_key == old(self).private_key,
            final(self).cells == old(self).cells,
            final(self).width == old(self).width,
            final(self).height == old(self).height,
            d@ matches DataView::Key(k) ==> msgs@.len() == 0 && final(self).sessions@ == old(self).sessions@ && (if has_session(old(self).sessions@, addr) {
                let slot = old(self).sessions@[session_index(old(self).sessions@, addr)].slot as int;
                final(self).players@.len() == old(self).players@.len() && (forall|j: int|
                    0 <= j < old(self).players@.len() && j != slot
                        ==> final(self).players@[j] == old(self).players@[j]) && final(self).players@[slot].number == old(self).players@[slot].number && final(self).players@[slot].coord == old(self).spec_moved_coord(
                    old(self).players@[slot].coord,
                    k,
                )
            } else {
                final(self).players == old(self).players
            }),
            d@ is Connection ==> final(self).sessions@ == old(self).sessions@ && final(self).players == old(self).players && (msgs@.len() == 0 || (msgs@.len() == 1
                && msgs@[0].0 == addr && msgs@[0].1@ is PublicKeyOffer)),
            d@ is Handshake ==> final(self).players == old(self).players && ((final(self).sessions@ == old(self).sessions@ && msgs@.len() == 0) || (!has_session(
                old(self).sessions@,
                addr,
            ) && old(self).sessions@.len() < SESSION_CAP && final(self).sessions@ == old(self).sessions@.push(
                ClientSession { addr, slot: lowest_free_slot(old(self).sessions@) },
            ) && is_cell_batches(
                msgs@,
                addr,
                crate::maze::cells_of_entries(old(self).entries()),
            ))),
            d@ is Cells || d@ is Players || d@ is PublicKeyOffer ==> *final(self) == *old(self)
                && msgs@.len() == 0,
    {
        match d {
            Data::Key(k) => {
                match find_session(&self.sessions, addr) {
                    Some(i) => {
                        let slot = self.sessions[i].slot;
                        proof {
                            let si = session_index(self.sessions@, addr);
                            assert(0 <= si < self.sessions@.len() && self.sessions@[si].addr
                                == addr);
                            assert(si == i as int);
                        }
                        self.move_player(slot, *k);
                    },
                    None => {},
                }
                Vec::new()
            },
            Data::Connection => {
                let pk = rsa_public_key_of(&self.private_key);
                match rsa_public_key_der(&pk) {
                    Some(der) => {
                        let mut msgs: Vec<(Addr, Data)> = Vec::new();
                        msgs.push((addr, Data::PublicKeyOffer(der)));
                        msgs
                    },
                    None => Vec::new(),
                }
            },
            Data::Handshake(ct) => {
                match rsa_decrypt(&self.private_key, ct.as_slice()) {
                    Some(plain) => self.on_handshake_plaintext(addr, &plain),
                    None => Vec::new(),
                }
            },
            _ => Vec::new(),
        }
    }

    /// The transport reported `addr` gone: its session is freed; its player
    /// stays in the roster at its last position.
    pub fn on_disconnect(&mut self, addr: Addr)
        requires
            old(self).wf(),
        ensures
            final(self).wf(),
            final(self).private_key == old(self).private_key,
            final(self).players == old(self).players,
            final(self).cells == old(self).cells,
            final(self).width == old(self).width,
            final(self).height == old(self).height,
            !has_session(old(self).sessions@, addr) ==> final(self).sessions@ == old(self).sessions@,
            has_session(old(self).sessions@, addr) ==> final(self).sessions@ == old(self).sessions@.remove(session_index(old(self).sessions@, addr)),
    {
        match find_session(&self.sessions, addr) {
            Some(i) => {
                proof {
                    let si = session_index(self.sessions@, addr);
                    assert(0 <= si < self.sessions@.len() && self.sessions@[si].addr == addr);
                    assert(si == i as int);
                }
                let ghost before = self.sessions@;
                self.sessions.remove(i);
                proof {
                    assert forall|p: int, q: int|
                        0 <= p < q < self.sessions@.len() implies self.sessions@[p].addr
                        != self.sessions@[q].addr && self.sessions@[p].slot
                        != self.sessions@[q].slot by {
                        let op: int = if p < i as int { p } else { p + 1 };
                        let oq: int = if q < i as int { q } else { q + 1 };
                        assert(self.sessions@[p] == before[op]);
                        assert(self.sessions@[q] == before[oq]);
                    }
                }
            },
            None => {},
        }
    }

    /// The unconditional per-tick broadcast: one full roster snapshot to
    /// each admitted address, in table order, and to no one else.
    pub fn broadcast(&self) -> (msgs: Vec<(Addr, Data)>)
        requires
            self.wf(),
        ensures
            msgs@.len() == self.sessions@.len(),
            forall|k: int|
                0 <= k < msgs@.len() ==> (#[trigger] msgs@[k]).0 == self.sessions@[k].addr
                    && msgs@[k].1@ == DataView::Players(self.players@),
    {
        let mut msgs: Vec<(Addr, Data)> = Vec::new();
        let mut k: usize = 0;
        while k < self.sessions.len()
            invariant
                self.wf(),
                k <= self.sessions@.len(),
                msgs@.len() == k,
                forall|t: int|
                    0 <= t < k ==> (#[trigger] msgs@[t]).0 == self.sessions@[t].addr && msgs@[t].1@
                        == DataView::Players(self.players@),
            decreases self.sessions@.len() - k,
        {
            let roster = copy_players(&self.players);
            msgs.push((self.sessions[k].addr, Data::Players(roster)));
            k = k + 1;
        }
        msgs
    }
}

/// Session cap: with a full table, a correct handshake from a fifth,
/// unknown address leaves the table as it is (`on_handshake_plaintext`),
/// and since `broadcast` addresses exactly the table's sessions, that
/// address is never a broadcast recipient and holds no slot.
pub proof fn lemma_session_cap(s: Server, addr: Addr)
    requires
        s.wf(),
        s.sessions@.len() >= SESSION_CAP,
        !has_session(s.sessions@, addr),
    ensures
        forall|k: int| 0 <= k < s.sessions@.len() ==> (#[trigger] s.sessions@[k]).addr != addr,
{
    assert forall|k: int|
        0 <= k < s.sessions@.len() implies (#[trigger] s.sessions@[k]).addr != addr by {
        if s.sessions@[k].addr == addr {
            assert(has_session(s.sessions@, addr));
        }
    }
}

/// Movement symmetry: between two on-grid coordinates a step is allowed in
/// one direction exactly when it is allowed in the other, even though each
/// link is stored on one side only.
pub proof fn lemma_move_symmetry(s: Server, a: Coord, b: Coord)
    requires
        a.in_bounds(s.width, s.height),
        b.in_bounds(s.width, s.height),
    ensures
        s.spec_move_allowed(a, b) == s.spec_move_allowed(b, a),
{
    crate::maze::lemma_passable_symmetric(s.entries(), a, b);
}

/// Bounds idempotence: a key whose target falls off the grid never moves
/// the player.
pub proof fn lemma_out_of_bounds_move_is_noop(s: Server, from: Coord, key: SerKey)
    requires
        spec_move_target(from, key).spec_out_of_bounds(s.width, s.height),
    ensures
        s.spec_moved_coord(from, key) == from,
{
}

/// Linear search of a link list.
fn contains_coord(v: &Vec<Coord>, c: Coord) -> (r: bool)
    ensures
        r == v@.contains(c),
{
    let mut i: usize = 0;
    while i < v.len()
        invariant
            i <= v@.len(),
            forall|j: int| 0 <= j < i ==> v@[j] != c,
        decreases v@.len() - i,
    {
        if v[i] == c {
            return true;
        }
        i = i + 1;
    }
    false
}

/// The position of the session bound to `addr`, if one exists.
fn find_session(v: &Vec<ClientSession>, addr: Addr) -> (r: Option<usize>)
    ensures
        r matches Some(i) ==> i < v@.len() && v@[i as int].addr == addr,
        r is None ==> !has_session(v@, addr),
        r is Some ==> has_session(v@, addr),
{
    let mut i: usize = 0;
    while i < v.len()
        invariant
            i <= v@.len(),
            forall|j: int| 0 <= j < i ==> (#[trigger] v@[j]).addr != addr,
        decreases v@.len() - i,
    {
        if v[i].addr == addr {
            return Some(i);
        }
        i = i + 1;
    }
    proof {
        if has_session(v@, addr) {
            let j = choose|j: int| 0 <= j < v@.len() && (#[trigger] v@[j]).addr == addr;
        }
    }
    None
}

/// The lowest slot no current session holds.
fn lowest_free_slot_exec(v: &Vec<ClientSession>) -> (r: usize)
    ensures
        r == lowest_free_slot(v@),
{
    if !slot_used_exec(v, 0) {
        0
    } else if !slot_used_exec(v, 1) {
        1
    } else if !slot_used_exec(v, 2) {
        2
    } else if !slot_used_exec(v, 3) {
        3
    } else {
        4
    }
}

fn slot_used_exec(v: &Vec<ClientSession>, k: usize) -> (r: bool)
    ensures
        r == slot_used(v@, k),
{
    let mut i: usize = 0;
    while i < v.len()
        invariant
            i <= v@.len(),
            forall|j: int| 0 <= j < i ==> (#[trigger] v@[j]).slot != k,
        decreases v@.len() - i,
    {
        if v[i].slot == k {
            return true;
        }
        i = i + 1;
    }
    false
}

/// A plain copy of the roster, entry for entry.
fn copy_players(v: &Vec<Player>) -> (r: Vec<Player>)
    ensures
        r@ == v@,
{
    let mut r: Vec<Player> = Vec::new();
    let mut i: usize = 0;
    while i < v.len()
        invariant
            i <= v@.len(),
            r@ == v@.take(i as int),
        decreases v@.len() - i,
    {
        r.push(v[i]);
        proof {
            assert(v@.take(i + 1) =~= v@.take(i as int).push(v@[i as int]));
        }
        i = i + 1;
    }
    proof {
        assert(v@.take(v@.len() as int) =~= v@);
    }
    r
}

/// A cell at `a` records a link to `b` exactly when the stored cell under
/// key `a` lists `b`.
proof fn lemma_get_linked(s: Seq<(Coord, Cell)>, a: Coord, b: Coord)
    requires
        keys_agree(s),
        keys_distinct(s),
    ensures
        linked_one_way(s, a, b) <==> exists|i: int|
            0 <= i < s.len() && (#[trigger] s[i]).0 == a && s[i].1.n@.contains(b),
{
    if linked_one_way(s, a, b) {
        let i = choose|i: int| 0 <= i < s.len() && (#[trigger] s[i]).1.coord == a
            && s[i].1.n@.contains(b);
        assert(s[i].0 == a);
    }
    if exists|i: int| 0 <= i < s.len() && (#[trigger] s[i]).0 == a && s[i].1.n@.contains(b) {
        let i = choose|i: int| 0 <= i < s.len() && (#[trigger] s[i]).0 == a && s[i].1.n@.contains(
            b,
        );
        assert(s[i].1.coord == a);
    }
}

} // verus!
