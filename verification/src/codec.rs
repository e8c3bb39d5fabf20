//! The wire codec: one tagged, length-prefixed binary layout per message
//! variant. `enc_data` and `dec_data` are the authoritative specification;
//! the executable encoder and decoder are proved to match them exactly, and
//! decoding an encoding gives the message back.

use crate::cell::{Cell, CellView};
use crate::coord::Coord;
use crate::data::{Data, DataView};
use crate::input::SerKey;
use crate::player::Player;
use vstd::bytes::{
    lemma_auto_spec_u64_to_from_le_bytes, spec_u64_from_le_bytes, spec_u64_to_le_bytes,
    u64_from_le_bytes, u64_to_le_bytes,
};
use vstd::prelude::*;

verus! {

// ---------------------------------------------------------------- encoding

pub open spec fn enc_u64(v: u64) -> Seq<u8> {
    spec_u64_to_le_bytes(v)
}

/// A coordinate: `x` then `y`, each as eight little-endian bytes.
pub open spec fn enc_coord(c: Coord) -> Seq<u8> {
    enc_u64(c.x as u64) + enc_u64(c.y as u64)
}

/// A list body: the items one after the other (the count travels
/// separately, in front).
pub open spec fn enc_list<T>(s: Seq<T>, f: spec_fn(T) -> Seq<u8>) -> Seq<u8>
    decreases s.len(),
{
    if s.len() == 0 {
        Seq::empty()
    } else {
        f(s[0]) + enc_list(s.skip(1), f)
    }
}

/// A cell: its coordinate, then its link count, then the links.
pub open spec fn enc_cell(c: CellView) -> Seq<u8> {
    enc_coord(c.coord) + enc_u64(c.n.len() as u64) + enc_list(c.n, |x: Coord| enc_coord(x))
}

/// A player: its slot number, then its coordinate.
pub open spec fn enc_player(p: Player) -> Seq<u8> {
    enc_u64(p.number as u64) + enc_coord(p.coord)
}

/// The byte for a direction key.
pub open spec fn key_code(k: SerKey) -> u8 {
    match k {
        SerKey::Undefined => 0,
        SerKey::Right => 1,
        SerKey::Down => 2,
        SerKey::Left => 3,
        SerKey::Up => 4,
    }
}

/// A whole message: a tag byte, then the variant's payload.
pub open spec fn enc_data(d: DataView) -> Seq<u8> {
    match d {
        DataView::Connection => seq![0u8],
        DataView::PublicKeyOffer(p) => seq![1u8] + enc_u64(p.len() as u64) + p,
        DataView::Handshake(p) => seq![2u8] + enc_u64(p.len() as u64) + p,
        DataView::Cells(cs) => seq![3u8] + enc_u64(cs.len() as u64) + enc_list(
            cs,
            |c: CellView| enc_cell(c),
        ),
        DataView::Players(ps) => seq![4u8] + enc_u64(ps.len() as u64) + enc_list(
            ps,
            |p: Player| enc_player(p),
        ),
        DataView::Key(k) => seq![5u8, key_code(k)],
    }
}

// ---------------------------------------------------------------- decoding

pub open spec fn dec_u64(b: Seq<u8>) -> Option<(u64, Seq<u8>)> {
    if b.len() >= 8 {
        Option::Some((spec_u64_from_le_bytes(b.take(8)), b.skip(8)))
    } else {
        Option::None
    }
}

/// A length or coordinate field: a `u64` that must fit this machine.
pub open spec fn dec_usize(b: Seq<u8>) -> Option<(usize, Seq<u8>)> {
    match dec_u64(b) {
        Option::Some((v, r)) => if v <= usize::MAX as u64 {
            Option::Some((v as usize, r))
        } else {
            Option::None
        },
        Option::None => Option::None,
    }
}

pub open spec fn dec_coord(b: Seq<u8>) -> Option<(Coord, Seq<u8>)> {
    match dec_usize(b) {
        Option::Some((x, r1)) => match dec_usize(r1) {
            Option::Some((y, r2)) => Option::Some((Coord { x, y }, r2)),
            Option::None => Option::None,
        },
        Option::None => Option::None,
    }
}

/// `k` items in a row, each read by `g`.
pub open spec fn dec_list<T>(
    b: Seq<u8>,
    k: nat,
    g: spec_fn(Seq<u8>) -> Option<(T, Seq<u8>)>,
) -> Option<(Seq<T>, Seq<u8>)>
    decreases k,
{
    if k == 0 {
        Option::Some((Seq::empty(), b))
    } else {
        match g(b) {
            Option::Some((x, r)) => match dec_list(r, (k - 1) as nat, g) {
                Option::Some((xs, r2)) => Option::Some((seq![x] + xs, r2)),
                Option::None => Option::None,
            },
            Option::None => Option::None,
        }
    }
}

pub open spec fn dec_cell(b: Seq<u8>) -> Option<(CellView, Seq<u8>)> {
    match dec_coord(b) {
        Option::Some((c, r1)) => match dec_usize(r1) {
            Option::Some((k, r2)) => match dec_list(
                r2,
                k as nat,
                |bb: Seq<u8>| dec_coord(bb),
            ) {
                Option::Some((ns, r3)) => Option::Some((CellView { coord: c, n: ns }, r3)),
                Option::None => Option::None,
            },
            Option::None => Option::None,
        },
        Option::None => Option::None,
    }
}

pub open spec fn dec_player(b: Seq<u8>) -> Option<(Player, Seq<u8>)> {
    match dec_usize(b) {
        Option::Some((num, r1)) => match dec_coord(r1) {
            Option::Some((c, r2)) => Option::Some((Player { number: num, coord: c }, r2)),
            Option::None => Option::None,
        },
        Option::None => Option::None,
    }
}

pub open spec fn dec_key(v: u8) -> Option<SerKey> {
    if v == 0 {
        Option::Some(SerKey::Undefined)
    } else if v == 1 {
        Option::Some(SerKey::Right)
    } else if v == 2 {
        Option::Some(SerKey::Down)
    } else if v == 3 {
        Option::Some(SerKey::Left)
    } else if v == 4 {
        Option::Some(SerKey::Up)
    } else {
        Option::None
    }
}

/// What a packet payload means: `None` for anything malformed, including
/// trailing bytes.
pub open spec fn dec_data(b: Seq<u8>) -> Option<DataView> {
    if b.len() < 1 {
        Option::None
    } else {
        let tag = b[0];
        let rest = b.skip(1);
        if tag == 0 {
            if rest.len() == 0 {
                Option::Some(DataView::Connection)
            } else {
                Option::None
            }
        } else if tag == 1 {
            match dec_usize(rest) {
                Option::Some((n, r)) => if r.len() == n {
                    Option::Some(DataView::PublicKeyOffer(r))
                } else {
                    Option::None
                },
                Option::None => Option::None,
            }
        } else if tag == 2 {
            match dec_usize(rest) {
                Option::Some((n, r)) => if r.len() == n {
                    Option::Some(DataView::Handshake(r))
                } else {
                    Option::None
                },
                Option::None => Option::None,
            }
        } else if tag == 3 {
            match dec_usize(rest) {
                Option::Some((n, r)) => match dec_list(
                    r,
                    n as nat,
                    |bb: Seq<u8>| dec_cell(bb),
                ) {
                    Option::Some((cs, r2)) => if r2.len() == 0 {
                        Option::Some(DataView::Cells(cs))
                    } else {
                        Option::None
                    },
                    Option::None => Option::None,
                },
                Option::None => Option::None,
            }
        } else if tag == 4 {
            match dec_usize(rest) {
                Option::Some((n, r)) => match dec_list(
                    r,
                    n as nat,
                    |bb: Seq<u8>| dec_player(bb),
                ) {
                    Option::Some((ps, r2)) => if r2.len() == 0 {
                        Option::Some(DataView::Players(ps))
                    } else {
                        Option::None
                    },
                    Option::None => Option::None,
                },
                Option::None => Option::None,
            }
        } else if tag == 5 {
            if rest.len() == 1 {
                match dec_key(rest[0]) {
                    Option::Some(k) => Option::Some(DataView::Key(k)),
                    Option::None => Option::None,
                }
            } else {
                Option::None
            }
        } else {
            Option::None
        }
    }
}

// ------------------------------------------------------------ the encoder

fn write_bytes(out: &mut Vec<u8>, src: &Vec<u8>)
    ensures
        final(out)@ == old(out)@ + src@,
{
    let ghost base = out@;
    let mut i: usize = 0;
    while i < src.len()
        invariant
            i <= src@.len(),
            out@ == base + src@.take(i as int),
        decreases src@.len() - i,
    {
        out.push(src[i]);
        proof {
            assert(base + src@.take(i + 1) =~= (base + src@.take(i as int)).push(src@[i as int]));
        }
        i = i + 1;
    }
    proof {
        assert(src@.take(src@.len() as int) =~= src@);
    }
}

fn write_u64(out: &mut Vec<u8>, v: u64)
    ensures
        final(out)@ == old(out)@ + enc_u64(v),
{
    let bs = u64_to_le_bytes(v);
    write_bytes(out, &bs);
}

fn write_coord(out: &mut Vec<u8>, c: Coord)
    ensures
        final(out)@ == old(out)@ + enc_coord(c),
{
    let ghost base = out@;
    write_u64(out, c.x as u64);
    write_u64(out, c.y as u64);
    proof {
        assert(base + enc_coord(c) =~= base + enc_u64(c.x as u64) + enc_u64(c.y as u64));
    }
}

fn write_cell(out: &mut Vec<u8>, c: &Cell)
    ensures
        final(out)@ == old(out)@ + enc_cell(c@),
{
    let ghost base = out@;
    let ghost f = |x: Coord| enc_coord(x);
    write_coord(out, c.coord);
    write_u64(out, c.n.len() as u64);
    let ghost mid = base + enc_coord(c.coord) + enc_u64(c.n@.len() as u64);
    let mut i: usize = 0;
    while i < c.n.len()
        invariant
            i <= c.n@.len(),
            f == (|x: Coord| enc_coord(x)),
            mid == base + enc_coord(c.coord) + enc_u64(c.n@.len() as u64),
            out@ == mid + enc_list(c.n@.take(i as int), f),
        decreases c.n@.len() - i,
    {
        write_coord(out, c.n[i]);
        proof {
            lemma_enc_list_snoc(c.n@.take(i as int), f, c.n@[i as int]);
            assert(c.n@.take(i + 1) =~= c.n@.take(i as int).push(c.n@[i as int]));
            assert(mid + enc_list(c.n@.take(i + 1), f) =~= mid + enc_list(
                c.n@.take(i as int),
                f,
            ) + enc_coord(c.n@[i as int]));
        }
        i = i + 1;
    }
    proof {
        assert(c.n@.take(c.n@.len() as int) =~= c.n@);
        assert(base + enc_cell(c@) =~= mid + enc_list(c.n@, f));
    }
}

fn write_player(out: &mut Vec<u8>, p: &Player)
    ensures
        final(out)@ == old(out)@ + enc_player(*p),
{
    let ghost base = out@;
    write_u64(out, p.number as u64);
    write_coord(out, p.coord);
    proof {
        assert(base + enc_player(*p) =~= base + enc_u64(p.number as u64) + enc_coord(p.coord));
    }
}

/// Appending one item to a list appends its encoding to the list's body.
proof fn lemma_enc_list_snoc<T>(s: Seq<T>, f: spec_fn(T) -> Seq<u8>, x: T)
    ensures
        enc_list(s.push(x), f) == enc_list(s, f) + f(x),
    decreases s.len(),
{
    if s.len() == 0 {
        assert(s.push(x).skip(1) =~= Seq::<T>::empty());
        assert(s.push(x)[0] == x);
        assert(enc_list(Seq::<T>::empty(), f) == Seq::<u8>::empty());
        assert(enc_list(s.push(x), f) == f(x) + enc_list(s.push(x).skip(1), f));
        assert(enc_list(s, f) == Seq::<u8>::empty());
        assert(f(x) + Seq::<u8>::empty() =~= Seq::<u8>::empty() + f(x));
    } else {
        assert(s.push(x).skip(1) =~= s.skip(1).push(x));
        lemma_enc_list_snoc(s.skip(1), f, x);
        assert(s.push(x)[0] == s[0]);
        assert(f(s[0]) + (enc_list(s.skip(1), f) + f(x)) =~= (f(s[0]) + enc_list(s.skip(1), f))
            + f(x));
    }
}

/// Encode a message exactly as `enc_data` lays it out.
pub fn encode_data(d: &Data) -> (out: Vec<u8>)
    ensures
        out@ == enc_data(d@),
{
    let mut out: Vec<u8> = Vec::new();
    match d {
        Data::Connection => {
            out.push(0);
            proof {
                assert(out@ =~= seq![0u8]);
            }
        },
        Data::PublicKeyOffer(p) => {
            out.push(1);
            write_u64(&mut out, p.len() as u64);
            write_bytes(&mut out, p);
            proof {
                assert(out@ =~= seq![1u8] + enc_u64(p@.len() as u64) + p@);
            }
        },
        Data::Handshake(p) => {
            out.push(2);
            write_u64(&mut out, p.len() as u64);
            write_bytes(&mut out, p);
            proof {
                assert(out@ =~= seq![2u8] + enc_u64(p@.len() as u64) + p@);
            }
        },
        Data::Cells(cs) => {
            out.push(3);
            write_u64(&mut out, cs.len() as u64);
            let ghost f = |c: CellView| enc_cell(c);
            let ghost cvs = cs@.map_values(|c: Cell| c@);
            let ghost mid = seq![3u8] + enc_u64(cvs.len() as u64);
            proof {
                assert(out@ =~= mid + enc_list(cvs.take(0), f));
            }
            let mut i: usize = 0;
            while i < cs.len()
                invariant
                    i <= cs@.len(),
                    f == (|c: CellView| enc_cell(c)),
                    cvs == cs@.map_values(|c: Cell| c@),
                    mid == seq![3u8] + enc_u64(cvs.len() as u64),
                    out@ == mid + enc_list(cvs.take(i as int), f),
                decreases cs@.len() - i,
            {
                write_cell(&mut out, &cs[i]);
                proof {
                    assert(cvs[i as int] == cs@[i as int]@);
                    lemma_enc_list_snoc(cvs.take(i as int), f, cvs[i as int]);
                    assert(cvs.take(i + 1) =~= cvs.take(i as int).push(cvs[i as int]));
                    assert(mid + enc_list(cvs.take(i + 1), f) =~= mid + enc_list(
                        cvs.take(i as int),
                        f,
                    ) + enc_cell(cvs[i as int]));
                }
                i = i + 1;
            }
            proof {
                assert(cvs.take(cvs.len() as int) =~= cvs);
            }
        },
        Data::Players(ps) => {
            out.push(4);
            write_u64(&mut out, ps.len() as u64);
            let ghost f = |p: Player| enc_player(p);
            let ghost mid = seq![4u8] + enc_u64(ps@.len() as u64);
            proof {
                assert(out@ =~= mid + enc_list(ps@.take(0), f));
            }
            let mut i: usize = 0;
            while i < ps.len()
                invariant
                    i <= ps@.len(),
                    f == (|p: Player| enc_player(p)),
                    mid == seq![4u8] + enc_u64(ps@.len() as u64),
                    out@ == mid + enc_list(ps@.take(i as int), f),
                decreases ps@.len() - i,
            {
                write_player(&mut out, &ps[i]);
                proof {
                    lemma_enc_list_snoc(ps@.take(i as int), f, ps@[i as int]);
                    assert(ps@.take(i + 1) =~= ps@.take(i as int).push(ps@[i as int]));
                    assert(mid + enc_list(ps@.take(i + 1), f) =~= mid + enc_list(
                        ps@.take(i as int),
                        f,
                    ) + enc_player(ps@[i as int]));
                }
                i = i + 1;
            }
            proof {
                assert(ps@.take(ps@.len() as int) =~= ps@);
            }
        },
        Data::Key(k) => {
            out.push(5);
            let kb: u8 = match k {
                SerKey::Undefined => 0,
                SerKey::Right => 1,
                SerKey::Down => 2,
                SerKey::Left => 3,
                SerKey::Up => 4,
            };
            out.push(kb);
            proof {
                assert(out@ =~= seq![5u8, key_code(*k)]);
            }
        },
    }
    out
}

// ------------------------------------------------------------ the decoder

fn read_u64(b: &Vec<u8>, pos: usize) -> (r: Option<(u64, usize)>)
    requires
        pos <= b@.len(),
    ensures
        r matches Some(vp) ==> vp.1 == pos + 8 && vp.1 <= b@.len() && dec_u64(
            b@.skip(pos as int),
        ) == Some::<(u64, Seq<u8>)>((vp.0, b@.skip(vp.1 as int))),
        r is None ==> dec_u64(b@.skip(pos as int)) is None,
{
    if b.len() - pos >= 8 {
        let mut tmp: Vec<u8> = Vec::new();
        tmp.push(b[pos]);
        tmp.push(b[pos + 1]);
        tmp.push(b[pos + 2]);
        tmp.push(b[pos + 3]);
        tmp.push(b[pos + 4]);
        tmp.push(b[pos + 5]);
        tmp.push(b[pos + 6]);
        tmp.push(b[pos + 7]);
        let v = u64_from_le_bytes(tmp.as_slice());
        proof {
            assert(tmp@ =~= b@.skip(pos as int).take(8));
            assert(b@.skip(pos as int).skip(8) =~= b@.skip(pos as int + 8));
        }
        Some((v, pos + 8))
    } else {
        proof {
            assert(b@.skip(pos as int).len() < 8);
        }
        None
    }
}

fn read_usize(b: &Vec<u8>, pos: usize) -> (r: Option<(usize, usize)>)
    requires
        pos <= b@.len(),
    ensures
        r matches Some(vp) ==> pos <= vp.1 <= b@.len() && dec_usize(b@.skip(pos as int))
            == Some::<(usize, Seq<u8>)>((vp.0, b@.skip(vp.1 as int))),
        r is None ==> dec_usize(b@.skip(pos as int)) is None,
{
    match read_u64(b, pos) {
        Some((v, p2)) => {
            if v <= usize::MAX as u64 {
                Some((v as usize, p2))
            } else {
                None
            }
        },
        None => None,
    }
}

fn read_coord(b: &Vec<u8>, pos: usize) -> (r: Option<(Coord, usize)>)
    requires
        pos <= b@.len(),
    ensures
        r matches Some(vp) ==> pos <= vp.1 <= b@.len() && dec_coord(b@.skip(pos as int))
            == Some::<(Coord, Seq<u8>)>((vp.0, b@.skip(vp.1 as int))),
        r is None ==> dec_coord(b@.skip(pos as int)) is None,
{
    match read_usize(b, pos) {
        Some((x, p1)) => match read_usize(b, p1) {
            Some((y, p2)) => Some((Coord { x, y }, p2)),
            None => None,
        },
        None => None,
    }
}

fn read_player(b: &Vec<u8>, pos: usize) -> (r: Option<(Player, usize)>)
    requires
        pos <= b@.len(),
    ensures
        r matches Some(vp) ==> pos <= vp.1 <= b@.len() && dec_player(b@.skip(pos as int))
            == Some::<(Player, Seq<u8>)>((vp.0, b@.skip(vp.1 as int))),
        r is None ==> dec_player(b@.skip(pos as int)) is None,
{
    match read_usize(b, pos) {
        Some((num, p1)) => match read_coord(b, p1) {
            Some((c, p2)) => Some((Player { number: num, coord: c }, p2)),
            None => None,
        },
        None => None,
    }
}

fn read_cell(b: &Vec<u8>, pos: usize) -> (r: Option<(Cell, usize)>)
    requires
        pos <= b@.len(),
    ensures
        r matches Some(vp) ==> pos <= vp.1 <= b@.len() && dec_cell(b@.skip(pos as int))
            == Some::<(CellView, Seq<u8>)>((vp.0@, b@.skip(vp.1 as int))),
        r is None ==> dec_cell(b@.skip(pos as int)) is None,
{
    let ghost g = |bb: Seq<u8>| dec_coord(bb);
    let (coord, p1) = match read_coord(b, pos) {
        Some(v) => v,
        None => {
            return None;
        },
    };
    let (k, p2) = match read_usize(b, p1) {
        Some(v) => v,
        None => {
            return None;
        },
    };
    let mut ns: Vec<Coord> = Vec::new();
    let mut i: usize = 0;
    let mut posn: usize = p2;
    proof {
        let d0 = dec_list(b@.skip(p2 as int), k as nat, g);
        if d0 is Some {
            assert(Seq::<Coord>::empty() + d0->Some_0.0 =~= d0->Some_0.0);
        }
    }
    while i < k
        invariant
            i <= k,
            pos <= p1 <= p2 <= posn <= b@.len(),
            g == (|bb: Seq<u8>| dec_coord(bb)),
            dec_coord(b@.skip(pos as int)) == Some::<(Coord, Seq<u8>)>((coord, b@.skip(p1 as int))),
            dec_usize(b@.skip(p1 as int)) == Some::<(usize, Seq<u8>)>((k, b@.skip(p2 as int))),
            (match dec_list(b@.skip(posn as int), (k - i) as nat, g) {
                Option::Some(pr) => dec_list(b@.skip(p2 as int), k as nat, g) == Option::Some(
                    (ns@ + pr.0, pr.1),
                ),
                Option::None => dec_list(b@.skip(p2 as int), k as nat, g) is None,
            }),
        decreases k - i,
    {
        let (c, pn) = match read_coord(b, posn) {
            Some(v) => v,
            None => {
                proof {
                    assert(dec_list(b@.skip(posn as int), (k - i) as nat, g) is None);
                }
                return None;
            },
        };
        proof {
            let bb = b@.skip(posn as int);
            let rest1 = b@.skip(pn as int);
            assert(g(bb) == Some::<(Coord, Seq<u8>)>((c, rest1)));
            let tail = dec_list(rest1, (k - i - 1) as nat, g);
            if tail is Some {
                let pr = tail->Some_0;
                assert(dec_list(bb, (k - i) as nat, g) == Some::<(Seq<Coord>, Seq<u8>)>(
                    (seq![c] + pr.0, pr.1),
                ));
                assert(ns@ + (seq![c] + pr.0) =~= ns@.push(c) + pr.0);
            } else {
                assert(dec_list(bb, (k - i) as nat, g) is None);
            }
        }
        ns.push(c);
        posn = pn;
        i = i + 1;
    }
    proof {
        assert(dec_list(b@.skip(posn as int), 0, g) == Some::<(Seq<Coord>, Seq<u8>)>(
            (Seq::empty(), b@.skip(posn as int)),
        ));
        assert(ns@ + Seq::<Coord>::empty() =~= ns@);
    }
    Some((Cell { coord, n: ns }, posn))
}

/// Decode a packet payload exactly as `dec_data` reads it: the message for
/// a well-formed payload, `None` for anything else.
pub fn decode_data(b: &Vec<u8>) -> (r: Option<Data>)
    ensures
        (r is Some) == (dec_data(b@) is Some),
        r matches Some(d) ==> dec_data(b@) == Some(d@),
{
    if b.len() == 0 {
        return None;
    }
    let tag = b[0];
    proof {
        assert(b@[0] == tag);
    }
    if tag == 0 {
        if b.len() == 1 {
            proof {
                assert(b@.skip(1).len() == 0);
            }
            Some(Data::Connection)
        } else {
            None
        }
    } else if tag == 1 || tag == 2 {
        let (n, p2) = match read_usize(b, 1) {
            Some(v) => v,
            None => {
                return None;
            },
        };
        if b.len() - p2 == n {
            let mut p: Vec<u8> = Vec::new();
            let mut j: usize = 0;
            while j < n
                invariant
                    j <= n,
                    p2 + n == b@.len(),
                    p2 + n <= usize::MAX,
                    p@ == b@.subrange(p2 as int, p2 + j),
                decreases n - j,
            {
                p.push(b[p2 + j]);
                proof {
                    assert(b@.subrange(p2 as int, p2 + j + 1) =~= b@.subrange(
                        p2 as int,
                        p2 + j,
                    ).push(b@[p2 + j]));
                }
                j = j + 1;
            }
            proof {
                assert(p@ =~= b@.skip(p2 as int));
            }
            if tag == 1 {
                Some(Data::PublicKeyOffer(p))
            } else {
                Some(Data::Handshake(p))
            }
        } else {
            None
        }
    } else if tag == 3 {
        let ghost g = |bb: Seq<u8>| dec_cell(bb);
        let (n, p2) = match read_usize(b, 1) {
            Some(v) => v,
            None => {
                return None;
            },
        };
        let mut cells: Vec<Cell> = Vec::new();
        let mut i: usize = 0;
        let mut posn: usize = p2;
        proof {
            let d0 = dec_list(b@.skip(p2 as int), n as nat, g);
            if d0 is Some {
                assert(Seq::<CellView>::empty() + d0->Some_0.0 =~= d0->Some_0.0);
            }
            assert(cells@.map_values(|c: Cell| c@) =~= Seq::<CellView>::empty());
        }
        while i < n
            invariant
                i <= n,
                1 <= p2 <= posn <= b@.len(),
                b@.len() >= 1 && b@[0] == 3,
                g == (|bb: Seq<u8>| dec_cell(bb)),
                dec_usize(b@.skip(1)) == Some::<(usize, Seq<u8>)>((n, b@.skip(p2 as int))),
                (match dec_list(b@.skip(posn as int), (n - i) as nat, g) {
                    Option::Some(pr) => dec_list(b@.skip(p2 as int), n as nat, g) == Option::Some(
                        (cells@.map_values(|c: Cell| c@) + pr.0, pr.1),
                    ),
                    Option::None => dec_list(b@.skip(p2 as int), n as nat, g) is None,
                }),
            decreases n - i,
        {
            let ghost accv = cells@.map_values(|c: Cell| c@);
            let (c, pn) = match read_cell(b, posn) {
                Some(v) => v,
                None => {
                    proof {
                        assert(dec_list(b@.skip(posn as int), (n - i) as nat, g) is None);
                    }
                    return None;
                },
            };
            proof {
                let bb = b@.skip(posn as int);
                let rest1 = b@.skip(pn as int);
                assert(g(bb) == Some::<(CellView, Seq<u8>)>((c@, rest1)));
                let tail = dec_list(rest1, (n - i - 1) as nat, g);
                if tail is Some {
                    let pr = tail->Some_0;
                    assert(dec_list(bb, (n - i) as nat, g) == Some::<(Seq<CellView>, Seq<u8>)>(
                        (seq![c@] + pr.0, pr.1),
                    ));
                    assert(accv + (seq![c@] + pr.0) =~= accv.push(c@) + pr.0);
                } else {
                    assert(dec_list(bb, (n - i) as nat, g) is None);
                }
            }
            cells.push(c);
            proof {
                assert(cells@.map_values(|cc: Cell| cc@) =~= accv.push(c@));
            }
            posn = pn;
            i = i + 1;
        }
        if posn == b.len() {
            proof {
                assert(dec_list(b@.skip(posn as int), 0, g) == Some::<(Seq<CellView>, Seq<u8>)>(
                    (Seq::empty(), b@.skip(posn as int)),
                ));
                assert(cells@.map_values(|c: Cell| c@) + Seq::<CellView>::empty() =~= cells@
                    .map_values(|c: Cell| c@));
                assert(b@.skip(posn as int).len() == 0);
            }
            Some(Data::Cells(cells))
        } else {
            proof {
                assert(dec_list(b@.skip(posn as int), 0, g) == Some::<(Seq<CellView>, Seq<u8>)>(
                    (Seq::empty(), b@.skip(posn as int)),
                ));
                assert(b@.skip(posn as int).len() != 0);
            }
            None
        }
    } else if tag == 4 {
        let ghost g = |bb: Seq<u8>| dec_player(bb);
        let (n, p2) = match read_usize(b, 1) {
            Some(v) => v,
            None => {
                return None;
            },
        };
        let mut players: Vec<Player> = Vec::new();
        let mut i: usize = 0;
        let mut posn: usize = p2;
        proof {
            let d0 = dec_list(b@.skip(p2 as int), n as nat, g);
            if d0 is Some {
                assert(Seq::<Player>::empty() + d0->Some_0.0 =~= d0->Some_0.0);
            }
        }
        while i < n
            invariant
                i <= n,
                1 <= p2 <= posn <= b@.len(),
                b@.len() >= 1 && b@[0] == 4,
                g == (|bb: Seq<u8>| dec_player(bb)),
                dec_usize(b@.skip(1)) == Some::<(usize, Seq<u8>)>((n, b@.skip(p2 as int))),
                (match dec_list(b@.skip(posn as int), (n - i) as nat, g) {
                    Option::Some(pr) => dec_list(b@.skip(p2 as int), n as nat, g) == Option::Some(
                        (players@ + pr.0, pr.1),
                    ),
                    Option::None => dec_list(b@.skip(p2 as int), n as nat, g) is None,
                }),
            decreases n - i,
        {
            let (pl, pn) = match read_player(b, posn) {
                Some(v) => v,
                None => {
                    proof {
                        assert(dec_list(b@.skip(posn as int), (n - i) as nat, g) is None);
                    }
                    return None;
                },
            };
            proof {
                let bb = b@.skip(posn as int);
                let rest1 = b@.skip(pn as int);
                assert(g(bb) == Some::<(Player, Seq<u8>)>((pl, rest1)));
                let tail = dec_list(rest1, (n - i - 1) as nat, g);
                if tail is Some {
                    let pr = tail->Some_0;
                    assert(dec_list(bb, (n - i) as nat, g) == Some::<(Seq<Player>, Seq<u8>)>(
                        (seq![pl] + pr.0, pr.1),
                    ));
                    assert(players@ + (seq![pl] + pr.0) =~= players@.push(pl) + pr.0);
                } else {
                    assert(dec_list(bb, (n - i) as nat, g) is None);
                }
            }
            players.push(pl);
            posn = pn;
            i = i + 1;
        }
        if posn == b.len() {
            proof {
                assert(dec_list(b@.skip(posn as int), 0, g) == Some::<(Seq<Player>, Seq<u8>)>(
                    (Seq::empty(), b@.skip(posn as int)),
                ));
                assert(players@ + Seq::<Player>::empty() =~= players@);
                assert(b@.skip(posn as int).len() == 0);
            }
            Some(Data::Players(players))
        } else {
            proof {
                assert(dec_list(b@.skip(posn as int), 0, g) == Some::<(Seq<Player>, Seq<u8>)>(
                    (Seq::empty(), b@.skip(posn as int)),
                ));
                assert(b@.skip(posn as int).len() != 0);
            }
            None
        }
    } else if tag == 5 {
        if b.len() == 2 {
            let kv = b[1];
            proof {
                assert(b@.skip(1).len() == 1);
                assert(b@.skip(1)[0] == b@[1]);
            }
            if kv == 0 {
                Some(Data::Key(SerKey::Undefined))
            } else if kv == 1 {
                Some(Data::Key(SerKey::Right))
            } else if kv == 2 {
                Some(Data::Key(SerKey::Down))
            } else if kv == 3 {
                Some(Data::Key(SerKey::Left))
            } else if kv == 4 {
                Some(Data::Key(SerKey::Up))
            } else {
                None
            }
        } else {
            None
        }
    } else {
        None
    }
}

// --------------------------------------------------- decoding an encoding

/// The cell's link list has a length this machine can count.
pub open spec fn cell_fits(c: CellView) -> bool {
    c.n.len() <= usize::MAX
}

/// Every list and byte string in the message has a length this machine can
/// count. Every value built from real vectors satisfies this.
pub open spec fn data_fits(d: DataView) -> bool {
    match d {
        DataView::Connection => true,
        DataView::PublicKeyOffer(p) => p.len() <= usize::MAX,
        DataView::Handshake(p) => p.len() <= usize::MAX,
        DataView::Cells(cs) => cs.len() <= usize::MAX && (forall|i: int|
            0 <= i < cs.len() ==> cell_fits(#[trigger] cs[i])),
        DataView::Players(ps) => ps.len() <= usize::MAX,
        DataView::Key(_) => true,
    }
}

proof fn lemma_dec_enc_u64(v: u64, rest: Seq<u8>)
    ensures
        dec_u64(enc_u64(v) + rest) == Some::<(u64, Seq<u8>)>((v, rest)),
{
    lemma_auto_spec_u64_to_from_le_bytes();
    assert(enc_u64(v).len() == 8);
    assert((enc_u64(v) + rest).take(8) =~= enc_u64(v));
    assert((enc_u64(v) + rest).skip(8) =~= rest);
}

proof fn lemma_dec_enc_usize(x: usize, rest: Seq<u8>)
    ensures
        dec_usize(enc_u64(x as u64) + rest) == Some::<(usize, Seq<u8>)>((x, rest)),
{
    lemma_dec_enc_u64(x as u64, rest);
}

proof fn lemma_dec_enc_coord(c: Coord, rest: Seq<u8>)
    ensures
        dec_coord(enc_coord(c) + rest) == Some::<(Coord, Seq<u8>)>((c, rest)),
{
    assert(enc_coord(c) + rest =~= enc_u64(c.x as u64) + (enc_u64(c.y as u64) + rest));
    lemma_dec_enc_usize(c.x, enc_u64(c.y as u64) + rest);
    lemma_dec_enc_usize(c.y, rest);
}

proof fn lemma_dec_enc_player(p: Player, rest: Seq<u8>)
    ensures
        dec_player(enc_player(p) + rest) == Some::<(Player, Seq<u8>)>((p, rest)),
{
    assert(enc_player(p) + rest =~= enc_u64(p.number as u64) + (enc_coord(p.coord) + rest));
    lemma_dec_enc_usize(p.number, enc_coord(p.coord) + rest);
    lemma_dec_enc_coord(p.coord, rest);
}

/// Reading back a list body: if every item decodes to itself in front of
/// any remainder, so does the whole list.
proof fn lemma_dec_enc_list<T>(
    s: Seq<T>,
    f: spec_fn(T) -> Seq<u8>,
    g: spec_fn(Seq<u8>) -> Option<(T, Seq<u8>)>,
    rest: Seq<u8>,
)
    requires
        forall|x: T, rr: Seq<u8>|
            s.contains(x) ==> #[trigger] g(f(x) + rr) == Some::<(T, Seq<u8>)>((x, rr)),
    ensures
        dec_list(enc_list(s, f) + rest, s.len(), g) == Some::<(Seq<T>, Seq<u8>)>((s, rest)),
    decreases s.len(),
{
    if s.len() == 0 {
        assert(enc_list(s, f) + rest =~= rest);
        assert(dec_list(rest, 0, g) == Some::<(Seq<T>, Seq<u8>)>((Seq::empty(), rest)));
        assert(s =~= Seq::<T>::empty());
    } else {
        let tailenc = enc_list(s.skip(1), f) + rest;
        assert(enc_list(s, f) + rest =~= f(s[0]) + tailenc);
        assert(s.contains(s[0]));
        assert(g(f(s[0]) + tailenc) == Some::<(T, Seq<u8>)>((s[0], tailenc)));
        assert forall|x: T, rr: Seq<u8>| s.skip(1).contains(x) implies #[trigger] g(f(x) + rr)
            == Some::<(T, Seq<u8>)>((x, rr)) by {
            assert(s.contains(x)) by {
                let idx = choose|idx: int| 0 <= idx < s.skip(1).len() && s.skip(1)[idx] == x;
                assert(s[idx + 1] == x);
            }
        }
        lemma_dec_enc_list(s.skip(1), f, g, rest);
        assert(seq![s[0]] + s.skip(1) =~= s);
    }
}

proof fn lemma_dec_enc_cell(c: CellView, rest: Seq<u8>)
    requires
        cell_fits(c),
    ensures
        dec_cell(enc_cell(c) + rest) == Some::<(CellView, Seq<u8>)>((c, rest)),
{
    let f = |x: Coord| enc_coord(x);
    let g = |bb: Seq<u8>| dec_coord(bb);
    let listenc = enc_list(c.n, f) + rest;
    let cnt = enc_u64(c.n.len() as u64);
    assert(enc_cell(c) + rest =~= enc_coord(c.coord) + (cnt + listenc));
    lemma_dec_enc_coord(c.coord, cnt + listenc);
    lemma_dec_enc_u64(c.n.len() as u64, listenc);
    assert forall|x: Coord, rr: Seq<u8>| c.n.contains(x) implies #[trigger] g(f(x) + rr)
        == Some::<(Coord, Seq<u8>)>((x, rr)) by {
        lemma_dec_enc_coord(x, rr);
    }
    lemma_dec_enc_list(c.n, f, g, rest);
}

/// Decoding an encoding gives the message back: the codec never confuses
/// two messages and never drops one.
pub proof fn lemma_codec_round_trip(d: DataView)
    requires
        data_fits(d),
    ensures
        dec_data(enc_data(d)) == Some(d),
{
    let b = enc_data(d);
    match d {
        DataView::Connection => {
            assert(b =~= seq![0u8]);
            assert(b.skip(1) =~= Seq::<u8>::empty());
        },
        DataView::PublicKeyOffer(p) => {
            assert(b.skip(1) =~= enc_u64(p.len() as u64) + p);
            assert(b[0] == 1);
            lemma_dec_enc_u64(p.len() as u64, p);
        },
        DataView::Handshake(p) => {
            assert(b.skip(1) =~= enc_u64(p.len() as u64) + p);
            assert(b[0] == 2);
            lemma_dec_enc_u64(p.len() as u64, p);
        },
        DataView::Cells(cs) => {
            let f = |c: CellView| enc_cell(c);
            let g = |bb: Seq<u8>| dec_cell(bb);
            let listenc = enc_list(cs, f);
            assert(b.skip(1) =~= enc_u64(cs.len() as u64) + listenc);
            assert(b[0] == 3);
            lemma_dec_enc_u64(cs.len() as u64, listenc);
            assert forall|x: CellView, rr: Seq<u8>| cs.contains(x) implies #[trigger] g(f(x) + rr)
                == Some::<(CellView, Seq<u8>)>((x, rr)) by {
                let idx = choose|idx: int| 0 <= idx < cs.len() && cs[idx] == x;
                assert(cell_fits(cs[idx]));
                lemma_dec_enc_cell(x, rr);
            }
            lemma_dec_enc_list(cs, f, g, Seq::<u8>::empty());
            assert(listenc + Seq::<u8>::empty() =~= listenc);
        },
        DataView::Players(ps) => {
            let f = |p: Player| enc_player(p);
            let g = |bb: Seq<u8>| dec_player(bb);
            let listenc = enc_list(ps, f);
            assert(b.skip(1) =~= enc_u64(ps.len() as u64) + listenc);
            assert(b[0] == 4);
            lemma_dec_enc_u64(ps.len() as u64, listenc);
            assert forall|x: Player, rr: Seq<u8>| ps.contains(x) implies #[trigger] g(f(x) + rr)
                == Some::<(Player, Seq<u8>)>((x, rr)) by {
                lemma_dec_enc_player(x, rr);
            }
            lemma_dec_enc_list(ps, f, g, Seq::<u8>::empty());
            assert(listenc + Seq::<u8>::empty() =~= listenc);
        },
        DataView::Key(k) => {
            assert(b =~= seq![5u8, key_code(k)]);
            assert(b.skip(1) =~= seq![key_code(k)]);
            assert(b.skip(1).len() == 1);
            assert(b.skip(1)[0] == key_code(k));
        },
    }
}

} // verus!
