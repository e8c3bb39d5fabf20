//! The maze graph container: an insertion-ordered map from coordinates to
//! cells, backed by `indexmap::IndexMap`. Verified code sees the map through
//! `tree_entries`, the sequence of its key/value pairs in insertion order,
//! and through the small trusted wrappers below; everything else about the
//! container is opaque.

use crate::cell::Cell;
use crate::coord::Coord;
use indexmap::IndexMap;
use vstd::prelude::*;

verus! {

#[verifier::external_type_specification]
#[verifier::external_body]
#[verifier::reject_recursive_types(K)]
#[verifier::reject_recursive_types(V)]
#[verifier::reject_recursive_types(S)]
pub struct ExIndexMap<K, V, S>(IndexMap<K, V, S>);

/// What an `IndexMap<Coord, Cell>` holds: its key/value pairs in insertion
/// order. Every trusted wrapper below states its effect over this sequence.
pub uninterp spec fn tree_entries(m: IndexMap<Coord, Cell>) -> Seq<(Coord, Cell)>;

/// No two entries share a key. `IndexMap` keeps keys unique on its own; the
/// wrappers that look a key up ask for this so that their contracts never
/// have to speak of a sequence no real map history could produce.
pub open spec fn keys_distinct(s: Seq<(Coord, Cell)>) -> bool {
    forall|i: int, j: int| 0 <= i < j < s.len() ==> s[i].0 != s[j].0
}

/// Some entry carries the key `c`.
pub open spec fn has_key(s: Seq<(Coord, Cell)>, c: Coord) -> bool {
    exists|i: int| 0 <= i < s.len() && s[i].0 == c
}

/// Relies on `IndexMap::new`: a new map has no entries.
#[verifier::external_body]
pub fn tree_new() -> (m: IndexMap<Coord, Cell>)
    ensures
        tree_entries(m) == Seq::<(Coord, Cell)>::empty(),
{
    IndexMap::new()
}

/// Relies on `IndexMap::len`: the number of key/value pairs.
#[verifier::external_body]
pub fn tree_len(m: &IndexMap<Coord, Cell>) -> (r: usize)
    ensures
        r == tree_entries(*m).len(),
{
    m.len()
}

/// Relies on `IndexMap::contains_key`; `Coord` compares by its fields.
#[verifier::external_body]
pub fn tree_contains(m: &IndexMap<Coord, Cell>, c: Coord) -> (r: bool)
    ensures
        r == has_key(tree_entries(*m), c),
{
    m.contains_key(&c)
}

/// Relies on `IndexMap::insert`: a pair whose key is not yet present is
/// inserted last in order. The cell is stored under its own coordinate.
#[verifier::external_body]
pub fn tree_insert_new(m: &mut IndexMap<Coord, Cell>, cell: Cell)
    requires
        !has_key(tree_entries(*old(m)), cell.coord),
    ensures
        tree_entries(*final(m)) == tree_entries(*old(m)).push((cell.coord, cell)),
{
    m.insert(cell.coord, cell);
}

/// Relies on `IndexMap::get`: the value stored under an equivalent key, or
/// `None` when the key is absent.
#[verifier::external_body]
pub fn tree_get<'a>(m: &'a IndexMap<Coord, Cell>, c: Coord) -> (r: Option<&'a Cell>)
    requires
        keys_distinct(tree_entries(*m)),
    ensures
        r is Some <==> has_key(tree_entries(*m), c),
        r matches Some(cell) ==> exists|i: int|
            0 <= i < tree_entries(*m).len() && tree_entries(*m)[i] == (c, *cell),
{
    m.get(&c)
}

/// Relies on `IndexMap::get_index`: the pair at a position in insertion
/// order; positions below `len` are always occupied.
#[verifier::external_body]
pub fn tree_get_index<'a>(m: &'a IndexMap<Coord, Cell>, i: usize) -> (r: &'a Cell)
    requires
        i < tree_entries(*m).len(),
    ensures
        *r == tree_entries(*m)[i as int].1,
{
    m.get_index(i).unwrap().1
}

/// Relies on `IndexMap::get_index_mut`: the pair at a position in insertion
/// order, mutable. Appends one link to the cell stored there; no other entry
/// moves or changes.
#[verifier::external_body]
pub fn tree_push_link(m: &mut IndexMap<Coord, Cell>, i: usize, c: Coord)
    requires
        i < tree_entries(*old(m)).len(),
    ensures
        tree_entries(*final(m)).len() == tree_entries(*old(m)).len(),
        forall|j: int|
            0 <= j < tree_entries(*old(m)).len() && j != i ==> tree_entries(*final(m))[j]
                == tree_entries(*old(m))[j],
        tree_entries(*final(m))[i as int].0 == tree_entries(*old(m))[i as int].0,
        tree_entries(*final(m))[i as int].1.coord == tree_entries(*old(m))[i as int].1.coord,
        tree_entries(*final(m))[i as int].1.n@ == tree_entries(*old(m))[i as int].1.n@.push(c),
{
    m.get_index_mut(i).unwrap().1.n.push(c);
}

/// Relies on `IndexMap::clone` (and `Cell`'s derived deep clone): the copy
/// holds the same entries in the same order.
#[verifier::external_body]
pub fn tree_clone(m: &IndexMap<Coord, Cell>) -> (r: IndexMap<Coord, Cell>)
    ensures
        tree_entries(r).len() == tree_entries(*m).len(),
        forall|i: int|
            0 <= i < tree_entries(*m).len() ==> tree_entries(r)[i].0 == tree_entries(*m)[i].0
                && tree_entries(r)[i].1.coord == tree_entries(*m)[i].1.coord && tree_entries(
                r,
            )[i].1.n@ == tree_entries(*m)[i].1.n@,
{
    m.clone()
}

/// Relies on `IndexMap::values`: the values in insertion order, copied out.
#[verifier::external_body]
pub fn tree_values(m: &IndexMap<Coord, Cell>) -> (r: Vec<Cell>)
    ensures
        r@.len() == tree_entries(*m).len(),
        forall|i: int|
            0 <= i < tree_entries(*m).len() ==> r@[i].coord == tree_entries(*m)[i].1.coord
                && r@[i].n@ == tree_entries(*m)[i].1.n@,
{
    m.values().cloned().collect()
}

} // verus!
