//! Why generation never gets stuck and why the finished maze spans the
//! grid: while some in-bounds coordinate is still unvisited, walking toward
//! it from the root meets a connected cell with a fresh neighbour; and a
//! well-formed tree with `w * h` cells covers every grid coordinate and
//! reaches each of them from the root.

use crate::cell::Cell;
use crate::coord::{adjacent, Coord};
use crate::maze::{
    candidate_ok, coords_distinct, coords_in_bounds, has_coord, has_parent, link_targets_distinct,
    linked_one_way, passable, total_links, wf_tree,
};
use vstd::arithmetic::div_mod::{
    lemma_fundamental_div_mod, lemma_fundamental_div_mod_converse, lemma_mod_bound,
};
use vstd::arithmetic::mul::lemma_mul_inequality;
use vstd::prelude::*;
use vstd::relations::injective_on;
use vstd::seq_lib::seq_to_set_is_finite;
use vstd::set_lib::{
    lemma_int_range, lemma_len_subset, lemma_map_size, lemma_subset_equality, set_int_range,
};

verus! {

/// All coordinates of a `w` by `h` grid.
pub open spec fn grid_set(w: usize, h: usize) -> Set<Coord> {
    Set::new(|c: Coord| c.in_bounds(w, h))
}

/// The coordinates of the connected cells, in discovery order.
pub open spec fn coords_seq(s: Seq<(Coord, Cell)>) -> Seq<Coord> {
    Seq::new(s.len(), |i: int| s[i].1.coord)
}

/// Division of a number below `wi * h` by `wi` lands below `h`.
proof fn lemma_div_below(n: int, wi: int, h: int)
    requires
        wi >= 1,
        0 <= n < wi * h,
    ensures
        0 <= n / wi < h,
        0 <= n % wi < wi,
{
    lemma_fundamental_div_mod(n, wi);
    lemma_mod_bound(n, wi);
    if n / wi >= h {
        lemma_mul_inequality(h, n / wi, wi);
        assert(h * wi <= (n / wi) * wi);
        assert(wi * (n / wi) == (n / wi) * wi) by (nonlinear_arith);
        assert(wi * h == h * wi) by (nonlinear_arith);
        assert(false);
    }
    if n / wi < 0 {
        lemma_mul_inequality(n / wi, -1, wi);
        assert((n / wi) * wi <= (-1) * wi);
        assert(wi * (n / wi) == (n / wi) * wi) by (nonlinear_arith);
        assert(false);
    }
}

/// A `w` by `h` grid has exactly `w * h` coordinates.
pub proof fn lemma_grid_card(w: usize, h: usize)
    requires
        w >= 1,
    ensures
        grid_set(w, h).finite(),
        grid_set(w, h).len() == w * h,
{
    let wi = w as int;
    let f = |n: int| Coord { x: (n % wi) as usize, y: (n / wi) as usize };
    let rng = set_int_range(0, wi * h);
    lemma_int_range(0, wi * h);
    assert(injective_on(f, rng)) by {
        assert forall|n1: int, n2: int|
            rng.contains(n1) && rng.contains(n2) && #[trigger] f(n1) == #[trigger] f(n2)
            implies n1 == n2 by {
            lemma_div_below(n1, wi, h as int);
            lemma_div_below(n2, wi, h as int);
            lemma_fundamental_div_mod(n1, wi);
            lemma_fundamental_div_mod(n2, wi);
            assert(n1 % wi == n2 % wi);
            assert(n1 / wi == n2 / wi);
        }
    }
    assert(rng.map(f) =~= grid_set(w, h)) by {
        assert forall|c: Coord| grid_set(w, h).contains(c) implies rng.map(f).contains(c) by {
            let n = c.y * wi + c.x;
            assert(0 <= n) by {
                lemma_mul_inequality(0, c.y as int, wi);
            }
            assert(n < wi * h) by {
                lemma_mul_inequality(c.y as int, h - 1, wi);
                assert((h - 1) * wi + wi == h as int * wi) by (nonlinear_arith);
                assert(wi * h == h as int * wi) by (nonlinear_arith);
            }
            lemma_fundamental_div_mod_converse(n, wi, c.y as int, c.x as int);
            assert(f(n) == c);
            assert(rng.contains(n));
        }
        assert forall|c: Coord| rng.map(f).contains(c) implies grid_set(w, h).contains(c) by {
            let n = choose|n: int| rng.contains(n) && #[trigger] f(n) == c;
            lemma_div_below(n, wi, h as int);
        }
    }
    lemma_map_size(rng, rng.map(f), f);
}

/// Distinct cells occupy distinct coordinates, so the tree holds as many
/// coordinates as cells.
pub proof fn lemma_coords_card(s: Seq<(Coord, Cell)>)
    requires
        coords_distinct(s),
    ensures
        coords_seq(s).to_set().finite(),
        coords_seq(s).to_set().len() == s.len(),
        forall|c: Coord| coords_seq(s).to_set().contains(c) == has_coord(s, c),
{
    let cs = coords_seq(s);
    assert(cs.no_duplicates());
    cs.unique_seq_to_set();
    seq_to_set_is_finite(cs);
    assert forall|c: Coord| cs.to_set().contains(c) == has_coord(s, c) by {
        if cs.contains(c) {
            let i = choose|i: int| 0 <= i < cs.len() && cs[i] == c;
            assert(s[i].1.coord == c);
        }
        if has_coord(s, c) {
            let i = choose|i: int| 0 <= i < s.len() && (#[trigger] s[i]).1.coord == c;
            assert(cs[i] == c);
        }
    }
}

/// How many grid steps separate two coordinates.
pub open spec fn manhattan(a: Coord, b: Coord) -> int {
    (if a.x >= b.x {
        a.x - b.x
    } else {
        b.x - a.x
    }) + (if a.y >= b.y {
        a.y - b.y
    } else {
        b.y - a.y
    })
}

/// The next coordinate on an axis-first walk from `v` toward a different
/// coordinate `u`.
pub open spec fn step_toward(v: Coord, u: Coord) -> Coord {
    if v.x < u.x {
        Coord { x: (v.x + 1) as usize, y: v.y }
    } else if v.x > u.x {
        Coord { x: (v.x - 1) as usize, y: v.y }
    } else if v.y < u.y {
        Coord { x: v.x, y: (v.y + 1) as usize }
    } else {
        Coord { x: v.x, y: (v.y - 1) as usize }
    }
}

/// Walking from a connected cell toward an unvisited coordinate meets, at
/// the latest one step before reaching it, a connected cell with a fresh
/// in-bounds neighbour.
proof fn lemma_walk(s: Seq<(Coord, Cell)>, w: usize, h: usize, vi: int, u: Coord)
    requires
        coords_in_bounds(s, w, h),
        0 <= vi < s.len(),
        u.in_bounds(w, h),
        !has_coord(s, u),
    ensures
        exists|i: int, c: Coord| 0 <= i < s.len() && candidate_ok(s, w, h, i, c),
    decreases manhattan(s[vi].1.coord, u),
{
    let v = s[vi].1.coord;
    assert(has_coord(s, v));
    assert(v != u);
    if adjacent(v, u) {
        assert(candidate_ok(s, w, h, vi, u));
    } else {
        let m = step_toward(v, u);
        assert(adjacent(v, m));
        assert(m.in_bounds(w, h));
        assert(manhattan(m, u) == manhattan(v, u) - 1);
        if !has_coord(s, m) {
            assert(candidate_ok(s, w, h, vi, m));
        } else {
            let mi = choose|j: int| 0 <= j < s.len() && (#[trigger] s[j]).1.coord == m;
            lemma_walk(s, w, h, mi, u);
        }
    }
}

/// While the tree covers less than the whole grid, some connected cell
/// still has a fresh in-bounds neighbour to grow into.
pub proof fn lemma_growth_possible(s: Seq<(Coord, Cell)>, w: usize, h: usize)
    requires
        s.len() >= 1,
        w >= 1,
        h >= 1,
        coords_distinct(s),
        coords_in_bounds(s, w, h),
        s.len() < w * h,
    ensures
        exists|i: int, c: Coord| 0 <= i < s.len() && candidate_ok(s, w, h, i, c),
{
    let cs = coords_seq(s).to_set();
    let gs = grid_set(w, h);
    lemma_grid_card(w, h);
    lemma_coords_card(s);
    if forall|c: Coord| gs.contains(c) ==> #[trigger] cs.contains(c) {
        assert(gs.subset_of(cs));
        lemma_len_subset(gs, cs);
        assert(false);
    }
    let u = choose|c: Coord| gs.contains(c) && !#[trigger] cs.contains(c);
    assert(!has_coord(s, u));
    lemma_walk(s, w, h, 0, u);
}

/// A tree with as many cells as the grid has coordinates sits on every one
/// of them.
pub proof fn lemma_tree_covers(s: Seq<(Coord, Cell)>, w: usize, h: usize)
    requires
        w >= 1,
        h >= 1,
        coords_distinct(s),
        coords_in_bounds(s, w, h),
        s.len() == w * h,
    ensures
        forall|c: Coord| c.in_bounds(w, h) ==> has_coord(s, c),
{
    let cs = coords_seq(s).to_set();
    let gs = grid_set(w, h);
    lemma_grid_card(w, h);
    lemma_coords_card(s);
    assert(cs.subset_of(gs)) by {
        assert forall|c: Coord| cs.contains(c) implies gs.contains(c) by {
            let i = choose|i: int| 0 <= i < s.len() && (#[trigger] s[i]).1.coord == c;
        }
    }
    lemma_subset_equality(cs, gs);
    assert forall|c: Coord| c.in_bounds(w, h) implies has_coord(s, c) by {
        assert(gs.contains(c));
        assert(cs.contains(c));
    }
}

/// A walk through the tree by cell positions: it starts at the root, ends
/// at position `j`, and every step crosses a passage.
pub open spec fn is_index_path(s: Seq<(Coord, Cell)>, p: Seq<int>, j: int) -> bool {
    &&& p.len() >= 1
    &&& p[0] == 0
    &&& p[p.len() - 1] == j
    &&& forall|k: int| 0 <= k < p.len() ==> 0 <= #[trigger] p[k] < s.len()
    &&& forall|k: int|
        1 <= k < p.len() ==> passable(s, s[p[k - 1]].1.coord, s[#[trigger] p[k]].1.coord)
}

/// The cell at position `j` can be reached from the root through passages.
pub open spec fn reachable_from_root(s: Seq<(Coord, Cell)>, j: int) -> bool {
    exists|p: Seq<int>| is_index_path(s, p, j)
}

/// In a tree where every later cell has a parent among the earlier ones,
/// every cell is reachable from the root.
pub proof fn lemma_reachable(s: Seq<(Coord, Cell)>, j: int)
    requires
        has_parent(s),
        0 <= j < s.len(),
    ensures
        reachable_from_root(s, j),
    decreases j,
{
    if j == 0 {
        let p = seq![0int];
        assert(is_index_path(s, p, 0));
    } else {
        let i = choose|i: int| 0 <= i < j && (#[trigger] s[i]).1.n@.contains(s[j].1.coord);
        lemma_reachable(s, i);
        let p0 = choose|p: Seq<int>| is_index_path(s, p, i);
        let p = p0.push(j);
        assert(is_index_path(s, p, j)) by {
            assert(p[0] == p0[0]);
            assert(p[p.len() - 1] == j);
            assert(forall|k: int| 0 <= k < p0.len() ==> p[k] == #[trigger] p0[k]);
            assert forall|k: int| 1 <= k < p.len() implies passable(
                s,
                s[p[k - 1]].1.coord,
                s[#[trigger] p[k]].1.coord,
            ) by {
                if k < p0.len() {
                    assert(p[k] == p0[k] && p[k - 1] == p0[k - 1]);
                } else {
                    assert(p[k] == j && p[k - 1] == p0[p0.len() - 1] && p0[p0.len() - 1] == i);
                    assert(linked_one_way(s, s[i].1.coord, s[j].1.coord));
                }
            }
        }
    }
}

/// Spanning property of a finished maze: a well-formed tree with `w * h`
/// cells covers every coordinate of the grid exactly once, stores exactly
/// `w * h - 1` links, connects every cell to the root through passages,
/// and gives every cell but the root exactly one incoming link (at least
/// one by `has_parent`, at most one by `link_targets_distinct`) — the
/// passages form a tree, not merely a connected graph.
pub proof fn lemma_spanning_tree(s: Seq<(Coord, Cell)>, w: usize, h: usize)
    requires
        w >= 1,
        h >= 1,
        wf_tree(s, w, h),
        s.len() == w * h,
    ensures
        total_links(s) == w * h - 1,
        forall|c: Coord| c.in_bounds(w, h) ==> has_coord(s, c),
        forall|j: int| 0 <= j < s.len() ==> reachable_from_root(s, j),
        has_parent(s),
        link_targets_distinct(s),
{
    lemma_tree_covers(s, w, h);
    assert forall|j: int| 0 <= j < s.len() implies reachable_from_root(s, j) by {
        lemma_reachable(s, j);
    }
}

} // verus!
