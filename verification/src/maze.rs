//! The maze generator: a randomized growing tree. Starting from a root cell,
//! each step picks a connected cell at random among those that still have an
//! unvisited in-bounds neighbour, then one such neighbour at random, and
//! attaches that neighbour as a new cell with a link from the picked cell.
//! Every step therefore connects exactly one new cell, and the grown graph is
//! a spanning tree of the grid: `w * h` cells and `w * h - 1` links.

use crate::cell::Cell;
use crate::coord::{adjacent, Coord};
use crate::rng::rand_below;
use crate::treemap::{
    has_key, keys_distinct, tree_clone, tree_contains, tree_entries, tree_get_index,
    tree_insert_new, tree_len, tree_new, tree_push_link,
};
use indexmap::IndexMap;
use vstd::prelude::*;

verus! {

/// The keys of the map agree with the coordinate stored in each cell.
pub open spec fn keys_agree(s: Seq<(Coord, Cell)>) -> bool {
    forall|i: int| 0 <= i < s.len() ==> (#[trigger] s[i]).0 == s[i].1.coord
}

/// Every cell's coordinate lies on the `w` by `h` grid.
pub open spec fn coords_in_bounds(s: Seq<(Coord, Cell)>, w: usize, h: usize) -> bool {
    forall|i: int| 0 <= i < s.len() ==> (#[trigger] s[i]).1.coord.in_bounds(w, h)
}

/// Some cell sits at coordinate `c`.
pub open spec fn has_coord(s: Seq<(Coord, Cell)>, c: Coord) -> bool {
    exists|i: int| 0 <= i < s.len() && (#[trigger] s[i]).1.coord == c
}

/// Every stored link leads from a cell to the coordinate of a cell that was
/// discovered later, and the two coordinates are grid-adjacent.
pub open spec fn links_ok(s: Seq<(Coord, Cell)>) -> bool {
    forall|i: int, k: int|
        0 <= i < s.len() && 0 <= k < s[i].1.n@.len() ==> adjacent(
            s[i].1.coord,
            #[trigger] s[i].1.n@[k],
        ) && exists|j: int| i < j < s.len() && (#[trigger] s[j]).1.coord == s[i].1.n@[k]
}

/// Every cell but the root has an incoming link from an earlier cell.
pub open spec fn has_parent(s: Seq<(Coord, Cell)>) -> bool {
    forall|j: int|
        1 <= j < s.len() ==> exists|i: int|
            0 <= i < j && s[i].1.n@.contains((#[trigger] s[j]).1.coord)
}

/// No two stored links point at the same coordinate: together with
/// `has_parent`, every cell but the root has exactly one incoming link.
pub open spec fn link_targets_distinct(s: Seq<(Coord, Cell)>) -> bool {
    forall|i: int, k: int, i2: int, k2: int|
        #![trigger s[i].1.n@[k], s[i2].1.n@[k2]]
        0 <= i < s.len() && 0 <= k < s[i].1.n@.len() && 0 <= i2 < s.len() && 0 <= k2
            < s[i2].1.n@.len() && (i != i2 || k != k2) ==> s[i].1.n@[k] != s[i2].1.n@[k2]
}

/// The number of links stored over the whole tree.
pub open spec fn total_links(s: Seq<(Coord, Cell)>) -> nat
    decreases s.len(),
{
    if s.len() == 0 {
        0
    } else {
        total_links(s.drop_last()) + s.last().1.n@.len()
    }
}

/// Well-formedness of a (possibly still growing) maze graph over a `w` by
/// `h` grid: a rooted forest that is in fact one tree, stored in discovery
/// order with parent links pointing forward.
pub open spec fn wf_tree(s: Seq<(Coord, Cell)>, w: usize, h: usize) -> bool {
    &&& s.len() >= 1
    &&& keys_agree(s)
    &&& keys_distinct(s)
    &&& coords_distinct(s)
    &&& coords_in_bounds(s, w, h)
    &&& links_ok(s)
    &&& has_parent(s)
    &&& link_targets_distinct(s)
    &&& total_links(s) == s.len() - 1
}

/// No two cells share a coordinate.
pub open spec fn coords_distinct(s: Seq<(Coord, Cell)>) -> bool {
    forall|i: int, j: int|
        0 <= i < j < s.len() ==> (#[trigger] s[i]).1.coord != (#[trigger] s[j]).1.coord
}

/// Where generation starts: the middle of the grid.
pub open spec fn root_coord(w: usize, h: usize) -> Coord {
    Coord { x: (w / 2) as usize, y: (h / 2) as usize }
}

/// `c` can be attached to the cell at index `i`: it is a fresh in-bounds
/// grid neighbour of that cell.
pub open spec fn candidate_ok(s: Seq<(Coord, Cell)>, w: usize, h: usize, i: int, c: Coord) -> bool {
    &&& adjacent(s[i].1.coord, c)
    &&& c.in_bounds(w, h)
    &&& !has_coord(s, c)
}

/// The cells of the tree as plain values, in discovery order.
pub open spec fn cells_of_entries(s: Seq<(Coord, Cell)>) -> Seq<crate::cell::CellView> {
    Seq::new(s.len(), |i: int| crate::cell::CellView { coord: s[i].1.coord, n: s[i].1.n@ })
}

/// Some cell of the view sits at coordinate `c`.
pub open spec fn view_has_coord(cv: Seq<crate::cell::CellView>, c: Coord) -> bool {
    exists|i: int| 0 <= i < cv.len() && (#[trigger] cv[i]).coord == c
}

/// `c` could be attached somewhere: a fresh in-bounds coordinate.
pub open spec fn view_cand_ok(
    cv: Seq<crate::cell::CellView>,
    w: usize,
    h: usize,
    c: Coord,
) -> bool {
    c.in_bounds(w, h) && !view_has_coord(cv, c)
}

/// The `k`-th saturated neighbour of `a`, in the fixed probe order left,
/// right, up, down.
pub open spec fn probe_target(a: Coord, k: int) -> Coord {
    if k == 0 {
        crate::input::spec_move_target(a, crate::input::SerKey::Left)
    } else if k == 1 {
        crate::input::spec_move_target(a, crate::input::SerKey::Right)
    } else if k == 2 {
        crate::input::spec_move_target(a, crate::input::SerKey::Up)
    } else {
        crate::input::spec_move_target(a, crate::input::SerKey::Down)
    }
}

/// The attachable neighbours of cell `i` found by the first `k` probes.
#[verifier::opaque]
pub open spec fn avail_upto(
    cv: Seq<crate::cell::CellView>,
    w: usize,
    h: usize,
    i: int,
    k: nat,
) -> Seq<Coord>
    decreases k,
{
    if k == 0 {
        Seq::empty()
    } else {
        avail_upto(cv, w, h, i, (k - 1) as nat) + (if view_cand_ok(
            cv,
            w,
            h,
            probe_target(cv[i].coord, k - 1),
        ) {
            seq![probe_target(cv[i].coord, k - 1)]
        } else {
            Seq::empty()
        })
    }
}

/// All attachable neighbours of cell `i`, in probe order.
pub open spec fn view_avail(
    cv: Seq<crate::cell::CellView>,
    w: usize,
    h: usize,
    i: int,
) -> Seq<Coord> {
    avail_upto(cv, w, h, i, 4)
}

/// The positions among the first `n` cells that still have somewhere to
/// grow, in order.
#[verifier::opaque]
pub open spec fn view_elig(
    cv: Seq<crate::cell::CellView>,
    w: usize,
    h: usize,
    n: nat,
) -> Seq<usize>
    decreases n,
{
    if n == 0 {
        Seq::empty()
    } else {
        view_elig(cv, w, h, (n - 1) as nat) + (if view_avail(cv, w, h, n - 1).len() > 0 {
            seq![(n - 1) as usize]
        } else {
            Seq::empty()
        })
    }
}

/// Attaching `c` as a child of cell `i`, on the view: cell `i` gains one
/// link and the new cell goes last.
pub open spec fn attach_view(
    cv: Seq<crate::cell::CellView>,
    i: int,
    c: Coord,
) -> Seq<crate::cell::CellView> {
    cv.update(
        i,
        crate::cell::CellView { coord: cv[i].coord, n: cv[i].n.push(c) },
    ).push(crate::cell::CellView { coord: c, n: Seq::empty() })
}

/// One generation step under an explicit choice pair: pick the eligible
/// cell at rank `a`, its candidate at rank `b`, and attach. (On a view
/// that cannot grow, which a well-formed unfinished maze never is, the
/// step changes nothing.)
#[verifier::opaque]
pub open spec fn gen_step(
    cv: Seq<crate::cell::CellView>,
    w: usize,
    h: usize,
    a: usize,
    b: usize,
) -> Seq<crate::cell::CellView> {
    let elig = view_elig(cv, w, h, cv.len());
    if elig.len() == 0 {
        cv
    } else {
        let mi = elig[a as int % elig.len() as int];
        let av = view_avail(cv, w, h, mi as int);
        if av.len() == 0 {
            cv
        } else {
            attach_view(cv, mi as int, av[b as int % av.len() as int])
        }
    }
}

/// The whole generation as a function of the starting view and the choice
/// list: what `generate_from` computes, step by step. Two runs over the
/// same grid with the same choices grow the same maze.
#[verifier::opaque]
pub open spec fn gen_model(
    cv: Seq<crate::cell::CellView>,
    w: usize,
    h: usize,
    choices: Seq<(usize, usize)>,
) -> Seq<crate::cell::CellView>
    decreases choices.len(),
{
    if choices.len() == 0 {
        cv
    } else {
        gen_model(gen_step(cv, w, h, choices[0].0, choices[0].1), w, h, choices.skip(1))
    }
}

/// What one explicit-choice step does, given the eligible and candidate
/// lists it ranks into.
proof fn lemma_gen_step_matches(
    cv: Seq<crate::cell::CellView>,
    w: usize,
    h: usize,
    a: usize,
    b: usize,
    elig: Seq<usize>,
    avail: Seq<Coord>,
    mi: usize,
    c: Coord,
)
    requires
        elig == view_elig(cv, w, h, cv.len()),
        elig.len() > 0,
        mi == elig[a as int % elig.len() as int],
        avail == view_avail(cv, w, h, mi as int),
        avail.len() > 0,
        c == avail[b as int % avail.len() as int],
    ensures
        gen_step(cv, w, h, a, b) == attach_view(cv, mi as int, c),
{
    reveal(gen_step);
}

/// Unrolling the model by one choice.
proof fn lemma_gen_model_step(
    cv: Seq<crate::cell::CellView>,
    w: usize,
    h: usize,
    choices: Seq<(usize, usize)>,
)
    requires
        choices.len() > 0,
    ensures
        gen_model(cv, w, h, choices) == gen_model(
            gen_step(cv, w, h, choices[0].0, choices[0].1),
            w,
            h,
            choices.skip(1),
        ),
{
    reveal(gen_model);
}

/// Coordinates live on the view: the tree holds one at `c` exactly when
/// its view does.
proof fn lemma_has_coord_view(s: Seq<(Coord, Cell)>, c: Coord)
    ensures
        has_coord(s, c) == view_has_coord(cells_of_entries(s), c),
{
    if has_coord(s, c) {
        let i = choose|i: int| 0 <= i < s.len() && (#[trigger] s[i]).1.coord == c;
        assert(cells_of_entries(s)[i].coord == c);
    }
    if view_has_coord(cells_of_entries(s), c) {
        let i = choose|i: int|
            0 <= i < cells_of_entries(s).len() && (#[trigger] cells_of_entries(s)[i]).coord == c;
        assert(s[i].1.coord == c);
    }
}

/// The cell at index `i` still has somewhere to grow.
pub open spec fn can_grow_at(s: Seq<(Coord, Cell)>, w: usize, h: usize, i: int) -> bool {
    exists|c: Coord| candidate_ok(s, w, h, i, c)
}

/// Two entry sequences describe the same graph: same keys, coordinates and
/// link lists position by position.
pub open spec fn same_shape(s: Seq<(Coord, Cell)>, t: Seq<(Coord, Cell)>) -> bool {
    &&& s.len() == t.len()
    &&& forall|i: int|
        0 <= i < s.len() ==> (#[trigger] s[i]).0 == t[i].0 && s[i].1.coord == t[i].1.coord
            && s[i].1.n@ == t[i].1.n@
}

/// There is a cell at `a` whose link list records `b`.
pub open spec fn linked_one_way(s: Seq<(Coord, Cell)>, a: Coord, b: Coord) -> bool {
    exists|i: int| 0 <= i < s.len() && (#[trigger] s[i]).1.coord == a && s[i].1.n@.contains(b)
}

/// A passage exists between `a` and `b`: links are stored on the parent side
/// only, so passability reads both directions.
pub open spec fn passable(s: Seq<(Coord, Cell)>, a: Coord, b: Coord) -> bool {
    linked_one_way(s, a, b) || linked_one_way(s, b, a)
}

/// Passability is symmetric, even though each link is stored on one side.
pub proof fn lemma_passable_symmetric(s: Seq<(Coord, Cell)>, a: Coord, b: Coord)
    ensures
        passable(s, a, b) == passable(s, b, a),
{
}

/// Appending an entry adds that entry's links to the total.
proof fn lemma_total_links_push(s: Seq<(Coord, Cell)>, e: (Coord, Cell))
    ensures
        total_links(s.push(e)) == total_links(s) + e.1.n@.len(),
{
    assert(s.push(e).drop_last() =~= s);
    assert(s.push(e).last() == e);
}

/// Growing one entry's link list by one grows the total by one.
proof fn lemma_total_links_grow_at(s: Seq<(Coord, Cell)>, t: Seq<(Coord, Cell)>, i: int)
    requires
        0 <= i < s.len(),
        t.len() == s.len(),
        forall|j: int| 0 <= j < s.len() && j != i ==> s[j] == t[j],
        t[i].1.n@.len() == s[i].1.n@.len() + 1,
    ensures
        total_links(t) == total_links(s) + 1,
    decreases s.len(),
{
    if i == s.len() - 1 {
        assert(t.drop_last() =~= s.drop_last());
    } else {
        lemma_total_links_grow_at(s.drop_last(), t.drop_last(), i);
        assert(t.last() == s.last());
    }
}

/// The link total only depends on the shape of the entries.
proof fn lemma_total_links_same_shape(s: Seq<(Coord, Cell)>, t: Seq<(Coord, Cell)>)
    requires
        same_shape(s, t),
    ensures
        total_links(s) == total_links(t),
    decreases s.len(),
{
    if s.len() > 0 {
        assert(same_shape(s.drop_last(), t.drop_last()));
        lemma_total_links_same_shape(s.drop_last(), t.drop_last());
    }
}

/// Well-formedness carries over to an equally shaped entry sequence.
proof fn lemma_wf_same_shape(s: Seq<(Coord, Cell)>, t: Seq<(Coord, Cell)>, w: usize, h: usize)
    requires
        wf_tree(s, w, h),
        same_shape(s, t),
    ensures
        wf_tree(t, w, h),
{
    lemma_total_links_same_shape(s, t);
    assert forall|i: int| 0 <= i < t.len() implies (#[trigger] t[i]).0 == t[i].1.coord
        && t[i].1.coord.in_bounds(w, h) by {
        assert(s[i].0 == s[i].1.coord);
        assert(s[i].1.coord.in_bounds(w, h));
    }
    assert forall|i: int, j: int| 0 <= i < j < t.len() implies (#[trigger] t[i]).1.coord != (
    #[trigger] t[j]).1.coord && t[i].0 != t[j].0 by {
        assert(s[i].1.coord != s[j].1.coord);
        assert(s[i].0 != s[j].0);
    }
    assert forall|i: int, k: int, i2: int, k2: int|
        #![trigger t[i].1.n@[k], t[i2].1.n@[k2]]
        0 <= i < t.len() && 0 <= k < t[i].1.n@.len() && 0 <= i2 < t.len() && 0 <= k2
            < t[i2].1.n@.len() && (i != i2 || k != k2) implies t[i].1.n@[k] != t[i2].1.n@[k2] by {
        assert(s[i].1.n@[k] != s[i2].1.n@[k2]);
    }
    assert forall|i: int, k: int|
        0 <= i < t.len() && 0 <= k < t[i].1.n@.len() implies adjacent(
        t[i].1.coord,
        #[trigger] t[i].1.n@[k],
    ) && exists|j: int| i < j < t.len() && (#[trigger] t[j]).1.coord == t[i].1.n@[k] by {
        assert(s[i].1.n@[k] == t[i].1.n@[k]);
        let j = choose|j: int| i < j < s.len() && (#[trigger] s[j]).1.coord == s[i].1.n@[k];
        assert(t[j].1.coord == t[i].1.n@[k]);
    }
    assert forall|j: int| 1 <= j < t.len() implies exists|i: int|
        0 <= i < j && t[i].1.n@.contains((#[trigger] t[j]).1.coord) by {
        let i = choose|i: int| 0 <= i < j && (#[trigger] s[i].1.n@).contains(s[j].1.coord);
        assert(t[i].1.n@.contains(t[j].1.coord));
    }
}

/// The generator's working state: the grid size and the cells connected so
/// far, keyed by coordinate in discovery order.
pub struct Maze {
    pub width: usize,
    pub height: usize,
    pub connected: IndexMap<Coord, Cell>,
}

impl Maze {
    pub open spec fn entries(self) -> Seq<(Coord, Cell)> {
        tree_entries(self.connected)
    }

    pub open spec fn wf(self) -> bool {
        &&& 1 <= self.width
        &&& 1 <= self.height
        &&& self.width * self.height <= usize::MAX
        &&& wf_tree(self.entries(), self.width, self.height)
        &&& self.entries().len() <= self.width * self.height
        &&& self.entries()[0].1.coord == root_coord(self.width, self.height)
    }

    /// A fresh generator: only the root cell, in the middle of the grid, is
    /// connected.
    pub fn new(width: usize, height: usize) -> (m: Maze)
        requires
            1 <= width,
            1 <= height,
            width * height <= usize::MAX,
        ensures
            m.wf(),
            m.width == width,
            m.height == height,
            m.entries().len() == 1,
    {
        let root = Coord::new(width / 2, height / 2);
        let mut connected = tree_new();
        tree_insert_new(&mut connected, Cell::new(root));
        let m = Maze { width, height, connected };
        proof {
            let s = m.entries();
            assert(s.len() == 1);
            assert(s.last().1.n@.len() == 0);
            assert(total_links(s) == 0) by {
                let e = s.last();
                assert(s =~= Seq::<(Coord, Cell)>::empty().push(e));
                lemma_total_links_push(Seq::<(Coord, Cell)>::empty(), e);
                assert(total_links(Seq::<(Coord, Cell)>::empty()) == 0);
            }
            assert(root.in_bounds(width, height));
            assert(1 <= width * height) by (nonlinear_arith)
                requires
                    1 <= width,
                    1 <= height,
            ;
            assert(wf_tree(s, width, height));
        }
        m
    }

    /// The fresh in-bounds grid neighbours of the cell at position `i`:
    /// exactly the coordinates that could be attached to it next.
    fn available_candidates(&self, i: usize) -> (r: Vec<Coord>)
        requires
            i < self.entries().len(),
            keys_agree(self.entries()),
            keys_distinct(self.entries()),
        ensures
            forall|t: int|
                0 <= t < r@.len() ==> candidate_ok(
                    self.entries(),
                    self.width,
                    self.height,
                    i as int,
                    #[trigger] r@[t],
                ),
            forall|c: Coord|
                candidate_ok(self.entries(), self.width, self.height, i as int, c)
                    ==> r@.contains(c),
            r@ == view_avail(
                cells_of_entries(self.entries()),
                self.width,
                self.height,
                i as int,
            ),
    {
        let ghost s = self.entries();
        let ghost cv = cells_of_entries(s);
        let cell = tree_get_index(&self.connected, i);
        let adj = cell.get_adjacent_coords();
        let mut r: Vec<Coord> = Vec::new();
        let mut k: usize = 0;
        proof {
            assert(has_coord(s, s[i as int].1.coord));
            assert(cv[i as int].coord == s[i as int].1.coord);
            reveal(avail_upto);
            assert(r@ =~= avail_upto(cv, self.width, self.height, i as int, 0));
        }
        while k < adj.len()
            invariant
                0 <= i < s.len(),
                s == self.entries(),
                keys_agree(s),
                adj@.len() == 4,
                adj@ == seq![
                    crate::input::spec_move_target(s[i as int].1.coord, crate::input::SerKey::Left),
                    crate::input::spec_move_target(s[i as int].1.coord, crate::input::SerKey::Right),
                    crate::input::spec_move_target(s[i as int].1.coord, crate::input::SerKey::Up),
                    crate::input::spec_move_target(s[i as int].1.coord, crate::input::SerKey::Down),
                ],
                k <= adj.len(),
                forall|t: int|
                    0 <= t < r@.len() ==> candidate_ok(
                        s,
                        self.width,
                        self.height,
                        i as int,
                        #[trigger] r@[t],
                    ),
                forall|kk: int|
                    0 <= kk < k && (#[trigger] adj@[kk]).in_bounds(self.width, self.height)
                        && !has_coord(s, adj@[kk]) ==> r@.contains(adj@[kk]),
                cv == cells_of_entries(s),
                cv[i as int].coord == s[i as int].1.coord,
                r@ == avail_upto(cv, self.width, self.height, i as int, k as nat),
            decreases adj.len() - k,
        {
            let c = adj[k];
            proof {
                assert(adj@[k as int] == probe_target(cv[i as int].coord, k as int));
                lemma_has_coord_view(s, c);
            }
            let ghost r_before = r@;
            if !c.out_of_bounds(self.width, self.height) && !tree_contains(&self.connected, c) {
                proof {
                    assert(!has_coord(s, c)) by {
                        assert forall|j: int| 0 <= j < s.len() implies (#[trigger] s[j]).1.coord
                            != c by {
                            assert(s[j].0 == s[j].1.coord);
                        }
                    }
                    assert(c != s[i as int].1.coord) by {
                        assert(has_coord(s, s[i as int].1.coord));
                    }
                    crate::input::lemma_target_adjacent_unless_same(s[i as int].1.coord, c);
                }
                r.push(c);
                proof {
                    assert(r@ == r_before.push(c));
                    assert(forall|t: int| 0 <= t < r_before.len() ==> r@[t] == r_before[t]);
                    assert(r@.contains(c)) by {
                        assert(r@[r_before.len() as int] == c);
                    }
                    assert forall|x: Coord| r_before.contains(x) implies r@.contains(x) by {
                        let t = choose|t: int| 0 <= t < r_before.len() && r_before[t] == x;
                        assert(r@[t] == x);
                    }
                    assert(view_cand_ok(cv, self.width, self.height, c));
                    assert(r@ =~= r_before + seq![c]);
                    reveal(avail_upto);
                    assert(r@ =~= avail_upto(cv, self.width, self.height, i as int, (k + 1) as nat));
                }
            } else {
                proof {
                    assert(!view_cand_ok(cv, self.width, self.height, c)) by {
                        if c.in_bounds(self.width, self.height) {
                            assert(has_coord(s, c)) by {
                                if !has_key(s, c) {
                                    assert(false);
                                }
                                let j = choose|j: int| 0 <= j < s.len() && s[j].0 == c;
                                assert(s[j].1.coord == c);
                            }
                        }
                    }
                    assert(r_before + Seq::<Coord>::empty() =~= r_before);
                    reveal(avail_upto);
                    assert(r@ =~= avail_upto(cv, self.width, self.height, i as int, (k + 1) as nat));
                }
            }
            k = k + 1;
        }
        proof {
            assert forall|c: Coord|
                candidate_ok(s, self.width, self.height, i as int, c) implies r@.contains(c) by {
                crate::cell::lemma_adjacent_is_listed(s[i as int].1.coord, c);
                assert(adj@[0] == crate::input::spec_move_target(
                    s[i as int].1.coord,
                    crate::input::SerKey::Left,
                ));
                if c == adj@[0] {
                    assert(r@.contains(adj@[0]));
                } else if c == adj@[1] {
                    assert(r@.contains(adj@[1]));
                } else if c == adj@[2] {
                    assert(r@.contains(adj@[2]));
                } else {
                    assert(c == adj@[3]);
                    assert(r@.contains(adj@[3]));
                }
            }
        }
        r
    }

    /// The positions of the connected cells that still have somewhere to
    /// grow. While the tree does not yet cover the grid, this is never
    /// empty: some unvisited coordinate exists, and walking toward it from
    /// the root meets a connected cell with a fresh neighbour.
    fn eligible_members(&self) -> (r: Vec<usize>)
        requires
            self.wf(),
            self.entries().len() < self.width * self.height,
        ensures
            r@.len() > 0,
            forall|t: int|
                0 <= t < r@.len() ==> 0 <= #[trigger] r@[t] < self.entries().len() && can_grow_at(
                    self.entries(),
                    self.width,
                    self.height,
                    r@[t] as int,
                ),
            r@ == view_elig(
                cells_of_entries(self.entries()),
                self.width,
                self.height,
                self.entries().len(),
            ),
    {
        let ghost s = self.entries();
        let ghost cv = cells_of_entries(s);
        let len = tree_len(&self.connected);
        let mut r: Vec<usize> = Vec::new();
        proof {
            reveal(view_elig);
            assert(r@ =~= view_elig(cv, self.width, self.height, 0));
        }
        let mut i: usize = 0;
        while i < len
            invariant
                s == self.entries(),
                self.wf(),
                len == s.len(),
                i <= len,
                forall|t: int|
                    0 <= t < r@.len() ==> 0 <= #[trigger] r@[t] < s.len() && can_grow_at(
                        s,
                        self.width,
                        self.height,
                        r@[t] as int,
                    ),
                forall|ii: int|
                    0 <= ii < i && #[trigger] can_grow_at(s, self.width, self.height, ii)
                        ==> r@.contains(ii as usize),
                cv == cells_of_entries(s),
                r@ == view_elig(cv, self.width, self.height, i as nat),
            decreases len - i,
        {
            let avail = self.available_candidates(i);
            let ghost r_before = r@;
            if avail.len() > 0 {
                r.push(i);
                proof {
                    assert(candidate_ok(s, self.width, self.height, i as int, avail@[0]));
                    assert(forall|t: int| 0 <= t < r_before.len() ==> r@[t] == r_before[t]);
                    assert(r@.contains(i)) by {
                        assert(r@[r_before.len() as int] == i);
                    }
                    assert forall|x: usize| r_before.contains(x) implies r@.contains(x) by {
                        let t = choose|t: int| 0 <= t < r_before.len() && r_before[t] == x;
                        assert(r@[t] == x);
                    }
                    assert(view_avail(cv, self.width, self.height, i as int).len() > 0);
                    assert(r@ =~= r_before + seq![i]);
                    reveal(view_elig);
                    assert(r@ =~= view_elig(cv, self.width, self.height, (i + 1) as nat));
                }
            } else {
                proof {
                    assert(!can_grow_at(s, self.width, self.height, i as int)) by {
                        if can_grow_at(s, self.width, self.height, i as int) {
                            let c = choose|c: Coord|
                                candidate_ok(s, self.width, self.height, i as int, c);
                            assert(avail@.contains(c));
                        }
                    }
                    assert(view_avail(cv, self.width, self.height, i as int).len() == 0);
                    assert(r_before + Seq::<usize>::empty() =~= r_before);
                    reveal(view_elig);
                    assert(r@ =~= view_elig(cv, self.width, self.height, (i + 1) as nat));
                }
            }
            i = i + 1;
        }
        if r.len() == 0 {
            proof {
                crate::spanning::lemma_growth_possible(s, self.width, self.height);
                let (wi, wc): (int, Coord) = choose|wi: int, wc: Coord|
                    0 <= wi < s.len() && candidate_ok(s, self.width, self.height, wi, wc);
                assert(can_grow_at(s, self.width, self.height, wi));
                assert(r@.contains(wi as usize));
                assert(false);
            }
        }
        r
    }

    /// Attach the fresh coordinate `c` as a new cell, linked from the cell
    /// at position `i`. The new cell goes last in discovery order; nothing
    /// else moves.
    fn attach(&mut self, i: usize, c: Coord)
        requires
            old(self).wf(),
            i < old(self).entries().len(),
            old(self).entries().len() < old(self).width * old(self).height,
            candidate_ok(old(self).entries(), old(self).width, old(self).height, i as int, c),
        ensures
            final(self).wf(),
            final(self).width == old(self).width,
            final(self).height == old(self).height,
            final(self).entries().len() == old(self).entries().len() + 1,
            forall|j: int|
                0 <= j < old(self).entries().len() ==> (#[trigger] final(self).entries()[j]).1.coord
                    == old(self).entries()[j].1.coord,
            final(self).entries().last().1.coord == c,
            cells_of_entries(final(self).entries()) == attach_view(
                cells_of_entries(old(self).entries()),
                i as int,
                c,
            ),
    {
        let ghost s0 = self.entries();
        let ghost w = self.width;
        let ghost h = self.height;
        proof {
            assert(!has_key(s0, c)) by {
                if has_key(s0, c) {
                    let j = choose|j: int| 0 <= j < s0.len() && s0[j].0 == c;
                    assert(s0[j].1.coord == c);
                }
            }
        }
        tree_insert_new(&mut self.connected, Cell::new(c));
        let ghost s1 = self.entries();
        tree_push_link(&mut self.connected, i, c);
        let ghost s2 = self.entries();
        proof {
            let new_cell = s1.last().1;
            assert(s1 == s0.push((c, new_cell)));
            assert(new_cell.coord == c && new_cell.n@.len() == 0);
            let n = s0.len();
            // shape of s2: s0's entries, except entry i gained one link, plus
            // the new cell at the end.
            assert(s2.len() == n + 1);
            assert(forall|j: int| 0 <= j <= n && j != i ==> s2[j] == s1[j]);
            assert(s2[i as int].0 == s1[i as int].0);
            assert(s2[i as int].1.coord == s1[i as int].1.coord);
            assert(s2[i as int].1.n@ == s1[i as int].1.n@.push(c));
            assert(s2[n as int].1.coord == c);

            assert(keys_agree(s2));
            assert(coords_distinct(s2)) by {
                assert forall|p: int, q: int| 0 <= p < q < s2.len() implies (
                #[trigger] s2[p]).1.coord != (#[trigger] s2[q]).1.coord by {
                    if q < n {
                        assert(s2[p].1.coord == s0[p].1.coord && s2[q].1.coord == s0[q].1.coord);
                    } else {
                        assert(s2[q].1.coord == c);
                        assert(s2[p].1.coord == s0[p].1.coord);
                        assert(!has_coord(s0, c));
                    }
                }
            }
            assert(keys_distinct(s2)) by {
                assert forall|p: int, q: int| 0 <= p < q < s2.len() implies (#[trigger] s2[p]).0
                    != (#[trigger] s2[q]).0 by {
                    assert(s2[p].0 == s2[p].1.coord && s2[q].0 == s2[q].1.coord);
                }
            }
            assert(coords_in_bounds(s2, w, h));
            assert(links_ok(s2)) by {
                assert forall|p: int, k: int|
                    0 <= p < s2.len() && 0 <= k < s2[p].1.n@.len() implies adjacent(
                    s2[p].1.coord,
                    #[trigger] s2[p].1.n@[k],
                ) && exists|j: int| p < j < s2.len() && (#[trigger] s2[j]).1.coord
                    == s2[p].1.n@[k] by {
                    if p == i && k == s0[i as int].1.n@.len() {
                        // the one new link, from cell i to the new cell
                        assert(s2[p].1.n@[k] == c);
                        assert(s2[n as int].1.coord == c && p < n);
                    } else {
                        // a link that was already present in s0
                        assert(p != n ==> s2[p].1.coord == s0[p].1.coord && s2[p].1.n@[k]
                            == s0[p].1.n@[k]);
                        assert(p != n);  // the new cell has no links
                        let j = choose|j: int|
                            p < j < s0.len() && (#[trigger] s0[j]).1.coord == s0[p].1.n@[k];
                        assert(s2[j].1.coord == s0[j].1.coord);
                    }
                }
            }
            assert(has_parent(s2)) by {
                assert forall|q: int| 1 <= q < s2.len() implies exists|p: int|
                    0 <= p < q && s2[p].1.n@.contains((#[trigger] s2[q]).1.coord) by {
                    if q == n {
                        assert(s2[i as int].1.n@.last() == c);
                        assert(s2[i as int].1.n@.contains(c));
                    } else {
                        let p = choose|p: int|
                            0 <= p < q && (#[trigger] s0[p]).1.n@.contains(s0[q].1.coord);
                        assert(s2[q].1.coord == s0[q].1.coord);
                        if p == i {
                            let kk = choose|kk: int|
                                0 <= kk < s0[p].1.n@.len() && s0[p].1.n@[kk] == s0[q].1.coord;
                            assert(s2[p].1.n@[kk] == s0[q].1.coord);
                            assert(s2[p].1.n@.contains(s2[q].1.coord));
                        } else {
                            assert(s2[p].1.n@.contains(s2[q].1.coord));
                        }
                    }
                }
            }
            assert(link_targets_distinct(s2)) by {
                assert forall|p: int, k: int, p2: int, k2: int|
                    #![trigger s2[p].1.n@[k], s2[p2].1.n@[k2]]
                    0 <= p < s2.len() && 0 <= k < s2[p].1.n@.len() && 0 <= p2 < s2.len() && 0 <= k2
                        < s2[p2].1.n@.len() && (p != p2 || k != k2) implies s2[p].1.n@[k]
                    != s2[p2].1.n@[k2] by {
                    let new_p = i as int;
                    let new_k = s0[i as int].1.n@.len() as int;
                    // which of the two positions is the one new link, if any
                    if p == new_p && k == new_k {
                        assert(s2[p].1.n@[k] == c);
                        assert(p2 != n);
                        assert(s2[p2].1.n@[k2] == s0[p2].1.n@[k2]);
                        let j = choose|j: int|
                            p2 < j < s0.len() && (#[trigger] s0[j]).1.coord == s0[p2].1.n@[k2];
                        assert(has_coord(s0, s0[p2].1.n@[k2]));
                    } else if p2 == new_p && k2 == new_k {
                        assert(s2[p2].1.n@[k2] == c);
                        assert(p != n);
                        assert(s2[p].1.n@[k] == s0[p].1.n@[k]);
                        let j = choose|j: int|
                            p < j < s0.len() && (#[trigger] s0[j]).1.coord == s0[p].1.n@[k];
                        assert(has_coord(s0, s0[p].1.n@[k]));
                    } else {
                        assert(p != n && p2 != n);
                        assert(s2[p].1.n@[k] == s0[p].1.n@[k]);
                        assert(s2[p2].1.n@[k2] == s0[p2].1.n@[k2]);
                    }
                }
            }
            assert(total_links(s2) == s2.len() - 1) by {
                lemma_total_links_push(s0, (c, new_cell));
                assert(total_links(s1) == total_links(s0));
                lemma_total_links_grow_at(s1, s2, i as int);
            }
            assert(s2[0].1.coord == s0[0].1.coord);
            assert(cells_of_entries(s2) =~= attach_view(cells_of_entries(s0), i as int, c));
        }
    }

    /// Grow the maze until it spans the whole grid, then hand out a copy of
    /// the finished cell graph, keyed by coordinate in discovery order.
    pub fn generate(&mut self) -> (r: IndexMap<Coord, Cell>)
        requires
            old(self).wf(),
        ensures
            final(self).wf(),
            final(self).width == old(self).width,
            final(self).height == old(self).height,
            final(self).entries().len() == old(self).width * old(self).height,
            same_shape(tree_entries(r), final(self).entries()),
            wf_tree(tree_entries(r), old(self).width, old(self).height),
            tree_entries(r).len() == old(self).width * old(self).height,
            tree_entries(r)[0].1.coord == root_coord(old(self).width, old(self).height),
    {
        let target = self.width * self.height;
        proof {
            assert(self.width * self.height <= usize::MAX);
        }
        while tree_len(&self.connected) < target
            invariant
                self.wf(),
                self.width == old(self).width,
                self.height == old(self).height,
                target == self.width * self.height,
            decreases self.width * self.height - self.entries().len(),
        {
            let elig = self.eligible_members();
            let mi = elig[rand_below(elig.len())];
            let avail = self.available_candidates(mi);
            proof {
                let ghost wc = choose|c: Coord|
                    candidate_ok(self.entries(), self.width, self.height, mi as int, c);
                assert(avail@.contains(wc));
                assert(avail@.len() > 0);
            }
            let c = avail[rand_below(avail.len())];
            self.attach(mi, c);
        }
        let r = tree_clone(&self.connected);
        proof {
            assert(same_shape(tree_entries(r), self.entries()));
            lemma_wf_same_shape(
                self.entries(),
                tree_entries(r),
                self.width,
                self.height,
            );
        }
        r
    }

    /// Grow the maze with an explicit list of choices instead of fresh
    /// randomness: step `k` picks the eligible cell at rank
    /// `choices[k].0 % eligible` and its candidate at rank
    /// `choices[k].1 % available`. The same choices grow the same maze, so
    /// this also pins down how much randomness a full run consumes: one pair
    /// per cell beyond the root.
    #[verifier::rlimit(100)]
    pub fn generate_from(&mut self, choices: &Vec<(usize, usize)>) -> (r: IndexMap<Coord, Cell>)
        requires
            old(self).wf(),
            old(self).entries().len() + choices@.len() == old(self).width * old(self).height,
        ensures
            final(self).wf(),
            final(self).width == old(self).width,
            final(self).height == old(self).height,
            final(self).entries().len() == old(self).width * old(self).height,
            same_shape(tree_entries(r), final(self).entries()),
            wf_tree(tree_entries(r), old(self).width, old(self).height),
            tree_entries(r).len() == old(self).width * old(self).height,
            tree_entries(r)[0].1.coord == root_coord(old(self).width, old(self).height),
            cells_of_entries(final(self).entries()) == gen_model(
                cells_of_entries(old(self).entries()),
                old(self).width,
                old(self).height,
                choices@,
            ),
            cells_of_entries(tree_entries(r)) == cells_of_entries(final(self).entries()),
    {
        proof {
            assert(choices@.skip(0) =~= choices@);
        }
        let mut k: usize = 0;
        while k < choices.len()
            invariant
                self.wf(),
                self.width == old(self).width,
                self.height == old(self).height,
                k <= choices@.len(),
                self.entries().len() == old(self).entries().len() + k,
                old(self).entries().len() + choices@.len() == self.width * self.height,
                gen_model(
                    cells_of_entries(old(self).entries()),
                    self.width,
                    self.height,
                    choices@,
                ) == gen_model(
                    cells_of_entries(self.entries()),
                    self.width,
                    self.height,
                    choices@.skip(k as int),
                ),
            decreases choices@.len() - k,
        {
            let ghost cv = cells_of_entries(self.entries());
            let ghost rest = choices@.skip(k as int);
            let elig = self.eligible_members();
            let mi = elig[choices[k].0 % elig.len()];
            let avail = self.available_candidates(mi);
            proof {
                let ghost wc = choose|c: Coord|
                    candidate_ok(self.entries(), self.width, self.height, mi as int, c);
                assert(avail@.contains(wc));
                assert(avail@.len() > 0);
            }
            let c = avail[choices[k].1 % avail.len()];
            proof {
                assert(rest[0] == choices@[k as int]);
                assert(cv.len() == self.entries().len());
                assert(view_elig(cv, self.width, self.height, cv.len()) == elig@);
                lemma_gen_step_matches(
                    cv,
                    self.width,
                    self.height,
                    choices@[k as int].0,
                    choices@[k as int].1,
                    elig@,
                    avail@,
                    mi,
                    c,
                );
                lemma_gen_model_step(cv, self.width, self.height, rest);
            }
            self.attach(mi, c);
            proof {
                assert(choices@.skip(k as int).skip(1) =~= choices@.skip(k + 1));
                assert(cells_of_entries(self.entries()) == gen_step(
                    cv,
                    self.width,
                    self.height,
                    choices@[k as int].0,
                    choices@[k as int].1,
                ));
                assert(gen_model(cv, self.width, self.height, rest) == gen_model(
                    cells_of_entries(self.entries()),
                    self.width,
                    self.height,
                    choices@.skip(k + 1),
                ));
            }
            k = k + 1;
        }
        let r = tree_clone(&self.connected);
        proof {
            assert(choices@.skip(choices@.len() as int) =~= Seq::<(usize, usize)>::empty());
            reveal(gen_model);
            assert(gen_model(
                cells_of_entries(self.entries()),
                self.width,
                self.height,
                Seq::<(usize, usize)>::empty(),
            ) == cells_of_entries(self.entries()));
            assert(same_shape(tree_entries(r), self.entries()));
            lemma_wf_same_shape(
                self.entries(),
                tree_entries(r),
                self.width,
                self.height,
            );
            assert(cells_of_entries(tree_entries(r)) =~= cells_of_entries(self.entries()));
        }
        r
    }
}

} // verus!
