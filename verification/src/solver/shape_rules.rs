//! The shape rules over the components of the decided state: neighbours
//! across a cut edge of a mingle-shape puzzle, and across a gemini clue, have
//! one shape; neighbours across a delta clue have different shapes; in a
//! mismatch puzzle no two pieces share a shape.
use vstd::prelude::*;
use super::Solver;
use super::comp_tables::comp_lists_ok;
use super::components::positions;
use super::diff_clues::{area_tables_ok, comp_sealed};
use crate::grid::{lemma_div_mod_in_box, Grid};
use crate::polyomino::{self, canonical_spec, puzzle_shapes_ok, shape_of, ShapeView};
use crate::types::{EdgeClueKind, EdgeState, Shape};

verus! {

/// Component `ci` is complete: it can no longer grow, and it has reached its
/// target area when it has one. Its shape is then known.
pub open spec fn shape_known(s: &Solver, ci: int) -> bool {
    &&& !s.can_grow_buf@[ci]
    &&& match s.curr_target_area@[ci] {
        Some(t) => s.curr_comp_sz@[ci] == t,
        None => true,
    }
}

/// The canonical shape of the cells of component `ci`.
pub open spec fn comp_canon(s: &Solver, ci: int) -> ShapeView {
    canonical_spec(shape_of(positions(s.grid, s.comp_cells@[ci]@)))
}

/// The components of cut edge `e` between two existing cells, when they differ.
pub open spec fn cut_between(s: &Solver, e: int) -> Option<(int, int)> {
    let (c1, c2) = s.grid.edge_cells_of(e);
    if 0 <= e < s.grid.n_edges() && s.edges@[e] == EdgeState::Cut && s.grid.cell_exists@[c1]
        && s.grid.cell_exists@[c2] && s.curr_comp_id@[c1] != s.curr_comp_id@[c2] {
        Some((s.curr_comp_id@[c1] as int, s.curr_comp_id@[c2] as int))
    } else {
        None
    }
}

/// Across edge `e`, when it is cut between two complete components, they
/// have one shape.
pub open spec fn same_shape_across(s: &Solver, e: int) -> bool {
    match cut_between(s, e) {
        Some(p) => shape_known(s, p.0) && shape_known(s, p.1) ==> comp_canon(s, p.0) == comp_canon(s, p.1),
        None => true,
    }
}

/// Across edge `e`, when it is cut between two complete components, their
/// shapes differ.
pub open spec fn other_shape_across(s: &Solver, e: int) -> bool {
    match cut_between(s, e) {
        Some(p) => shape_known(s, p.0) && shape_known(s, p.1) ==> comp_canon(s, p.0) != comp_canon(s, p.1),
        None => true,
    }
}

/// The demand that cut edge `e` makes under a same-shape rule, when exactly
/// one of its two components can no longer grow: (that one, the other).
pub open spec fn demand_of(s: &Solver, e: int) -> Option<(int, int)> {
    match cut_between(s, e) {
        Some(p) => if comp_sealed(s, p.0) && !comp_sealed(s, p.1) {
            Some((p.0, p.1))
        } else if comp_sealed(s, p.1) && !comp_sealed(s, p.0) {
            Some((p.1, p.0))
        } else {
            None
        },
        None => None,
    }
}

/// Two demands on one growing component cannot both be met: they ask for
/// different sizes, or the first asks for a size other than its target area,
/// or, with no target area, for a size below its present one.
pub open spec fn demands_clash(s: &Solver, e1: int, e2: int) -> bool {
    match (demand_of(s, e1), demand_of(s, e2)) {
        (Some(d1), Some(d2)) => d1.1 == d2.1 && (s.curr_comp_sz@[d1.0] != s.curr_comp_sz@[d2.0] || (
        s.curr_target_area@[d1.1] matches Some(t) && t != s.curr_comp_sz@[d1.0]) || (s.curr_target_area@[d1.1] is None
            && s.curr_comp_sz@[d1.1] > s.curr_comp_sz@[d1.0])),
        _ => false,
    }
}

/// Under mismatch, growing component `ci` cannot reach target area `t` with a
/// shape left: every shape of the bank with `t` cells is the shape of a
/// complete component; with no bank, only areas up to four are looked at.
pub open spec fn no_shape_left(s: &Solver, num: int, t: int) -> bool {
    if s.puzzle.rules.shape_bank@.len() > 0 {
        forall|b: int|
            0 <= b < s.puzzle.rules.shape_bank@.len() && (#[trigger] s.puzzle.rules.shape_bank@[b]).cells@.len() == t
                ==> exists|a: int| 0 <= a < num && shape_known(s, a) && #[trigger] comp_canon(s, a) == canonical_spec(
                s.puzzle.rules.shape_bank@[b]@,
            )
    } else {
        t <= 4
    }
}

/// The shape rules fail on the components, in one of the ways that the check
/// looks at.
pub open spec fn shape_fails(s: &Solver, num: int) -> bool {
    let clues = s.puzzle.edge_clues@;
    ||| s.puzzle.rules.mingle_shape && exists|e: int| !#[trigger] same_shape_across(s, e)
    ||| s.puzzle.rules.mingle_shape && exists|e1: int, e2: int| #[trigger] demands_clash(s, e1, e2)
    ||| exists|k: int|
        0 <= k < clues.len() && (#[trigger] clues[k]).kind == EdgeClueKind::Gemini && !same_shape_across(
            s,
            clues[k].edge as int,
        )
    ||| exists|k1: int, k2: int|
        0 <= k1 < clues.len() && 0 <= k2 < clues.len() && (#[trigger] clues[k1]).kind == EdgeClueKind::Gemini
            && (#[trigger] clues[k2]).kind == EdgeClueKind::Gemini && demands_clash(
            s,
            clues[k1].edge as int,
            clues[k2].edge as int,
        )
    ||| exists|k: int|
        0 <= k < clues.len() && (#[trigger] clues[k]).kind == EdgeClueKind::Delta && !other_shape_across(
            s,
            clues[k].edge as int,
        )
    ||| s.puzzle.rules.mismatch && exists|a: int, b: int|
        0 <= a < b < num && #[trigger] shape_known(s, a) && #[trigger] shape_known(s, b) && comp_canon(s, a)
            == comp_canon(s, b)
    ||| s.puzzle.rules.mismatch && exists|ci: int|
        0 <= ci < num && !comp_sealed(s, ci) && (#[trigger] s.curr_target_area@[ci] matches Some(t) && no_shape_left(
            s,
            num,
            t as int,
        ))
}

/// What the shape rules need of the solver: component tables for `num`
/// components, and a grid whose positions fit in an `i32`.
pub open spec fn shape_ready(s: &Solver, num: int) -> bool {
    &&& comp_lists_ok(s, num)
    &&& area_tables_ok(s)
    &&& s.can_grow_buf@.len() == num
    &&& s.grid.rows < i32::MAX
    &&& s.grid.cols < i32::MAX
    &&& puzzle_shapes_ok(s.puzzle)
}

/// The canonical shape of some cells of the grid.
fn canon_of_cells(g: &Grid, cells: &Vec<usize>) -> (c: Shape)
    requires
        g.wf(),
        g.rows < i32::MAX,
        g.cols < i32::MAX,
        forall|i: int| 0 <= i < cells@.len() ==> #[trigger] cells@[i] < g.n_cells(),
    ensures
        c@ == canonical_spec(shape_of(positions(*g, cells@))),
{
    proof {
        if g.cols == 0 && cells@.len() > 0 {
            assert(g.rows * g.cols == 0) by (nonlinear_arith)
                requires
                    g.cols == 0,
            ;
            assert(cells@[0] < g.n_cells());
        }
    }
    let mut pos: Vec<(i32, i32)> = Vec::new();
    let mut k: usize = 0;
    while k < cells.len()
        invariant
            g.wf(),
            g.rows < i32::MAX,
            g.cols < i32::MAX,
            cells@.len() > 0 ==> g.cols > 0,
            k <= cells@.len(),
            forall|i: int| 0 <= i < cells@.len() ==> #[trigger] cells@[i] < g.n_cells(),
            pos@ =~= positions(*g, cells@.take(k as int)),
            forall|i: int| 0 <= i < pos@.len() ==> 0 <= #[trigger] pos@[i].0 < i32::MAX && 0 <= pos@[i].1 < i32::MAX,
        decreases cells@.len() - k,
    {
        let x = cells[k];
        proof {
            lemma_div_mod_in_box(x as int, g.rows as int, g.cols as int);
        }
        let (r, c) = g.cell_pos(x);
        pos.push((r as i32, c as i32));
        k = k + 1;
    }
    proof {
        assert(cells@.take(cells@.len() as int) =~= cells@);
        polyomino::lemma_nonneg_cells_ok(pos@);
    }
    let shape = polyomino::make_shape(&pos);
    polyomino::canonical(&shape)
}

fn shapes_have(list: &Vec<Shape>, s: &Shape) -> (r: bool)
    ensures
        r == exists|i: int| 0 <= i < list@.len() && (#[trigger] list@[i])@ == s@,
{
    let mut i: usize = 0;
    while i < list.len()
        invariant
            i <= list@.len(),
            forall|j: int| 0 <= j < i ==> (#[trigger] list@[j])@ != s@,
        decreases list@.len() - i,
    {
        if polyomino::shape_equal(&list[i], s) {
            return true;
        }
        i = i + 1;
    }
    false
}

impl Solver {
    /// The known canonical shape of each component (see `shape_known`).
    fn known_shapes(&self, num: usize) -> (r: Vec<Option<Shape>>)
        requires
            self.wf(),
            shape_ready(self, num as int),
        ensures
            r@.len() == num,
            forall|ci: int|
                0 <= ci < num ==> (#[trigger] r@[ci] is Some <==> shape_known(self, ci)),
            forall|ci: int|
                0 <= ci < num ==> (#[trigger] r@[ci] matches Some(x) ==> x@ == comp_canon(self, ci)),
    {
        let mut out: Vec<Option<Shape>> = Vec::new();
        let mut ci: usize = 0;
        while ci < num
            invariant
                self.wf(),
                shape_ready(self, num as int),
                ci <= num,
                out@.len() == ci,
                forall|i: int| 0 <= i < ci ==> (#[trigger] out@[i] is Some <==> shape_known(self, i)),
                forall|i: int| 0 <= i < ci ==> (#[trigger] out@[i] matches Some(x) ==> x@ == comp_canon(self, i)),
            decreases num - ci,
        {
            let at_limit = match self.curr_target_area[ci] {
                Some(t) => self.curr_comp_sz[ci] == t,
                None => true,
            };
            if !self.can_grow_buf[ci] && at_limit {
                let sh = canon_of_cells(&self.grid, &self.comp_cells[ci]);
                out.push(Some(sh));
            } else {
                out.push(None);
            }
            ci = ci + 1;
        }
        out
    }

    /// The components on the two sides of edge `e`, when it is cut between
    /// two existing cells of different components.
    pub(crate) fn cut_sides(&self, e: usize, num: usize) -> (r: Option<(usize, usize)>)
        requires
            self.wf(),
            self.curr_comp_id@.len() == self.grid.n_cells(),
            forall|a: int| 0 <= a < self.grid.n_cells() && self.grid.cell_exists@[a] ==> #[trigger] self.curr_comp_id@[a] < num,
            e < self.grid.n_edges(),
        ensures
            match r {
                Some(p) => cut_between(self, e as int) == Some((p.0 as int, p.1 as int)) && p.0 < num && p.1 < num,
                None => cut_between(self, e as int) is None,
            },
    {
        if self.edges[e] != EdgeState::Cut {
            return None;
        }
        let (c1, c2) = self.grid.edge_cells(e);
        if !self.grid.cell_exists[c1] || !self.grid.cell_exists[c2] {
            return None;
        }
        let ci1 = self.curr_comp_id[c1];
        let ci2 = self.curr_comp_id[c2];
        if ci1 == ci2 {
            return None;
        }
        Some((ci1, ci2))
    }

    /// The size that a growing neighbour of a complete component must end
    /// with under a same-shape rule: fails on two demands that differ, on a
    /// target area that differs, and on a neighbour already larger.
    fn demand_size(&self, req: &mut Vec<Option<usize>>, sealed_ci: usize, other_ci: usize) -> (r: Result<(), ()>)
        requires
            self.wf(),
            sealed_ci < self.curr_comp_sz@.len(),
            other_ci < self.curr_comp_sz@.len(),
            self.curr_target_area@.len() == self.curr_comp_sz@.len(),
            old(req)@.len() == self.curr_comp_sz@.len(),
        ensures
            final(req)@.len() == old(req)@.len(),
            r is Ok ==> final(req)@ == old(req)@.update(other_ci as int, Some(self.curr_comp_sz@[sealed_ci as int])),
            r is Err ==> (old(req)@[other_ci as int] matches Some(p) && p != self.curr_comp_sz@[sealed_ci as int]) || (
            self.curr_target_area@[other_ci as int] matches Some(t) && t != self.curr_comp_sz@[sealed_ci as int]) || (
            self.curr_target_area@[other_ci as int] is None && self.curr_comp_sz@[other_ci as int]
                > self.curr_comp_sz@[sealed_ci as int]),
    {
        let sealed_sz = self.curr_comp_sz[sealed_ci];
        if let Some(prev) = req[other_ci] {
            if prev != sealed_sz {
                return Err(());
            }
        }
        req.set(other_ci, Some(sealed_sz));
        if let Some(target) = self.curr_target_area[other_ci] {
            if target != sealed_sz {
                return Err(());
            }
            return Ok(());
        }
        if self.curr_comp_sz[other_ci] > sealed_sz {
            return Err(());
        }
        Ok(())
    }

    /// Checks the shape rules on the components (see the module's comment):
    /// two complete components that a rule says must share a shape have one,
    /// those that must differ differ, and a growing neighbour of a complete
    /// component under a same-shape rule can still reach its size. In a
    /// mismatch puzzle, each growing component with a target area must have
    /// some shape of that area left that no complete component has taken.
    pub fn propagate_shape_constraints(&self, num_comp: usize) -> (r: Result<(), ()>)
        requires
            self.wf(),
            shape_ready(self, num_comp as int),
        ensures
            r is Ok && self.puzzle.rules.mingle_shape ==> forall|e: int| #[trigger] same_shape_across(self, e),
            r is Ok ==> forall|k: int|
                0 <= k < self.puzzle.edge_clues@.len() && (#[trigger] self.puzzle.edge_clues@[k]).kind
                    == EdgeClueKind::Gemini ==> same_shape_across(self, self.puzzle.edge_clues@[k].edge as int),
            r is Ok ==> forall|k: int|
                0 <= k < self.puzzle.edge_clues@.len() && (#[trigger] self.puzzle.edge_clues@[k]).kind
                    == EdgeClueKind::Delta ==> other_shape_across(self, self.puzzle.edge_clues@[k].edge as int),
            r is Ok ==> forall|a: int, b: int|
                #![trigger shape_known(self, a), shape_known(self, b)]
                self.puzzle.rules.mismatch && 0 <= a < b < num_comp && shape_known(self, a) && shape_known(self, b)
                    ==> comp_canon(self, a) != comp_canon(self, b),
            r is Err ==> shape_fails(self, num_comp as int),
    {
        let num = num_comp;
        let ne = self.grid.num_edges();
        let nclues = self.puzzle.edge_clues.len();
        let mut has_gemini = false;
        let mut has_delta = false;
        let mut k: usize = 0;
        while k < nclues
            invariant
                k <= nclues,
                nclues == self.puzzle.edge_clues@.len(),
                has_gemini <==> exists|j: int| 0 <= j < k && (#[trigger] self.puzzle.edge_clues@[j]).kind == EdgeClueKind::Gemini,
                has_delta <==> exists|j: int| 0 <= j < k && (#[trigger] self.puzzle.edge_clues@[j]).kind == EdgeClueKind::Delta,
            decreases nclues - k,
        {
            match self.puzzle.edge_clues[k].kind {
                EdgeClueKind::Gemini => {
                    has_gemini = true;
                },
                EdgeClueKind::Delta => {
                    has_delta = true;
                },
                _ => {},
            }
            k = k + 1;
        }
        let has_mingle = self.puzzle.rules.mingle_shape;
        let has_mismatch = self.puzzle.rules.mismatch;
        if !(has_mingle || has_gemini || has_delta || has_mismatch) {
            return Ok(());
        }
        let shapes = self.known_shapes(num);
        // Mingle shape: pieces across a cut edge have one shape.
        if has_mingle {
            let mut req: Vec<Option<usize>> = Vec::new();
            let mut z: usize = 0;
            while z < num
                invariant
                    z <= num,
                    req@.len() == z,
                    forall|i: int| 0 <= i < z ==> #[trigger] req@[i] is None,
                decreases num - z,
            {
                req.push(None);
                z = z + 1;
            }
            let mut e: usize = 0;
            while e < ne
                invariant
                    self.wf(),
                    shape_ready(self, num as int),
                    ne == self.grid.n_edges(),
                    e <= ne,
                    req@.len() == num,
                    shapes@.len() == num,
                    forall|ci: int| 0 <= ci < num ==> (#[trigger] shapes@[ci] is Some <==> shape_known(self, ci)),
                    forall|ci: int| 0 <= ci < num ==> (#[trigger] shapes@[ci] matches Some(x) ==> x@ == comp_canon(self, ci)),
                    forall|x: int| 0 <= x < e ==> #[trigger] same_shape_across(self, x),
                    self.puzzle.rules.mingle_shape,
                    forall|o: int|
                        0 <= o < num && (#[trigger] req@[o] is Some) ==> exists|w: int|
                            0 <= w < e && (#[trigger] demand_of(self, w) matches Some(d) && d.1 == o
                                && self.curr_comp_sz@[d.0] == req@[o]->0),
                decreases ne - e,
            {
                if let Some((ci1, ci2)) = self.cut_sides(e, num) {
                    if let (Some(s1), Some(s2)) = (&shapes[ci1], &shapes[ci2]) {
                        if !polyomino::shape_equal(s1, s2) {
                            proof {
                                assert(!same_shape_across(self, e as int));
                            }
                            return Err(());
                        }
                    }
                    let sealed1 = self.is_sealed(ci1);
                    let sealed2 = self.is_sealed(ci2);
                    if sealed1 != sealed2 {
                        let (sc, oc) = if sealed1 {
                            (ci1, ci2)
                        } else {
                            (ci2, ci1)
                        };
                        let ghost req0 = req@;
                        proof {
                            assert(demand_of(self, e as int) == Some((sc as int, oc as int)));
                        }
                        match self.demand_size(&mut req, sc, oc) {
                            Err(()) => {
                                proof {
                                    if req0[oc as int] matches Some(p) && p != self.curr_comp_sz@[sc as int] {
                                        let w = choose|w: int|
                                            0 <= w < e && (#[trigger] demand_of(self, w) matches Some(d) && d.1 == oc
                                                && self.curr_comp_sz@[d.0] == req0[oc as int]->0);
                                        assert(demands_clash(self, w, e as int));
                                    } else {
                                        assert(demands_clash(self, e as int, e as int));
                                    }
                                }
                                return Err(());
                            },
                            Ok(()) => {
                                proof {
                                    assert forall|o: int|
                                        0 <= o < num && (#[trigger] req@[o] is Some) implies exists|w: int|
                                            0 <= w < e + 1 && (#[trigger] demand_of(self, w) matches Some(d) && d.1 == o
                                                && self.curr_comp_sz@[d.0] == req@[o]->0) by {
                                        if o == oc {
                                            assert(demand_of(self, e as int) == Some((sc as int, oc as int)));
                                        } else {
                                            assert(req@[o] == req0[o]);
                                            let w = choose|w: int|
                                                0 <= w < e && (#[trigger] demand_of(self, w) matches Some(d) && d.1 == o
                                                    && self.curr_comp_sz@[d.0] == req0[o]->0);
                                            assert(demand_of(self, w) matches Some(d) && d.1 == o);
                                        }
                                    }
                                }
                            },
                        }
                    }
                }
                e = e + 1;
            }
        }
        // Gemini clues: the two pieces have one shape.
        if has_gemini {
            let mut req: Vec<Option<usize>> = Vec::new();
            let mut z: usize = 0;
            while z < num
                invariant
                    z <= num,
                    req@.len() == z,
                    forall|i: int| 0 <= i < z ==> #[trigger] req@[i] is None,
                decreases num - z,
            {
                req.push(None);
                z = z + 1;
            }
            let mut k: usize = 0;
            while k < nclues
                invariant
                    self.wf(),
                    shape_ready(self, num as int),
                    nclues == self.puzzle.edge_clues@.len(),
                    k <= nclues,
                    req@.len() == num,
                    shapes@.len() == num,
                    forall|ci: int| 0 <= ci < num ==> (#[trigger] shapes@[ci] is Some <==> shape_known(self, ci)),
                    forall|ci: int| 0 <= ci < num ==> (#[trigger] shapes@[ci] matches Some(x) ==> x@ == comp_canon(self, ci)),
                    forall|j: int|
                        0 <= j < k && (#[trigger] self.puzzle.edge_clues@[j]).kind == EdgeClueKind::Gemini
                            ==> same_shape_across(self, self.puzzle.edge_clues@[j].edge as int),
                    forall|o: int|
                        0 <= o < num && (#[trigger] req@[o] is Some) ==> exists|w: int|
                            0 <= w < k && (#[trigger] self.puzzle.edge_clues@[w]).kind == EdgeClueKind::Gemini && (
                            demand_of(self, self.puzzle.edge_clues@[w].edge as int) matches Some(d) && d.1 == o
                                && self.curr_comp_sz@[d.0] == req@[o]->0),
                decreases nclues - k,
            {
                let clue = &self.puzzle.edge_clues[k];
                if let EdgeClueKind::Gemini = clue.kind {
                    let ghost ek = clue.edge as int;
                    proof {
                        assert(self.puzzle.edge_clues@[k as int].kind == EdgeClueKind::Gemini);
                    }
                    if let Some((ci1, ci2)) = self.cut_sides(clue.edge, num) {
                        let sealed1 = self.is_sealed(ci1);
                        let sealed2 = self.is_sealed(ci2);
                        if sealed1 && sealed2 {
                            if let (Some(s1), Some(s2)) = (&shapes[ci1], &shapes[ci2]) {
                                if !polyomino::shape_equal(s1, s2) {
                                    proof {
                                        assert(!same_shape_across(self, ek));
                                    }
                                    return Err(());
                                }
                            }
                        } else if sealed1 || sealed2 {
                            let (sc, oc) = if sealed1 {
                                (ci1, ci2)
                            } else {
                                (ci2, ci1)
                            };
                            let ghost req0 = req@;
                            proof {
                                assert(demand_of(self, ek) == Some((sc as int, oc as int)));
                            }
                            match self.demand_size(&mut req, sc, oc) {
                                Err(()) => {
                                    proof {
                                        if req0[oc as int] matches Some(p) && p != self.curr_comp_sz@[sc as int] {
                                            let w = choose|w: int|
                                                0 <= w < k && (#[trigger] self.puzzle.edge_clues@[w]).kind
                                                    == EdgeClueKind::Gemini && (demand_of(
                                                    self,
                                                    self.puzzle.edge_clues@[w].edge as int,
                                                ) matches Some(d) && d.1 == oc && self.curr_comp_sz@[d.0]
                                                    == req0[oc as int]->0);
                                            assert(demands_clash(self, self.puzzle.edge_clues@[w].edge as int, ek));
                                            assert(shape_fails(self, num as int));
                                        } else {
                                            assert(demands_clash(self, ek, ek));
                                            assert(shape_fails(self, num as int));
                                        }
                                    }
                                    return Err(());
                                },
                                Ok(()) => {
                                    proof {
                                        assert forall|o: int|
                                            0 <= o < num && (#[trigger] req@[o] is Some) implies exists|w: int|
                                                0 <= w < k + 1 && (#[trigger] self.puzzle.edge_clues@[w]).kind
                                                    == EdgeClueKind::Gemini && (demand_of(
                                                    self,
                                                    self.puzzle.edge_clues@[w].edge as int,
                                                ) matches Some(d) && d.1 == o && self.curr_comp_sz@[d.0] == req@[o]->0) by {
                                            if o == oc {
                                                assert(self.puzzle.edge_clues@[k as int].kind == EdgeClueKind::Gemini);
                                            } else {
                                                assert(req@[o] == req0[o]);
                                                let w = choose|w: int|
                                                    0 <= w < k && (#[trigger] self.puzzle.edge_clues@[w]).kind
                                                        == EdgeClueKind::Gemini && (demand_of(
                                                        self,
                                                        self.puzzle.edge_clues@[w].edge as int,
                                                    ) matches Some(d) && d.1 == o && self.curr_comp_sz@[d.0] == req0[o]->0);
                                                assert(self.puzzle.edge_clues@[w].kind == EdgeClueKind::Gemini);
                                            }
                                        }
                                    }
                                },
                            }
                        }
                    }
                }
                k = k + 1;
            }
        }
        // Delta clues: the two pieces have different shapes.
        if has_delta {
            let mut k: usize = 0;
            while k < nclues
                invariant
                    self.wf(),
                    shape_ready(self, num as int),
                    nclues == self.puzzle.edge_clues@.len(),
                    k <= nclues,
                    shapes@.len() == num,
                    forall|ci: int| 0 <= ci < num ==> (#[trigger] shapes@[ci] is Some <==> shape_known(self, ci)),
                    forall|ci: int| 0 <= ci < num ==> (#[trigger] shapes@[ci] matches Some(x) ==> x@ == comp_canon(self, ci)),
                    forall|j: int|
                        0 <= j < k && (#[trigger] self.puzzle.edge_clues@[j]).kind == EdgeClueKind::Delta
                            ==> other_shape_across(self, self.puzzle.edge_clues@[j].edge as int),
                decreases nclues - k,
            {
                let clue = &self.puzzle.edge_clues[k];
                if let EdgeClueKind::Delta = clue.kind {
                    if let Some((ci1, ci2)) = self.cut_sides(clue.edge, num) {
                        if let (Some(s1), Some(s2)) = (&shapes[ci1], &shapes[ci2]) {
                            if polyomino::shape_equal(s1, s2) {
                                proof {
                                    assert(self.puzzle.edge_clues@[k as int].kind == EdgeClueKind::Delta);
                                    assert(!other_shape_across(self, clue.edge as int));
                                    assert(shape_fails(self, num as int));
                                }
                                return Err(());
                            }
                        }
                    }
                }
                k = k + 1;
            }
        }
        // Mismatch: no two pieces share a shape.
        if has_mismatch {
            let mut taken: Vec<Shape> = Vec::new();
            let ghost mut owner: Seq<int> = Seq::empty();
            let mut ci: usize = 0;
            while ci < num
                invariant
                    self.wf(),
                    shape_ready(self, num as int),
                    ci <= num,
                    shapes@.len() == num,
                    forall|c: int| 0 <= c < num ==> (#[trigger] shapes@[c] is Some <==> shape_known(self, c)),
                    forall|c: int| 0 <= c < num ==> (#[trigger] shapes@[c] matches Some(x) ==> x@ == comp_canon(self, c)),
                    self.puzzle.rules.mismatch,
                    num == num_comp,
                    owner.len() == taken@.len(),
                    forall|q: int| 0 <= q < taken@.len() ==> 0 <= #[trigger] owner[q] < ci && shape_known(self, owner[q])
                        && taken@[q]@ == comp_canon(self, owner[q]),
                    forall|c: int| 0 <= c < ci && shape_known(self, c) ==> exists|q: int| 0 <= q < taken@.len() && #[trigger] owner[q] == c,
                    forall|a: int, b: int|
                        #![trigger shape_known(self, a), shape_known(self, b)]
                        0 <= a < b < ci && shape_known(self, a) && shape_known(self, b) ==> comp_canon(self, a)
                            != comp_canon(self, b),
                decreases num - ci,
            {
                if let Some(sh) = &shapes[ci] {
                    if shapes_have(&taken, sh) {
                        proof {
                            let q = choose|q: int| 0 <= q < taken@.len() && (#[trigger] taken@[q])@ == sh@;
                            let a = owner[q];
                            assert(shape_known(self, a) && shape_known(self, ci as int));
                            assert(comp_canon(self, a) == comp_canon(self, ci as int));
                            assert(shape_fails(self, num as int));
                        }
                        return Err(());
                    }
                    let ghost owner0 = owner;
                    let ghost taken0 = taken@;
                    proof {
                        assert forall|a: int| 0 <= a < ci && shape_known(self, a) implies comp_canon(self, a)
                            != comp_canon(self, ci as int) by {
                            let q = choose|q: int| 0 <= q < taken@.len() && #[trigger] owner[q] == a;
                            assert(taken@[q]@ != sh@);
                        }
                        owner = owner.push(ci as int);
                    }
                    taken.push(polyomino::copy_shape(sh));
                    proof {
                        assert(taken@[taken0.len() as int]@ == sh@);
                        assert forall|q: int| 0 <= q < taken@.len() implies 0 <= #[trigger] owner[q] < ci + 1 && shape_known(
                            self,
                            owner[q],
                        ) && taken@[q]@ == comp_canon(self, owner[q]) by {
                            if q < taken0.len() {
                                assert(owner[q] == owner0[q]);
                                assert(taken@[q] == taken0[q]);
                            }
                        }
                        assert forall|c: int| 0 <= c < ci + 1 && shape_known(self, c) implies exists|q: int|
                            0 <= q < taken@.len() && #[trigger] owner[q] == c by {
                            if c == ci {
                                assert(owner[taken0.len() as int] == c);
                            } else {
                                let q = choose|q: int| 0 <= q < taken0.len() && #[trigger] owner0[q] == c;
                                assert(owner[q] == c);
                            }
                        }
                    }
                }
                ci = ci + 1;
            }
            // Growing components with a target area need a shape that is not taken.
            let mut ci: usize = 0;
            while ci < num
                invariant
                    self.wf(),
                    shape_ready(self, num as int),
                    ci <= num,
                    self.puzzle.rules.mismatch,
                    num == num_comp,
                    owner.len() == taken@.len(),
                    forall|q: int| 0 <= q < taken@.len() ==> 0 <= #[trigger] owner[q] < num && shape_known(self, owner[q])
                        && taken@[q]@ == comp_canon(self, owner[q]),
                decreases num - ci,
            {
                if !self.is_sealed(ci) {
                    if let Some(target) = self.curr_target_area[ci] {
                        let mut any_available = false;
                        let nb = self.puzzle.rules.shape_bank.len();
                        if nb > 0 {
                            let mut b: usize = 0;
                            while b < nb && !any_available
                                invariant
                                    self.wf(),
                                    shape_ready(self, num as int),
                                    nb == self.puzzle.rules.shape_bank@.len(),
                                    b <= nb,
                                    owner.len() == taken@.len(),
                                    forall|q: int| 0 <= q < taken@.len() ==> 0 <= #[trigger] owner[q] < num && shape_known(
                                        self,
                                        owner[q],
                                    ) && taken@[q]@ == comp_canon(self, owner[q]),
                                    !any_available ==> forall|x: int|
                                        0 <= x < b && (#[trigger] self.puzzle.rules.shape_bank@[x]).cells@.len() == target
                                            ==> exists|a: int| 0 <= a < num && shape_known(self, a) && #[trigger] comp_canon(
                                            self,
                                            a,
                                        ) == canonical_spec(self.puzzle.rules.shape_bank@[x]@),
                                decreases nb - b,
                            {
                                let bs = &self.puzzle.rules.shape_bank[b];
                                if bs.cells.len() == target {
                                    proof {
                                        assert(polyomino::shape_ok(self.puzzle.rules.shape_bank@[b as int]));
                                    }
                                    let bc = polyomino::canonical(bs);
                                    if !shapes_have(&taken, &bc) {
                                        any_available = true;
                                    } else {
                                        proof {
                                            let q = choose|q: int| 0 <= q < taken@.len() && (#[trigger] taken@[q])@ == bc@;
                                            let a = owner[q];
                                            assert(comp_canon(self, a) == canonical_spec(
                                                self.puzzle.rules.shape_bank@[b as int]@,
                                            ));
                                        }
                                    }
                                }
                                b = b + 1;
                            }
                        } else if target <= 4 {
                            let all = polyomino::enumerate_free_polyominoes(target);
                            let mut q: usize = 0;
                            while q < all.len()
                                invariant
                                    q <= all@.len(),
                                decreases all@.len() - q,
                            {
                                if !shapes_have(&taken, &all[q]) {
                                    any_available = true;
                                }
                                q = q + 1;
                            }
                        } else {
                            any_available = true;
                        }
                        if !any_available {
                            proof {
                                assert(no_shape_left(self, num as int, target as int));
                                assert(shape_fails(self, num as int));
                            }
                            return Err(());
                        }
                    }
                }
                ci = ci + 1;
            }
        }
        Ok(())
    }
}

} // verus!
