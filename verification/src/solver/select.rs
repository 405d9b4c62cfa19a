//! Choosing the undecided edge that the edge search branches on: the first
//! one while no components are known, else the best-scored edge between two
//! existing cells, by how much deciding it is likely to settle.
use vstd::prelude::*;
use super::Solver;
use super::diff_clues::area_tables_ok;
use super::validation::both_exist;
use crate::types::{CellClue, EdgeId, EdgeState};

verus! {

/// Edge `e` can be branched on: it is undecided and lies between two existing cells.
pub open spec fn candidate_edge(s: &Solver, e: int) -> bool {
    &&& 0 <= e < s.grid.n_edges()
    &&& s.edges@[e] == EdgeState::Unknown
    &&& both_exist(s.grid, e)
}

/// The tables that the scoring reads are in step with the components.
pub open spec fn select_ready(s: &Solver) -> bool {
    let k = s.curr_comp_sz@.len();
    &&& area_tables_ok(s)
    &&& s.comp_cells@.len() == k
    &&& forall|i: int, j: int|
        0 <= i < k && 0 <= j < s.comp_cells@[i]@.len() ==> #[trigger] s.comp_cells@[i]@[j] < s.grid.n_cells()
    &&& forall|i: int| 0 <= i < k ==> #[trigger] s.curr_comp_sz@[i] <= s.grid.n_cells()
    &&& s.cell_rose_sym@.len() == s.grid.n_cells()
    &&& (s.compass_adjacent@.len() == 0 || s.compass_adjacent@.len() == s.grid.n_cells())
    &&& forall|i: int| 0 <= i < s.clue_cut_edges@.len() ==> #[trigger] s.clue_cut_edges@[i] < s.grid.n_edges()
}

fn vec_has(v: &Vec<usize>, x: usize) -> (r: bool)
    ensures
        r == v@.contains(x),
{
    let mut i: usize = 0;
    while i < v.len()
        invariant
            i <= v@.len(),
            forall|j: int| 0 <= j < i ==> v@[j] != x,
        decreases v@.len() - i,
    {
        if v[i] == x {
            proof {
                assert(v@[i as int] == x);
            }
            return true;
        }
        i = i + 1;
    }
    false
}

/// A compass direction whose count already equals its clue value.
fn at_limit(val: Option<usize>, cnt: usize) -> (r: bool)
    ensures
        r == (val == Some(cnt)),
{
    match val {
        Some(v) => cnt == v,
        None => false,
    }
}

fn falses(n: usize) -> (v: Vec<bool>)
    ensures
        v@.len() == n,
        forall|i: int| 0 <= i < n ==> !#[trigger] v@[i],
{
    let mut v: Vec<bool> = Vec::new();
    let mut i: usize = 0;
    while i < n
        invariant
            i <= n,
            v@.len() == i,
            forall|j: int| 0 <= j < i ==> !#[trigger] v@[j],
        decreases n - i,
    {
        v.push(false);
        i = i + 1;
    }
    v
}

/// Which side to try first on edge `e`: cut, unless leaving it uncut is
/// likely to settle more (see `prefer_cut_first`).
pub open spec fn cut_first(s: &Solver, e: int) -> bool {
    let (c1, c2) = s.grid.edge_cells_of(e);
    if s.curr_comp_id@.len() == 0 || !s.grid.cell_exists@[c1] || !s.grid.cell_exists@[c2] {
        true
    } else {
        let ci1 = s.curr_comp_id@[c1] as int;
        let ci2 = s.curr_comp_id@[c2] as int;
        let sz1 = s.curr_comp_sz@[ci1];
        let sz2 = s.curr_comp_sz@[ci2];
        let conflict = s.puzzle.rules.size_separation && match s.sealed_neighbor_sizes {
            Some(sns) => ci1 < sns@.len() && ci2 < sns@.len() && (sns@[ci1]@.contains((sz1 + sz2) as usize)
                || sns@[ci2]@.contains((sz1 + sz2) as usize)),
            None => false,
        };
        if conflict {
            true
        } else if sz1 == sz2 && s.curr_target_area@[ci1] is None && s.curr_target_area@[ci2] is None
            && s.puzzle.rules.size_separation {
            false
        } else if (s.curr_target_area@[ci1] matches Some(t) && sz1 < t) {
            false
        } else if (s.curr_target_area@[ci2] matches Some(t) && sz2 < t) {
            false
        } else {
            true
        }
    }
}

impl Solver {
    /// Component `ci` can still grow.
    pub fn is_growing(&self, ci: usize) -> (r: bool)
        ensures
            r == (ci < self.can_grow_buf@.len() && self.can_grow_buf@[ci as int]),
    {
        ci < self.can_grow_buf.len() && self.can_grow_buf[ci]
    }

    /// The components below `num_comp` that can no longer grow, in order.
    pub fn sealed(&self, num_comp: usize) -> (r: Vec<usize>)
        ensures
            forall|i: int| 0 <= i < r@.len() ==> #[trigger] r@[i] < num_comp,
            forall|ci: usize| #[trigger] r@.contains(ci) <==> ci < num_comp && super::diff_clues::comp_sealed(self, ci as int),
            forall|i: int, j: int| 0 <= i < j < r@.len() ==> #[trigger] r@[i] < #[trigger] r@[j],
    {
        let mut out: Vec<usize> = Vec::new();
        let mut ci: usize = 0;
        while ci < num_comp
            invariant
                ci <= num_comp,
                forall|i: int| 0 <= i < out@.len() ==> #[trigger] out@[i] < ci,
                forall|x: usize| #[trigger] out@.contains(x) <==> x < ci && super::diff_clues::comp_sealed(self, x as int),
                forall|i: int, j: int| 0 <= i < j < out@.len() ==> #[trigger] out@[i] < #[trigger] out@[j],
            decreases num_comp - ci,
        {
            let ghost o0 = out@;
            if self.is_sealed(ci) {
                out.push(ci);
                proof {
                    assert forall|x: usize| #[trigger] out@.contains(x) <==> x < ci + 1 && super::diff_clues::comp_sealed(self, x as int) by {
                        if x == ci {
                            assert(out@[o0.len() as int] == ci);
                        }
                        if o0.contains(x) {
                            let k = choose|k: int| 0 <= k < o0.len() && o0[k] == x;
                            assert(out@[k] == x);
                        }
                        if out@.contains(x) {
                            let k = choose|k: int| 0 <= k < out@.len() && out@[k] == x;
                            if k < o0.len() {
                                assert(o0[k] == x);
                            }
                        }
                    }
                }
            }
            ci = ci + 1;
        }
        out
    }

    /// Whether to try cutting edge `e` first when branching on it.
    pub fn prefer_cut_first(&self, e: EdgeId) -> (r: bool)
        requires
            self.wf(),
            e < self.grid.n_edges(),
            self.curr_comp_id@.len() > 0 ==> select_ready(self),
        ensures
            r == cut_first(self, e as int),
    {
        if self.curr_comp_id.len() == 0 {
            return true;
        }
        let (c1, c2) = self.grid.edge_cells(e);
        if !self.grid.cell_exists[c1] || !self.grid.cell_exists[c2] {
            return true;
        }
        proof {
            self.grid.lemma_sizes();
            assert(self.grid.rows * self.grid.cols <= (self.grid.rows + 1) * (self.grid.cols + 1))
                by (nonlinear_arith);
        }
        let ci1 = self.curr_comp_id[c1];
        let ci2 = self.curr_comp_id[c2];
        let sz1 = self.curr_comp_sz[ci1];
        let sz2 = self.curr_comp_sz[ci2];
        if self.puzzle.rules.size_separation {
            match &self.sealed_neighbor_sizes {
                Some(sns) => {
                    if ci1 < sns.len() && ci2 < sns.len() {
                        let merged = sz1 + sz2;
                        if vec_has(&sns[ci1], merged) || vec_has(&sns[ci2], merged) {
                            return true;
                        }
                    }
                },
                None => {},
            }
        }
        if sz1 == sz2 && self.curr_target_area[ci1].is_none() && self.curr_target_area[ci2].is_none()
            && self.puzzle.rules.size_separation {
            return false;
        }
        if let Some(target) = self.curr_target_area[ci1] {
            if sz1 < target {
                return false;
            }
        }
        if let Some(target) = self.curr_target_area[ci2] {
            if sz2 < target {
                return false;
            }
        }
        true
    }

    /// The number of cut edges at grid point (i, j).
    fn cut_degree(&self, i: usize, j: usize) -> (d: usize)
        requires
            self.wf(),
            i <= self.grid.rows,
            j <= self.grid.cols,
        ensures
            d <= 4,
    {
        let ve = self.grid.vertex_edges(i, j);
        let mut d: usize = 0;
        if let Some(x) = ve.horiz.0 {
            if self.edges[x] == EdgeState::Cut {
                d = d + 1;
            }
        }
        if let Some(x) = ve.horiz.1 {
            if self.edges[x] == EdgeState::Cut {
                d = d + 1;
            }
        }
        if let Some(x) = ve.vert.0 {
            if self.edges[x] == EdgeState::Cut {
                d = d + 1;
            }
        }
        if let Some(x) = ve.vert.1 {
            if self.edges[x] == EdgeState::Cut {
                d = d + 1;
            }
        }
        d
    }

    /// Per component: whether a cut edge that carries an edge clue touches it.
    fn clue_constrained_comps(&self, num_comp: usize) -> (r: Vec<bool>)
        requires
            self.wf(),
            select_ready(self),
            num_comp == self.curr_comp_sz@.len(),
        ensures
            r@.len() == num_comp,
    {
        let mut ccc = falses(num_comp);
        let mut i: usize = 0;
        while i < self.clue_cut_edges.len()
            invariant
                self.wf(),
                select_ready(self),
                num_comp == self.curr_comp_sz@.len(),
                ccc@.len() == num_comp,
                i <= self.clue_cut_edges@.len(),
            decreases self.clue_cut_edges@.len() - i,
        {
            let ce = self.clue_cut_edges[i];
            i = i + 1;
            if self.edges[ce] != EdgeState::Cut {
                continue;
            }
            let (c1, c2) = self.grid.edge_cells(ce);
            if !self.grid.cell_exists[c1] || !self.grid.cell_exists[c2] {
                continue;
            }
            let ci1 = self.curr_comp_id[c1];
            let ci2 = self.curr_comp_id[c2];
            if ci1 < num_comp {
                ccc.set(ci1, true);
            }
            if ci2 < num_comp {
                ccc.set(ci2, true);
            }
        }
        ccc
    }

    /// Per component: how many compass clues it holds, and whether one of
    /// their directions already counts as many cells as its value.
    fn compass_comps(&self, num_comp: usize) -> (r: (Vec<usize>, Vec<bool>))
        requires
            self.wf(),
            select_ready(self),
            num_comp == self.curr_comp_sz@.len(),
        ensures
            r.0@.len() == num_comp,
            r.1@.len() == num_comp,
    {
        let mut cc: Vec<usize> = Vec::new();
        let mut z: usize = 0;
        while z < num_comp
            invariant
                z <= num_comp,
                cc@.len() == z,
                forall|i: int| 0 <= i < z ==> #[trigger] cc@[i] == 0,
            decreases num_comp - z,
        {
            cc.push(0);
            z = z + 1;
        }
        let mut dal = falses(num_comp);
        let nclues = self.puzzle.cell_clues.len();
        let mut k: usize = 0;
        while k < nclues
            invariant
                self.wf(),
                select_ready(self),
                num_comp == self.curr_comp_sz@.len(),
                nclues == self.puzzle.cell_clues@.len(),
                cc@.len() == num_comp,
                dal@.len() == num_comp,
                k <= nclues,
                forall|i: int| 0 <= i < num_comp ==> #[trigger] cc@[i] <= k,
            decreases nclues - k,
        {
            match &self.puzzle.cell_clues[k] {
                CellClue::Compass { cell, compass } => {
                    let cell = *cell;
                    proof {
                        assert(self.puzzle.cell_clues@[k as int].spec_cell() < self.grid.n_cells());
                    }
                    let ci = self.curr_comp_id[cell];
                    if ci != usize::MAX && ci < num_comp {
                        cc.set(ci, cc[ci] + 1);
                        let (cr, ccol) = self.grid.cell_pos(cell);
                        let cells = &self.comp_cells[ci];
                        let mut n_cnt: usize = 0;
                        let mut s_cnt: usize = 0;
                        let mut e_cnt: usize = 0;
                        let mut w_cnt: usize = 0;
                        let mut t: usize = 0;
                        while t < cells.len()
                            invariant
                                self.wf(),
                                select_ready(self),
                                ci < num_comp,
                                self.grid.cols > 0,
                                num_comp == self.curr_comp_sz@.len(),
                                cells == &self.comp_cells@[ci as int],
                                t <= cells@.len(),
                                n_cnt <= t,
                                s_cnt <= t,
                                e_cnt <= t,
                                w_cnt <= t,
                            decreases cells@.len() - t,
                        {
                            proof {
                                assert(self.comp_cells@[ci as int]@[t as int] < self.grid.n_cells());
                            }
                            let (pr, pc) = self.grid.cell_pos(cells[t]);
                            if pr < cr {
                                n_cnt = n_cnt + 1;
                            }
                            if pr > cr {
                                s_cnt = s_cnt + 1;
                            }
                            if pc > ccol {
                                e_cnt = e_cnt + 1;
                            }
                            if pc < ccol {
                                w_cnt = w_cnt + 1;
                            }
                            t = t + 1;
                        }
                        if at_limit(compass.n, n_cnt) || at_limit(compass.s, s_cnt) || at_limit(compass.e, e_cnt)
                            || at_limit(compass.w, w_cnt) {
                            dal.set(ci, true);
                        }
                    }
                },
                _ => {},
            }
            k = k + 1;
        }
        (cc, dal)
    }

    /// Whether one of the two grid points that the edge choice looks at for
    /// edge `e` is the end of a cut path (exactly one cut edge there).
    fn at_path_end(&self, e: EdgeId) -> (r: bool)
        requires
            self.wf(),
            e < self.grid.n_edges(),
    {
        let (is_h, r, c) = self.grid.decode_edge(e);
        if self.cut_degree(r, c) == 1 {
            return true;
        }
        if is_h {
            self.cut_degree(r + 1, c) == 1
        } else {
            self.cut_degree(r, c + 1) == 1
        }
    }

    /// Whether edge `e` touches a grid point with a watchtower clue (of the
    /// two points that the edge choice looks at).
    fn near_watchtower(&self, e: EdgeId) -> (r: bool)
        requires
            self.wf(),
            e < self.grid.n_edges(),
    {
        let (is_h, r, c) = self.grid.decode_edge(e);
        let v1 = self.grid.vertex(r, c);
        let v2 = if is_h {
            self.grid.vertex(r + 1, c)
        } else {
            self.grid.vertex(r, c + 1)
        };
        vec_has(&self.watchtower_vertices, v1) || vec_has(&self.watchtower_vertices, v2)
    }

    /// The part of an edge's score that comes from the areas of the two
    /// components it joins.
    fn area_score(&self, e: EdgeId) -> (score: i32)
        requires
            self.wf(),
            select_ready(self),
            candidate_edge(self, e as int),
        ensures
            0 <= score <= 400,
    {
        let (c1, c2) = self.grid.edge_cells(e);
        let mut score: i32 = 0;
        let ci1 = self.curr_comp_id[c1];
        let sz1 = self.curr_comp_sz[ci1];
        match self.curr_target_area[ci1] {
            Some(target) => {
                score = score + if sz1 < target {
                    100
                } else {
                    1
                };
            },
            None => {
                score = score + 10;
            },
        }
        let ci2 = self.curr_comp_id[c2];
        let sz2 = self.curr_comp_sz[ci2];
        match self.curr_target_area[ci2] {
            Some(target) => {
                score = score + if sz2 < target {
                    100
                } else {
                    1
                };
            },
            None => {
                score = score + 10;
            },
        }
        let sealed1 = self.is_sealed(ci1);
        let sealed2 = self.is_sealed(ci2);
        // Cutting would seal a component that has a target area.
        if ci1 < self.growth_edge_count.len() && self.growth_edge_count[ci1] == 1
            && self.curr_target_area[ci1].is_some() {
            score = score + 75;
        }
        if ci2 < self.growth_edge_count.len() && self.growth_edge_count[ci2] == 1
            && self.curr_target_area[ci2].is_some() {
            score = score + 75;
        }
        // An edge between a sealed component and one with a target area.
        if sealed1 != sealed2 {
            let other = if sealed1 {
                ci2
            } else {
                ci1
            };
            if self.curr_target_area[other].is_some() {
                score = score + 50;
            }
        }
        score
    }

    /// The part of an edge's score that comes from clues near it.
    fn clue_score(&self, e: EdgeId, ccc: &Vec<bool>, cc: &Vec<usize>, dal: &Vec<bool>) -> (score: i32)
        requires
            self.wf(),
            select_ready(self),
            candidate_edge(self, e as int),
            ccc@.len() == 0 || ccc@.len() == self.curr_comp_sz@.len(),
            cc@.len() == 0 || cc@.len() == self.curr_comp_sz@.len(),
            dal@.len() == 0 || dal@.len() == self.curr_comp_sz@.len(),
        ensures
            0 <= score <= 800,
    {
        let (c1, c2) = self.grid.edge_cells(e);
        let ci1 = self.curr_comp_id[c1];
        let ci2 = self.curr_comp_id[c2];
        let mut score: i32 = 0;
        // A component touched by a cut clue edge.
        if self.clue_cut_edges.len() > 0 && ccc.len() > 0 && (ccc[ci1] || ccc[ci2]) {
            score = score + 30;
        }
        if self.watchtower_vertices.len() > 0 && self.near_watchtower(e) {
            score = score + 25;
        }
        // The end of a cut path in a loop puzzle with watchtowers.
        if self.puzzle.rules.loopy && self.watchtower_vertices.len() > 0 && self.at_path_end(e) {
            score = score + 45;
        }
        // Near rose cells.
        if self.rose_bits_all != 0 && (self.cell_rose_sym[c1] != u8::MAX || self.cell_rose_sym[c2] != u8::MAX) {
            score = score + 80;
        }
        if self.rose_bits_all != 0 {
            let r1 = self.cell_rose_sym[c1] != u8::MAX;
            let r2 = self.cell_rose_sym[c2] != u8::MAX;
            if r1 != r2 {
                score = score + 40;
            }
            if r1 && r2 && self.cell_rose_sym[c1] == self.cell_rose_sym[c2] {
                score = score + 200;
            }
        }
        if self.has_compass_clue {
            if self.compass_adjacent.len() > 0 && (self.compass_adjacent[c1] || self.compass_adjacent[c2]) {
                score = score + 40;
            }
            if dal.len() > 0 {
                if ci1 < dal.len() && dal[ci1] {
                    score = score + 60;
                }
                if ci2 < dal.len() && dal[ci2] {
                    score = score + 60;
                }
            }
            if cc.len() > 0 {
                if ci1 < cc.len() && cc[ci1] >= 2 {
                    score = score + 30;
                }
                if ci2 < cc.len() && cc[ci2] >= 2 {
                    score = score + 30;
                }
            }
        }
        score
    }

    /// The part of an edge's score that the size-separation rule adds.
    fn separation_score(&self, e: EdgeId) -> (score: i32)
        requires
            self.wf(),
            select_ready(self),
            candidate_edge(self, e as int),
        ensures
            0 <= score <= 400,
    {
        if !self.puzzle.rules.size_separation {
            return 0;
        }
        proof {
            self.grid.lemma_sizes();
            assert(self.grid.rows * self.grid.cols <= (self.grid.rows + 1) * (self.grid.cols + 1))
                by (nonlinear_arith);
        }
        let (c1, c2) = self.grid.edge_cells(e);
        let ci1 = self.curr_comp_id[c1];
        let ci2 = self.curr_comp_id[c2];
        let sz1 = self.curr_comp_sz[ci1];
        let sz2 = self.curr_comp_sz[ci2];
        let mut score: i32 = 0;
        // Leaving the edge uncut would give a size that a sealed neighbour has.
        match &self.sealed_neighbor_sizes {
            Some(sns) => {
                if ci1 < sns.len() && ci2 < sns.len() {
                    let merged = sz1 + sz2;
                    if vec_has(&sns[ci1], merged) || vec_has(&sns[ci2], merged) {
                        score = score + 200;
                    }
                }
            },
            None => {},
        }
        // Two components of one size and no target must end up apart.
        if sz1 == sz2 && self.curr_target_area[ci1].is_none() && self.curr_target_area[ci2].is_none() {
            score = score + 80;
        }
        if ci1 < self.growth_edge_count.len() && self.growth_edge_count[ci1] == 1 {
            score = score + 30;
        }
        if ci2 < self.growth_edge_count.len() && self.growth_edge_count[ci2] == 1 {
            score = score + 30;
        }
        score
    }

    /// The score of candidate edge `e`: the more deciding it is likely to
    /// settle, the higher.
    fn edge_score(&self, e: EdgeId, ccc: &Vec<bool>, cc: &Vec<usize>, dal: &Vec<bool>) -> (score: i32)
        requires
            self.wf(),
            select_ready(self),
            candidate_edge(self, e as int),
            ccc@.len() == 0 || ccc@.len() == self.curr_comp_sz@.len(),
            cc@.len() == 0 || cc@.len() == self.curr_comp_sz@.len(),
            dal@.len() == 0 || dal@.len() == self.curr_comp_sz@.len(),
        ensures
            0 <= score <= 2000,
    {
        let a = self.area_score(e);
        let b = self.clue_score(e, ccc, cc, dal);
        let c = self.separation_score(e);
        a + b + c
    }

    /// The edge to branch on, with its score. While no components are known,
    /// the first undecided edge (score 0); otherwise the candidate edge with
    /// the highest score, the first of equals, and the first that reaches 200.
    /// `None` exactly when there is no such edge.
    pub fn select_edge(&self) -> (r: Option<(EdgeId, i32)>)
        requires
            self.wf(),
            self.curr_comp_id@.len() > 0 ==> select_ready(self),
        ensures
            self.curr_comp_id@.len() == 0 ==> (match r {
                None => forall|x: int| 0 <= x < self.grid.n_edges() ==> #[trigger] self.edges@[x] != EdgeState::Unknown,
                Some(p) => {
                    &&& p.1 == 0
                    &&& p.0 < self.grid.n_edges()
                    &&& self.edges@[p.0 as int] == EdgeState::Unknown
                    &&& forall|x: int| 0 <= x < p.0 ==> #[trigger] self.edges@[x] != EdgeState::Unknown
                },
            }),
            self.curr_comp_id@.len() > 0 ==> (match r {
                None => forall|x: int| !#[trigger] candidate_edge(self, x),
                Some(p) => candidate_edge(self, p.0 as int) && 0 <= p.1 <= 2000,
            }),
    {
        let num_edges = self.grid.num_edges();
        if self.curr_comp_id.len() == 0 {
            let mut e: usize = 0;
            while e < num_edges
                invariant
                    self.wf(),
                    self.curr_comp_id@.len() == 0,
                    num_edges == self.grid.n_edges(),
                    e <= num_edges,
                    forall|x: int| 0 <= x < e ==> #[trigger] self.edges@[x] != EdgeState::Unknown,
                decreases num_edges - e,
            {
                if self.edges[e] == EdgeState::Unknown {
                    return Some((e, 0));
                }
                e = e + 1;
            }
            return None;
        }
        let num_comp = self.curr_comp_sz.len();
        let ccc: Vec<bool> = if self.clue_cut_edges.len() > 0 {
            self.clue_constrained_comps(num_comp)
        } else {
            Vec::new()
        };
        let (cc, dal) = if self.has_compass_clue {
            self.compass_comps(num_comp)
        } else {
            (Vec::new(), Vec::new())
        };
        let mut best: Option<(EdgeId, i32)> = None;
        let mut best_score: i32 = i32::MIN;
        let mut stop = false;
        let mut e: usize = 0;
        while e < num_edges && !stop
            invariant
                self.wf(),
                select_ready(self),
                self.curr_comp_id@.len() > 0,
                num_edges == self.grid.n_edges(),
                num_comp == self.curr_comp_sz@.len(),
                ccc@.len() == 0 || ccc@.len() == num_comp,
                cc@.len() == 0 || cc@.len() == num_comp,
                dal@.len() == 0 || dal@.len() == num_comp,
                e <= num_edges,
                best is None ==> best_score == i32::MIN && !stop,
                best is None ==> forall|x: int| 0 <= x < e ==> !#[trigger] candidate_edge(self, x),
                best matches Some(p) ==> candidate_edge(self, p.0 as int) && 0 <= p.1 <= 2000,
            decreases num_edges - e,
        {
            if self.edges[e] == EdgeState::Unknown {
                let (c1, c2) = self.grid.edge_cells(e);
                if self.grid.cell_exists[c1] && self.grid.cell_exists[c2] {
                    let score = self.edge_score(e, &ccc, &cc, &dal);
                    if score > best_score {
                        best_score = score;
                        best = Some((e, score));
                        if score >= 200 {
                            stop = true;
                        }
                    }
                }
            }
            e = e + 1;
        }
        best
    }
}

} // verus!
