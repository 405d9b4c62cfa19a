//! Building the components of the decided state: the cells joined by uncut
//! edges, their sizes and cells, the areas their clues ask for, and the edges
//! that these force.
use vstd::prelude::*;
use super::Solver;
use super::reach::{flood_labels, labelled, lemma_reach_step, lemma_source_reached, passable, reach_path, reaches, step_to};
use super::validation::both_exist;
use super::compass_bounds::or_zero;
use super::edge_state::{lemma_decided_refl, ops_in_range, set_all};
use super::diff_clues::area_tables_ok;
use crate::types::{CellClue, EdgeId, EdgeState};

verus! {

/// Across every uncut edge between existing cells, a labelled cell and its
/// neighbour have one label.
pub open spec fn uncut_closed(s: &Solver, labels: Seq<usize>) -> bool {
    forall|e: int|
        #![trigger s.edges@[e]]
        0 <= e < s.grid.n_edges() && s.edges@[e] == EdgeState::Uncut && both_exist(s.grid, e) ==> {
            let a = s.grid.edge_cells_of(e).0;
            let b = s.grid.edge_cells_of(e).1;
            &&& labels[a] != usize::MAX ==> labels[b] == labels[a]
            &&& labels[b] != usize::MAX ==> labels[a] == labels[b]
        }
}

/// A flood fill from an unlabelled existing cell keeps labels closed across uncut edges.
proof fn lemma_flood_closed(s: &Solver, prev: Seq<usize>, c: int)
    requires
        s.wf(),
        prev.len() == s.grid.n_cells(),
        0 <= c < s.grid.n_cells(),
        prev[c] == usize::MAX,
        uncut_closed(s, prev),
    ensures
        uncut_closed(s, flood_labels(s, prev, c)),
{
    s.grid.lemma_sizes();
    let blk = labelled(prev);
    let src = seq![c as usize];
    let nl = flood_labels(s, prev, c);
    assert forall|e: int|
        #![trigger s.edges@[e]]
        0 <= e < s.grid.n_edges() && s.edges@[e] == EdgeState::Uncut && both_exist(s.grid, e) implies {
            let a = s.grid.edge_cells_of(e).0;
            let b = s.grid.edge_cells_of(e).1;
            &&& nl[a] != usize::MAX ==> nl[b] == nl[a]
            &&& nl[b] != usize::MAX ==> nl[a] == nl[b]
        } by {
        let a = s.grid.edge_cells_of(e).0;
        let b = s.grid.edge_cells_of(e).1;
        crate::grid::lemma_edge_cells_range(s.grid, e);
        assert(passable(s, true, e));
        assert(blk[a] == (prev[a] != usize::MAX));
        assert(blk[b] == (prev[b] != usize::MAX));
        assert(blk[c] == false);
        assert(src[0] as int == c);
        assert(prev[a] != usize::MAX ==> prev[b] == prev[a]);
        assert(prev[b] != usize::MAX ==> prev[a] == prev[b]);
        assert(nl[a] == if reaches(s, true, blk, src, a) { c as usize } else { prev[a] });
        assert(nl[b] == if reaches(s, true, blk, src, b) { c as usize } else { prev[b] });
        // From a reached end the walk crosses to the other end, unless that end
        // was labelled; but then the reached end was labelled too, so it is the
        // start, which was not.
        if reaches(s, true, blk, src, a) {
            if !blk[b] {
                assert(step_to(s, true, blk, a, b));
                lemma_reach_step(s, true, blk, src, a, b);
            } else {
                lemma_reached_unblocked(s, blk, src, a);
            }
        }
        if reaches(s, true, blk, src, b) {
            if !blk[a] {
                assert(step_to(s, true, blk, b, a));
                lemma_reach_step(s, true, blk, src, b, a);
            } else {
                lemma_reached_unblocked(s, blk, src, b);
            }
        }
    }
}

/// Reaching through uncut edges does not depend on anything of the solver
/// but its grid and edges, and fewer blocked cells reach no fewer cells.
proof fn lemma_reach_mono(s1: &Solver, s2: &Solver, b1: Seq<bool>, b2: Seq<bool>, src: Seq<usize>, x: int)
    requires
        s1.grid == s2.grid,
        s1.edges == s2.edges,
        forall|i: int| 0 <= i < b2.len() && #[trigger] b2[i] ==> b1[i],
        b1.len() == b2.len(),
        s1.wf(),
        b1.len() == s1.grid.n_cells(),
        reaches(s1, true, b1, src, x),
    ensures
        reaches(s2, true, b2, src, x),
{
    let w = choose|w: Seq<int>| #[trigger] reach_path(s1, true, b1, src, w) && w.last() == x;
    assert forall|i: int| 0 <= i < w.len() - 1 implies #[trigger] step_to(s2, true, b2, w[i], w[i + 1]) by {
        assert(step_to(s1, true, b1, w[i], w[i + 1]));
        let e = choose|e: int|
            #[trigger] passable(s1, true, e) && (s1.grid.edge_cells_of(e) == (w[i], w[i + 1]) || s1.grid.edge_cells_of(e)
                == (w[i + 1], w[i]));
        assert(passable(s2, true, e));
        crate::grid::lemma_edge_cells_range(s1.grid, e);
        if b2[w[i + 1]] {
            assert(b1[w[i + 1]]);
        }
    }
    assert(reach_path(s2, true, b2, src, w));
}

/// Cell `x` is reached from cell `l` through uncut edges.
pub open spec fn uncut_from(s: &Solver, l: int, x: int) -> bool {
    reaches(s, true, Seq::new(s.grid.n_cells() as nat, |i: int| false), seq![l as usize], x)
}

/// A cell reached by a flood fill is a source or was not blocked.
proof fn lemma_reached_unblocked(s: &Solver, blocked: Seq<bool>, sources: Seq<usize>, x: int)
    requires
        reaches(s, true, blocked, sources, x),
    ensures
        (exists|k: int| 0 <= k < sources.len() && sources[k] as int == x) || !blocked[x],
{
    let w = choose|w: Seq<int>| #[trigger] reach_path(s, true, blocked, sources, w) && w.last() == x;
    if w.len() > 1 {
        let i = w.len() - 2;
        assert(step_to(s, true, blocked, w[i], w[i + 1]));
        assert(w[i + 1] == x);
    } else {
        assert(w[0] == x);
    }
}

/// The clue index of every cell lists clues of the puzzle, one list per cell.
pub open spec fn clue_index_ok(s: &Solver) -> bool {
    &&& s.cell_clues_indexed@.len() == s.grid.n_cells()
    &&& forall|c: int, j: int|
        0 <= c < s.grid.n_cells() && 0 <= j < s.cell_clues_indexed@[c]@.len() ==> #[trigger] s.cell_clues_indexed@[c]@[j]
            < s.puzzle.cell_clues@.len()
}

/// The component lists agree with the component numbers: `num` lists, each
/// of cells of the grid, every existing cell in the list of its component,
/// and each size the length of its list.
pub open spec fn comp_lists_ok(s: &Solver, num: int) -> bool {
    &&& s.curr_comp_id@.len() == s.grid.n_cells()
    &&& s.curr_comp_sz@.len() == num
    &&& s.comp_cells@.len() == num
    &&& forall|i: int, j: int| 0 <= i < num && 0 <= j < s.comp_cells@[i]@.len() ==> #[trigger] s.comp_cells@[i]@[j] < s.grid.n_cells()
    &&& forall|i: int| 0 <= i < num ==> #[trigger] s.curr_comp_sz@[i] == s.comp_cells@[i]@.len()
    &&& forall|i: int| 0 <= i < num ==> #[trigger] s.curr_comp_sz@[i] <= s.grid.n_cells()
    &&& forall|a: int|
        0 <= a < s.grid.n_cells() && s.grid.cell_exists@[a] ==> #[trigger] s.curr_comp_id@[a] < num
            && s.comp_cells@[s.curr_comp_id@[a] as int]@.contains(a as usize)
}

/// Every compass clue's values add up, with its own cell, to a `usize`.
pub open spec fn compass_fits(s: &Solver) -> bool {
    forall|k: int|
        0 <= k < s.puzzle.cell_clues@.len() ==> (#[trigger] s.puzzle.cell_clues@[k] matches CellClue::Compass {
            compass,
            ..
        } ==> 1 + or_zero(compass.n) + or_zero(compass.s) + or_zero(compass.e) + or_zero(compass.w) <= usize::MAX)
}

/// The area tables of `num` components hold together: each least area is at
/// most the greatest, no component is larger than its greatest area, and a
/// target area is both the least and the greatest.
pub open spec fn area_bounds_ok(s: &Solver, num: int) -> bool {
    &&& s.curr_target_area@.len() == num
    &&& s.curr_min_area@.len() == num
    &&& s.curr_max_area@.len() == num
    &&& forall|i: int| 0 <= i < num ==> #[trigger] s.curr_min_area@[i] <= s.curr_max_area@[i]
    &&& forall|i: int| 0 <= i < num ==> #[trigger] s.curr_comp_sz@[i] <= s.curr_max_area@[i]
    &&& forall|i: int|
        0 <= i < num ==> (#[trigger] s.curr_target_area@[i] matches Some(t) ==> s.curr_min_area@[i] == t
            && s.curr_max_area@[i] == t)
}

/// Every existing cell has a component number below `num`.
pub open spec fn comp_ids_ok(s: &Solver, num: int) -> bool {
    &&& s.curr_comp_id@.len() == s.grid.n_cells()
    &&& s.curr_comp_sz@.len() == num
    &&& forall|a: int| 0 <= a < s.grid.n_cells() && s.grid.cell_exists@[a] ==> #[trigger] s.curr_comp_id@[a] < num
}

/// Decides the undecided edges of `list` as listed; edges already decided stay.
fn decide_listed(s: &mut Solver, list: &Vec<(EdgeId, EdgeState)>, Ghost(base): Ghost<Solver>)
    requires
        old(s).wf(),
        old(s).decided_from(&base),
        forall|k: int| 0 <= k < list@.len() ==> (#[trigger] list@[k]).0 < old(s).grid.n_edges(),
    ensures
        final(s).wf(),
        final(s).decided_from(&base),
        final(s).same_tables(old(s)),
{
    let mut k: usize = 0;
    while k < list.len()
        invariant
            s.wf(),
            s.decided_from(&base),
            s.same_tables(old(s)),
            forall|q: int| 0 <= q < list@.len() ==> (#[trigger] list@[q]).0 < s.grid.n_edges(),
            k <= list@.len(),
        decreases list@.len() - k,
    {
        let (e, st) = list[k];
        if s.edges[e] == EdgeState::Unknown {
            let _ = s.decide_edge(e, st, Ghost(base));
        }
        k = k + 1;
    }
}

/// The edges and the log of `new` come from those of `old` by decisions on
/// undecided edges.
pub open spec fn edges_decided(old: &Solver, new: &Solver) -> bool {
    exists|ops: Seq<(EdgeId, EdgeState)>|
        ops_in_range(ops, old.edges@.len() as int) && (#[trigger] set_all(old.edges@, old.changed@, ops)) == (
            new.edges@,
            new.changed@,
        )
}

proof fn lemma_edges_same(a: &Solver, b: &Solver)
    requires
        a.edges == b.edges,
        a.changed == b.changed,
    ensures
        edges_decided(a, b),
{
    let ops: Seq<(EdgeId, EdgeState)> = seq![];
    assert(set_all(a.edges@, a.changed@, ops) == (b.edges@, b.changed@));
    assert(ops_in_range(ops, a.edges@.len() as int));
}

impl Solver {
    /// With rose clues: fails when a component holds a rose symbol twice or
    /// a component that can no longer grow misses a symbol, and cuts the
    /// edges between components that share a symbol. When the rose clues fix
    /// the number of pieces and that many components can no longer grow, the
    /// edges between components are cut; more of them fail.
    fn rose_and_count(
        &mut self,
        num: usize,
        comp_rose: &Vec<u8>,
        cells: &Vec<Vec<usize>>,
        can_grow: &Vec<bool>,
        Ghost(base): Ghost<Solver>,
    ) -> (r: Result<(), ()>)
        requires
            old(self).wf(),
            old(self).decided_from(&base),
            clue_index_ok(old(self)),
            comp_ids_ok(old(self), num as int),
            comp_rose@.len() == num,
            cells@.len() == num,
            can_grow@.len() == num,
            forall|i: int, j: int| 0 <= i < num && 0 <= j < cells@[i]@.len() ==> #[trigger] cells@[i]@[j] < old(self).grid.n_cells(),
        ensures
            final(self).wf(),
            final(self).decided_from(&base),
            final(self).same_tables(old(self)),
            r is Err ==> old(self).rose_bits_all != 0 || old(self).rose_exact_piece_count is Some,
    {
        let ne = self.grid.num_edges();
        if self.rose_bits_all != 0 {
            let mut ci: usize = 0;
            while ci < num
                invariant
                    self.wf(),
                    *self == *old(self),
                    old(self).decided_from(&base),
                    old(self).rose_bits_all != 0,
                    clue_index_ok(self),
                    cells@.len() == num,
                    forall|i: int, j: int| 0 <= i < num && 0 <= j < cells@[i]@.len() ==> #[trigger] cells@[i]@[j] < self.grid.n_cells(),
                    ci <= num,
                decreases num - ci,
            {
                let mut counts: Vec<u8> = Vec::new();
                let mut z: usize = 0;
                while z < 8
                    invariant
                        z <= 8,
                        counts@.len() == z,
                    decreases 8 - z,
                {
                    counts.push(0);
                    z = z + 1;
                }
                let list = &cells[ci];
                let mut t: usize = 0;
                while t < list.len()
                    invariant
                        self.wf(),
                        clue_index_ok(self),
                        ci < num,
                        cells@.len() == num,
                        list == &cells@[ci as int],
                        forall|j: int| 0 <= j < list@.len() ==> #[trigger] list@[j] < self.grid.n_cells(),
                        counts@.len() == 8,
                        t <= list@.len(),
                    decreases list@.len() - t,
                {
                    let c = list[t];
                    let nk = self.cell_clues_indexed[c].len();
                    let mut j: usize = 0;
                    while j < nk
                        invariant
                            self.wf(),
                            clue_index_ok(self),
                            c < self.grid.n_cells(),
                            nk == self.cell_clues_indexed@[c as int]@.len(),
                            counts@.len() == 8,
                            j <= nk,
                        decreases nk - j,
                    {
                        let k = self.cell_clues_indexed[c][j];
                        match &self.puzzle.cell_clues[k] {
                            CellClue::Rose { symbol, .. } => {
                                let sym = *symbol as usize;
                                if counts[sym] < 255 {
                                    counts.set(sym, counts[sym] + 1);
                                }
                            },
                            _ => {},
                        }
                        j = j + 1;
                    }
                    t = t + 1;
                }
                let mut sym: u8 = 0;
                while sym < 8
                    invariant
                        self.wf(),
                        *self == *old(self),
                        old(self).decided_from(&base),
                        old(self).rose_bits_all != 0,
                        sym <= 8,
                        counts@.len() == 8,
                    decreases 8 - sym,
                {
                    if self.rose_bits_all & (1u8 << sym) != 0 && counts[sym as usize] > 1 {
                        return Err(());
                    }
                    sym = sym + 1;
                }
                ci = ci + 1;
            }
            let mut ci: usize = 0;
            while ci < num
                invariant
                    self.wf(),
                    *self == *old(self),
                    old(self).decided_from(&base),
                    old(self).rose_bits_all != 0,
                    ci <= num,
                    comp_rose@.len() == num,
                    can_grow@.len() == num,
                decreases num - ci,
            {
                if !can_grow[ci] {
                    let missing = self.rose_bits_all & !comp_rose[ci];
                    if missing != 0 {
                        return Err(());
                    }
                }
                ci = ci + 1;
            }
            let mut cuts: Vec<(EdgeId, EdgeState)> = Vec::new();
            let mut e: usize = 0;
            while e < ne
                invariant
                    self.wf(),
                    *self == *old(self),
                    comp_ids_ok(self, num as int),
                    comp_rose@.len() == num,
                    ne == self.grid.n_edges(),
                    e <= ne,
                    forall|q: int| 0 <= q < cuts@.len() ==> (#[trigger] cuts@[q]).0 < ne,
                decreases ne - e,
            {
                if self.edges[e] == EdgeState::Unknown {
                    let (c1, c2) = self.grid.edge_cells(e);
                    if self.grid.cell_exists[c1] && self.grid.cell_exists[c2] {
                        let ci1 = self.curr_comp_id[c1];
                        let ci2 = self.curr_comp_id[c2];
                        if ci1 != ci2 && comp_rose[ci1] & comp_rose[ci2] != 0 {
                            cuts.push((e, EdgeState::Cut));
                        }
                    }
                }
                e = e + 1;
            }
            decide_listed(self, &cuts, Ghost(base));
        }
        if let Some(k) = self.rose_exact_piece_count {
            let mut sealed_count: usize = 0;
            let mut ci: usize = 0;
            while ci < num
                invariant
                    ci <= num,
                    can_grow@.len() == num,
                    sealed_count <= ci,
                decreases num - ci,
            {
                if !can_grow[ci] {
                    sealed_count = sealed_count + 1;
                }
                ci = ci + 1;
            }
            if sealed_count > k {
                return Err(());
            }
            if sealed_count == k {
                let mut e: usize = 0;
                while e < ne
                    invariant
                        self.wf(),
                        self.decided_from(&base),
                        self.same_tables(old(self)),
                        comp_ids_ok(self, num as int),
                        ne == self.grid.n_edges(),
                        e <= ne,
                    decreases ne - e,
                {
                    if self.edges[e] == EdgeState::Unknown {
                        let (c1, c2) = self.grid.edge_cells(e);
                        if self.grid.cell_exists[c1] && self.grid.cell_exists[c2] {
                            let ci1 = self.curr_comp_id[c1];
                            let ci2 = self.curr_comp_id[c2];
                            if ci1 != ci2 {
                                if !self.decide_edge(e, EdgeState::Cut, Ghost(base)) {
                                    return Err(());
                                }
                            }
                        }
                    }
                    e = e + 1;
                }
            }
        }
        Ok(())
    }

    /// Builds the components of the decided state: the cells joined by uncut
    /// edges get one number, in the order of their first cells; their sizes,
    /// cell lists and area bounds follow, and the edges that the areas and the
    /// rose clues force are decided. Fails on a contradiction. Returns the
    /// number of components.
    pub fn build_components(&mut self) -> (r: Result<usize, ()>)
        requires
            old(self).wf(),
            old(self).comp_buf@.len() == old(self).grid.n_cells(),
            clue_index_ok(old(self)),
            compass_fits(old(self)),
        ensures
            final(self).wf(),
            final(self).grid == old(self).grid,
            final(self).puzzle == old(self).puzzle,
            edges_decided(old(self), final(self)),
            r is Err ==> old(self).puzzle.cell_clues@.len() > 0 || old(self).rose_bits_all != 0
                || old(self).rose_exact_piece_count is Some || old(self).eff_max_area < 1 || old(self).eff_min_area
                > old(self).eff_max_area || exists|i: int|
                0 <= i < final(self).curr_comp_sz@.len() && #[trigger] final(self).curr_comp_sz@[i] > old(self).eff_max_area,
            r matches Ok(num) ==> {
                &&& comp_lists_ok(final(self), num as int)
                &&& area_bounds_ok(final(self), num as int)
                &&& area_tables_ok(final(self))
                &&& final(self).can_grow_buf@.len() == num
                &&& final(self).comp_buf@.len() == final(self).grid.n_cells()
                &&& forall|a: int, b: int|
                    0 <= a < final(self).grid.n_cells() && 0 <= b < final(self).grid.n_cells()
                        && final(self).grid.cell_exists@[a] && final(self).grid.cell_exists@[b] ==> (
                    #[trigger] final(self).curr_comp_id@[a] == #[trigger] final(self).curr_comp_id@[b]
                        <==> final(self).comp_buf@[a] == final(self).comp_buf@[b])
                &&& forall|e: int|
                    #![trigger old(self).edges@[e]]
                    0 <= e < old(self).grid.n_edges() && old(self).edges@[e] == EdgeState::Uncut && both_exist(
                        old(self).grid,
                        e,
                    ) ==> final(self).curr_comp_id@[old(self).grid.edge_cells_of(e).0]
                        == final(self).curr_comp_id@[old(self).grid.edge_cells_of(e).1]
                &&& forall|a: int|
                    0 <= a < final(self).grid.n_cells() && final(self).grid.cell_exists@[a] ==> uncut_from(
                        old(self),
                        #[trigger] final(self).comp_buf@[a] as int,
                        a,
                    )
                &&& forall|a: int, b: int|
                    0 <= a < final(self).grid.n_cells() && 0 <= b < final(self).grid.n_cells()
                        && final(self).grid.cell_exists@[a] && final(self).grid.cell_exists@[b]
                        && #[trigger] final(self).curr_comp_id@[a] == #[trigger] final(self).curr_comp_id@[b] ==> exists|l: int|
                        uncut_from(old(self), l, a) && uncut_from(old(self), l, b)
            },
    {
        let ghost s0 = *self;
        let num = self.label_cells();
        proof {
            let s1 = *self;
            assert forall|e: int|
                #![trigger s0.edges@[e]]
                0 <= e < s0.grid.n_edges() && s0.edges@[e] == EdgeState::Uncut && both_exist(s0.grid, e) implies s1.curr_comp_id@[s0.grid.edge_cells_of(e).0]
                    == s1.curr_comp_id@[s0.grid.edge_cells_of(e).1] by {
                crate::grid::lemma_edge_cells_range(s0.grid, e);
                let a = s0.grid.edge_cells_of(e).0;
                let b = s0.grid.edge_cells_of(e).1;
                assert(s1.curr_comp_id@[a] < num);
                assert(s1.curr_comp_id@[b] < num);
                assert(s1.comp_buf@[a] < s0.grid.n_cells());
                assert(s1.curr_comp_id@[a] == s1.curr_comp_id@[b] <==> s1.comp_buf@[a] == s1.comp_buf@[b]);
            }
        }
        let (comp_clues, comp_rose) = match self.collect_comps(num) {
            Err(()) => {
                proof {
                    lemma_edges_same(&s0, self);
                }
                return Err(());
            },
            Ok(t) => t,
        };
        match self.set_area_bounds(num, &comp_clues) {
            Err(()) => {
                proof {
                    lemma_edges_same(&s0, self);
                }
                return Err(());
            },
            Ok(()) => {},
        }
        // Deciding edges keeps neither list: hold them aside meanwhile.
        let mut cells: Vec<Vec<usize>> = Vec::new();
        std::mem::swap(&mut cells, &mut self.comp_cells);
        let mut labels: Vec<usize> = Vec::new();
        std::mem::swap(&mut labels, &mut self.comp_buf);
        let ghost base = *self;
        proof {
            lemma_decided_refl(&base);
        }
        let (can_grow, growth) = match self.connect_comps(num, Ghost(base)) {
            Err(()) => {
                self.comp_cells = cells;
                self.comp_buf = labels;
                return Err(());
            },
            Ok(t) => t,
        };
        match self.rose_and_count(num, &comp_rose, &cells, &can_grow, Ghost(base)) {
            Err(()) => {
                self.comp_cells = cells;
                self.comp_buf = labels;
                self.can_grow_buf = can_grow;
                self.growth_edges = growth;
                return Err(());
            },
            Ok(()) => {},
        }
        self.comp_cells = cells;
        self.comp_buf = labels;
        self.can_grow_buf = can_grow;
        self.growth_edges = growth;
        proof {
            assert forall|a: int, b: int|
                0 <= a < self.grid.n_cells() && 0 <= b < self.grid.n_cells() && self.grid.cell_exists@[a]
                    && self.grid.cell_exists@[b] && #[trigger] self.curr_comp_id@[a] == #[trigger] self.curr_comp_id@[b]
                    implies exists|l: int| uncut_from(&s0, l, a) && uncut_from(&s0, l, b) by {
                assert(uncut_from(&s0, self.comp_buf@[a] as int, a));
                assert(uncut_from(&s0, self.comp_buf@[b] as int, b));
            }
        }
        Ok(num)
    }

    /// The edges between components: those the areas forbid to join are cut,
    /// the others are growth edges of both sides (edges between equal target
    /// areas are left uncut when such cells must share a piece), and the
    /// edges out of a component that has reached its greatest area are cut.
    /// Returns which components can grow and the growth edges of each.
    fn connect_comps(&mut self, num: usize, Ghost(base): Ghost<Solver>) -> (r: Result<(Vec<bool>, Vec<Vec<EdgeId>>), ()>)
        requires
            old(self).wf(),
            old(self).decided_from(&base),
            comp_ids_ok(old(self), num as int),
            area_bounds_ok(old(self), num as int),
        ensures
            final(self).wf(),
            final(self).decided_from(&base),
            final(self).same_tables(old(self)),
            r is Ok,
            r matches Ok(t) ==> {
                &&& t.0@.len() == num
                &&& t.1@.len() == num
                &&& forall|i: int, j: int| 0 <= i < num && 0 <= j < t.1@[i]@.len() ==> #[trigger] t.1@[i]@[j] < final(self).grid.n_edges()
            },
    {
        let mut can_grow: Vec<bool> = Vec::new();
        let mut growth: Vec<Vec<EdgeId>> = Vec::new();
        let mut z: usize = 0;
        while z < num
            invariant
                z <= num,
                can_grow@.len() == z,
                growth@.len() == z,
                forall|i: int| 0 <= i < z ==> (#[trigger] growth@[i])@.len() == 0,
            decreases num - z,
        {
            can_grow.push(false);
            growth.push(Vec::new());
            z = z + 1;
        }
        let mut same: Vec<(EdgeId, EdgeState)> = Vec::new();
        let ne = self.grid.num_edges();
        let mut e: usize = 0;
        while e < ne
            invariant
                self.wf(),
                self.decided_from(&base),
                self.same_tables(old(self)),
                comp_ids_ok(self, num as int),
                area_bounds_ok(self, num as int),
                ne == self.grid.n_edges(),
                e <= ne,
                can_grow@.len() == num,
                growth@.len() == num,
                forall|i: int, j: int| 0 <= i < num && 0 <= j < growth@[i]@.len() ==> #[trigger] growth@[i]@[j] < ne,
                forall|q: int| 0 <= q < same@.len() ==> (#[trigger] same@[q]).0 < ne,
            decreases ne - e,
        {
            if self.edges[e] == EdgeState::Unknown {
                let (c1, c2) = self.grid.edge_cells(e);
                if self.grid.cell_exists[c1] && self.grid.cell_exists[c2] {
                    let ci1 = self.curr_comp_id[c1];
                    let ci2 = self.curr_comp_id[c2];
                    if ci1 != ci2 {
                        let t1 = self.curr_target_area[ci1];
                        let t2 = self.curr_target_area[ci2];
                        let cannot_merge = if self.puzzle.rules.solitude {
                            t1.is_some() && t2.is_some()
                        } else {
                            match (t1, t2) {
                                (Some(a1), Some(a2)) => a1 != a2,
                                _ => false,
                            }
                        };
                        if cannot_merge {
                            if !self.decide_edge(e, EdgeState::Cut, Ghost(base)) {
                                return Err(());
                            }
                        } else {
                            let same_target = match (t1, t2) {
                                (Some(a1), Some(a2)) => a1 == a2,
                                _ => false,
                            };
                            can_grow.set(ci1, true);
                            can_grow.set(ci2, true);
                            if self.same_area_groups && same_target {
                                same.push((e, EdgeState::Uncut));
                            } else {
                                let ghost g0 = growth@;
                                let mut l1 = Vec::new();
                                std::mem::swap(&mut l1, &mut growth[ci1]);
                                l1.push(e);
                                growth.set(ci1, l1);
                                let ghost g1 = growth@;
                                let mut l2 = Vec::new();
                                std::mem::swap(&mut l2, &mut growth[ci2]);
                                l2.push(e);
                                growth.set(ci2, l2);
                                proof {
                                    assert forall|i: int, j: int|
                                        0 <= i < num && 0 <= j < growth@[i]@.len() implies #[trigger] growth@[i]@[j] < ne by {
                                        if i == ci2 {
                                            assert(growth@[i]@ == g1[i]@.push(e));
                                            if j < g1[i]@.len() {
                                                assert(growth@[i]@[j] == g1[i]@[j]);
                                            }
                                        } else {
                                            assert(growth@[i] == g1[i]);
                                        }
                                        if i == ci1 {
                                            assert(g1[i]@ == g0[i]@.push(e));
                                            if j < g0[i]@.len() && i != ci2 {
                                                assert(g1[i]@[j] == g0[i]@[j]);
                                            }
                                        }
                                    }
                                }
                                let sz1 = self.curr_comp_sz[ci1];
                                let sz2 = self.curr_comp_sz[ci2];
                                if sz1 >= self.curr_max_area[ci1] || sz2 >= self.curr_max_area[ci2] {
                                    if !self.decide_edge(e, EdgeState::Cut, Ghost(base)) {
                                        return Err(());
                                    }
                                }
                            }
                        }
                    }
                }
            }
            e = e + 1;
        }
        decide_listed(self, &same, Ghost(base));
        Ok((can_grow, growth))
    }

    /// The least, greatest and target area of each component from the area,
    /// polyomino and compass clues it holds; fails when they disagree or the
    /// component is already too large.
    fn set_area_bounds(&mut self, num: usize, comp_clues: &Vec<Vec<usize>>) -> (r: Result<(), ()>)
        requires
            old(self).wf(),
            compass_fits(old(self)),
            old(self).curr_comp_sz@.len() == num,
            comp_clues@.len() == num,
            forall|i: int, j: int|
                0 <= i < num && 0 <= j < comp_clues@[i]@.len() ==> #[trigger] comp_clues@[i]@[j] < old(self).puzzle.cell_clues@.len(),
        ensures
            *final(self) == (Solver {
                curr_target_area: final(self).curr_target_area,
                curr_min_area: final(self).curr_min_area,
                curr_max_area: final(self).curr_max_area,
                ..*old(self)
            }),
            r is Ok ==> area_bounds_ok(final(self), num as int),
            r is Err ==> old(self).puzzle.cell_clues@.len() > 0 || old(self).eff_max_area < 1 || old(self).eff_min_area
                > old(self).eff_max_area || exists|i: int|
                0 <= i < num && #[trigger] old(self).curr_comp_sz@[i] > old(self).eff_max_area,
    {
        let lo0 = if self.eff_min_area > 1 {
            self.eff_min_area
        } else {
            1
        };
        let hi0 = self.eff_max_area;
        let mut target: Vec<Option<usize>> = Vec::new();
        let mut lo: Vec<usize> = Vec::new();
        let mut hi: Vec<usize> = Vec::new();
        let mut ci: usize = 0;
        while ci < num
            invariant
                self.wf(),
                compass_fits(self),
                self.curr_comp_sz@.len() == num,
                comp_clues@.len() == num,
                forall|i: int, j: int|
                    0 <= i < num && 0 <= j < comp_clues@[i]@.len() ==> #[trigger] comp_clues@[i]@[j] < self.puzzle.cell_clues@.len(),
                ci <= num,
                *self == *old(self),
                lo0 == (if self.eff_min_area > 1 { self.eff_min_area } else { 1 }),
                hi0 == self.eff_max_area,
                target@.len() == ci,
                lo@.len() == ci,
                hi@.len() == ci,
                forall|i: int| 0 <= i < ci ==> #[trigger] lo@[i] <= hi@[i],
                forall|i: int| 0 <= i < ci ==> #[trigger] self.curr_comp_sz@[i] <= hi@[i],
                forall|i: int| 0 <= i < ci ==> (#[trigger] target@[i] matches Some(t) ==> lo@[i] == t && hi@[i] == t),
            decreases num - ci,
        {
            let mut areas: Vec<usize> = Vec::new();
            let mut local_min = lo0;
            let mut local_max = hi0;
            let list = &comp_clues[ci];
            let mut q: usize = 0;
            while q < list.len()
                invariant
                    self.wf(),
                    compass_fits(self),
                    ci < num,
                    comp_clues@.len() == num,
                    list == &comp_clues@[ci as int],
                    forall|j: int| 0 <= j < list@.len() ==> #[trigger] list@[j] < self.puzzle.cell_clues@.len(),
                    self.puzzle.cell_clues@.len() == 0 ==> areas@.len() == 0 && local_min == lo0 && local_max == hi0,
                    q <= list@.len(),
                decreases list@.len() - q,
            {
                let k = list[q];
                match &self.puzzle.cell_clues[k] {
                    CellClue::Area { value, .. } => {
                        areas.push(*value);
                    },
                    CellClue::Polyomino { shape, .. } => {
                        areas.push(shape.cells.len());
                    },
                    CellClue::Compass { cell, compass } => {
                        proof {
                            assert(self.puzzle.cell_clues@[k as int].spec_cell() < self.grid.n_cells());
                        }
                        let (cmin, cmax, cexact) = self.get_compass_area_bounds(*cell, compass);
                        if let Some(exact) = cexact {
                            areas.push(exact);
                        }
                        if cmin > local_min {
                            local_min = cmin;
                        }
                        if let Some(maxv) = cmax {
                            if maxv < local_max {
                                local_max = maxv;
                            }
                        }
                    },
                    _ => {},
                }
                q = q + 1;
            }
            if self.puzzle.rules.solitude && areas.len() > 1 {
                return Err(());
            }
            let sz = self.curr_comp_sz[ci];
            if areas.len() > 0 {
                let a0 = areas[0];
                let mut t: usize = 1;
                while t < areas.len()
                    invariant
                        1 <= t <= areas@.len(),
                        old(self).puzzle.cell_clues@.len() > 0,
                    decreases areas@.len() - t,
                {
                    if areas[t] != a0 {
                        return Err(());
                    }
                    t = t + 1;
                }
                if a0 < local_min || a0 > local_max {
                    return Err(());
                }
                if sz > a0 {
                    return Err(());
                }
                target.push(Some(a0));
                lo.push(a0);
                hi.push(a0);
            } else {
                if local_min > local_max || sz > local_max {
                    return Err(());
                }
                if local_min == local_max {
                    target.push(Some(local_min));
                } else {
                    if sz > self.eff_max_area {
                        return Err(());
                    }
                    target.push(None);
                }
                lo.push(local_min);
                hi.push(local_max);
            }
            ci = ci + 1;
        }
        self.curr_target_area = target;
        self.curr_min_area = lo;
        self.curr_max_area = hi;
        Ok(())
    }

    /// Sizes and cell lists of the components, and the clues that each
    /// component holds; fails when a component holds two rose clues of one
    /// symbol. Returns the clue lists and the rose symbols of each component.
    fn collect_comps(&mut self, num: usize) -> (r: Result<(Vec<Vec<usize>>, Vec<u8>), ()>)
        requires
            old(self).wf(),
            clue_index_ok(old(self)),
            old(self).curr_comp_id@.len() == old(self).grid.n_cells(),
            forall|a: int|
                0 <= a < old(self).grid.n_cells() && old(self).grid.cell_exists@[a] ==> #[trigger] old(self).curr_comp_id@[a]
                    < num,
        ensures
            final(self).wf(),
            *final(self) == (Solver {
                curr_comp_sz: final(self).curr_comp_sz,
                comp_cells: final(self).comp_cells,
                ..*old(self)
            }),
            r is Err ==> old(self).puzzle.cell_clues@.len() > 0,
            r matches Ok(t) ==> {
                &&& comp_lists_ok(final(self), num as int)
                &&& t.0@.len() == num
                &&& t.1@.len() == num
                &&& forall|i: int, j: int|
                    0 <= i < num && 0 <= j < t.0@[i]@.len() ==> #[trigger] t.0@[i]@[j] < final(self).puzzle.cell_clues@.len()
            },
    {
        let ghost base = *self;
        proof {
            self.grid.lemma_sizes();
        }
        let n = self.grid.num_cells();
        let mut sz: Vec<usize> = Vec::new();
        let mut cells: Vec<Vec<usize>> = Vec::new();
        let mut comp_clues: Vec<Vec<usize>> = Vec::new();
        let mut comp_rose: Vec<u8> = Vec::new();
        let mut i: usize = 0;
        while i < num
            invariant
                i <= num,
                sz@.len() == i,
                cells@.len() == i,
                comp_clues@.len() == i,
                comp_rose@.len() == i,
                forall|x: int| 0 <= x < i ==> #[trigger] sz@[x] == 0,
                forall|x: int| 0 <= x < i ==> (#[trigger] cells@[x])@.len() == 0,
                forall|x: int| 0 <= x < i ==> (#[trigger] comp_clues@[x])@.len() == 0,
            decreases num - i,
        {
            sz.push(0);
            cells.push(Vec::new());
            comp_clues.push(Vec::new());
            comp_rose.push(0);
            i = i + 1;
        }
        let mut c: usize = 0;
        while c < n
            invariant
                self.wf(),
                *self == base,
                clue_index_ok(self),
                n == self.grid.n_cells(),
                self.curr_comp_id@.len() == n,
                forall|a: int| 0 <= a < n && self.grid.cell_exists@[a] ==> #[trigger] self.curr_comp_id@[a] < num,
                c <= n,
                sz@.len() == num,
                cells@.len() == num,
                comp_clues@.len() == num,
                comp_rose@.len() == num,
                forall|x: int, j: int| 0 <= x < num && 0 <= j < cells@[x]@.len() ==> #[trigger] cells@[x]@[j] < c,
                forall|x: int| 0 <= x < num ==> #[trigger] sz@[x] == cells@[x]@.len(),
                forall|x: int| 0 <= x < num ==> #[trigger] sz@[x] <= c,
                forall|a: int|
                    0 <= a < c && self.grid.cell_exists@[a] ==> #[trigger] cells@[self.curr_comp_id@[a] as int]@.contains(
                        a as usize,
                    ),
                forall|x: int, j: int|
                    0 <= x < num && 0 <= j < comp_clues@[x]@.len() ==> #[trigger] comp_clues@[x]@[j] < self.puzzle.cell_clues@.len(),
            decreases n - c,
        {
            if self.grid.cell_exists[c] {
                let ci = self.curr_comp_id[c];
                let ghost cells0 = cells@;
                sz.set(ci, sz[ci] + 1);
                let mut list = Vec::new();
                std::mem::swap(&mut list, &mut cells[ci]);
                list.push(c);
                cells.set(ci, list);
                proof {
                    assert forall|a: int|
                        0 <= a < c + 1 && self.grid.cell_exists@[a] implies #[trigger] cells@[self.curr_comp_id@[a] as int]@.contains(
                            a as usize,
                        ) by {
                        let ca = self.curr_comp_id@[a] as int;
                        assert(cells@[ci as int]@ == cells0[ci as int]@.push(c));
                        if a == c {
                            assert(cells@[ci as int]@[cells0[ci as int]@.len() as int] == c);
                        } else {
                            assert(cells0[ca]@.contains(a as usize));
                            if ca == ci {
                                let w = choose|w: int| 0 <= w < cells0[ca]@.len() && cells0[ca]@[w] == a as usize;
                                assert(cells@[ca]@[w] == a as usize);
                            } else {
                                assert(cells@[ca] == cells0[ca]);
                            }
                        }
                    }
                }
                let nk = self.cell_clues_indexed[c].len();
                let mut j: usize = 0;
                while j < nk
                    invariant
                        self.wf(),
                        *self == base,
                        clue_index_ok(self),
                        n == self.grid.n_cells(),
                        c < n,
                        ci < num,
                        nk == self.cell_clues_indexed@[c as int]@.len(),
                        j <= nk,
                        comp_clues@.len() == num,
                        comp_rose@.len() == num,
                        forall|x: int, q: int|
                            0 <= x < num && 0 <= q < comp_clues@[x]@.len() ==> #[trigger] comp_clues@[x]@[q] < self.puzzle.cell_clues@.len(),
                    decreases nk - j,
                {
                    let k = self.cell_clues_indexed[c][j];
                    match &self.puzzle.cell_clues[k] {
                        CellClue::Rose { symbol, .. } => {
                            let bit: u8 = 1u8 << *symbol;
                            if comp_rose[ci] & bit != 0 {
                                return Err(());
                            }
                            comp_rose.set(ci, comp_rose[ci] | bit);
                        },
                        _ => {},
                    }
                    let ghost cc0 = comp_clues@;
                    let mut list = Vec::new();
                    std::mem::swap(&mut list, &mut comp_clues[ci]);
                    list.push(k);
                    comp_clues.set(ci, list);
                    proof {
                        assert forall|x: int, q: int|
                            0 <= x < num && 0 <= q < comp_clues@[x]@.len() implies #[trigger] comp_clues@[x]@[q]
                                < self.puzzle.cell_clues@.len() by {
                            if x != ci {
                                assert(comp_clues@[x] == cc0[x]);
                            } else if q < cc0[x]@.len() {
                                assert(comp_clues@[x]@[q] == cc0[x]@[q]);
                            }
                        }
                    }
                    j = j + 1;
                }
            }
            c = c + 1;
        }
        self.curr_comp_sz = sz;
        self.comp_cells = cells;
        Ok((comp_clues, comp_rose))
    }

    /// Labels every existing cell by a flood fill through uncut edges (the
    /// label is the first cell of its component), then numbers the labels in
    /// the order of the cells. Returns the number of components.
    fn label_cells(&mut self) -> (num: usize)
        requires
            old(self).wf(),
            old(self).comp_buf@.len() == old(self).grid.n_cells(),
        ensures
            final(self).wf(),
            final(self).edges == old(self).edges,
            final(self).changed == old(self).changed,
            final(self).is_pre_cut == old(self).is_pre_cut,
            final(self).manual_diffs == old(self).manual_diffs,
            final(self).manual_sames == old(self).manual_sames,
            final(self).puzzle == old(self).puzzle,
            final(self).grid == old(self).grid,
            final(self).cell_clues_indexed == old(self).cell_clues_indexed,
            final(self).eff_min_area == old(self).eff_min_area,
            final(self).eff_max_area == old(self).eff_max_area,
            final(self).cell_rose_sym == old(self).cell_rose_sym,
            final(self).rose_bits_all == old(self).rose_bits_all,
            final(self).rose_exact_piece_count == old(self).rose_exact_piece_count,
            final(self).comp_buf@.len() == old(self).grid.n_cells(),
            final(self).curr_comp_id@.len() == old(self).grid.n_cells(),
            num <= old(self).grid.n_cells(),
            forall|a: int|
                0 <= a < old(self).grid.n_cells() && old(self).grid.cell_exists@[a] ==> {
                    &&& #[trigger] final(self).curr_comp_id@[a] < num
                    &&& final(self).comp_buf@[a] < old(self).grid.n_cells()
                },
            forall|a: int, b: int|
                0 <= a < old(self).grid.n_cells() && 0 <= b < old(self).grid.n_cells() && old(self).grid.cell_exists@[a]
                    && old(self).grid.cell_exists@[b] ==> (#[trigger] final(self).curr_comp_id@[a]
                    == #[trigger] final(self).curr_comp_id@[b] <==> final(self).comp_buf@[a] == final(self).comp_buf@[b]),
            uncut_closed(old(self), final(self).comp_buf@),
            forall|a: int|
                0 <= a < old(self).grid.n_cells() && old(self).grid.cell_exists@[a] ==> uncut_from(
                    old(self),
                    #[trigger] final(self).comp_buf@[a] as int,
                    a,
                ),
    {
        let ghost base = *self;
        proof {
            self.grid.lemma_sizes();
        }
        let n = self.grid.num_cells();
        let mut i: usize = 0;
        while i < n
            invariant
                self.wf(),
                *self == (Solver { comp_buf: self.comp_buf, ..base }),
                n == self.grid.n_cells(),
                self.comp_buf@.len() == n,
                i <= n,
                forall|x: int| 0 <= x < i ==> #[trigger] self.comp_buf@[x] == usize::MAX,
            decreases n - i,
        {
            self.comp_buf.set(i, usize::MAX);
            i = i + 1;
        }
        proof {
            assert forall|e: int|
                #![trigger self.edges@[e]]
                0 <= e < self.grid.n_edges() && self.edges@[e] == EdgeState::Uncut && both_exist(self.grid, e) implies {
                    let a = self.grid.edge_cells_of(e).0;
                    let b = self.grid.edge_cells_of(e).1;
                    &&& self.comp_buf@[a] != usize::MAX ==> self.comp_buf@[b] == self.comp_buf@[a]
                    &&& self.comp_buf@[b] != usize::MAX ==> self.comp_buf@[a] == self.comp_buf@[b]
                } by {
                crate::grid::lemma_edge_cells_range(self.grid, e);
            }
        }
        let mut c: usize = 0;
        while c < n
            invariant
                self.wf(),
                n == self.grid.n_cells(),
                self.grid == base.grid,
                self.puzzle == base.puzzle,
                self.edges == base.edges,
                self.changed == base.changed,
                self.is_pre_cut == base.is_pre_cut,
                self.manual_diffs == base.manual_diffs,
                self.manual_sames == base.manual_sames,
                self.same_tables(&base),
                self.comp_buf@.len() == n,
                c <= n,
                forall|x: int| 0 <= x < n ==> (#[trigger] self.comp_buf@[x] == usize::MAX || self.comp_buf@[x] < n),
                forall|x: int| 0 <= x < c && self.grid.cell_exists@[x] ==> #[trigger] self.comp_buf@[x] != usize::MAX,
                uncut_closed(self, self.comp_buf@),
                forall|x: int| 0 <= x < n && #[trigger] self.comp_buf@[x] != usize::MAX ==> uncut_from(&base, self.comp_buf@[x] as int, x),
            decreases n - c,
        {
            if self.grid.cell_exists[c] && self.comp_buf[c] == usize::MAX {
                let ghost prev = self.comp_buf@;
                let ghost cur = *self;
                self.flood_fill_decided(c);
                proof {
                    lemma_flood_closed(&cur, prev, c as int);
                    assert forall|e: int|
                        #![trigger self.edges@[e]]
                        0 <= e < self.grid.n_edges() && self.edges@[e] == EdgeState::Uncut && both_exist(self.grid, e)
                            implies {
                            let a = self.grid.edge_cells_of(e).0;
                            let b = self.grid.edge_cells_of(e).1;
                            &&& self.comp_buf@[a] != usize::MAX ==> self.comp_buf@[b] == self.comp_buf@[a]
                            &&& self.comp_buf@[b] != usize::MAX ==> self.comp_buf@[a] == self.comp_buf@[b]
                        } by {
                        assert(cur.edges@[e] == self.edges@[e]);
                    }
                    assert forall|x: int| 0 <= x < n && #[trigger] self.comp_buf@[x] != usize::MAX implies uncut_from(
                        &base,
                        self.comp_buf@[x] as int,
                        x,
                    ) by {
                        if reaches(&cur, true, labelled(prev), seq![c], x) {
                            assert(self.comp_buf@[x] == c);
                            lemma_reach_mono(
                                &cur,
                                &base,
                                labelled(prev),
                                Seq::new(base.grid.n_cells() as nat, |i: int| false),
                                seq![c],
                                x,
                            );
                        } else {
                            assert(self.comp_buf@[x] == prev[x]);
                        }
                    }
                    lemma_source_reached(&cur, true, labelled(prev), seq![c], 0);
                    assert(self.comp_buf@ == flood_labels(&cur, prev, c as int));
                    assert forall|x: int| 0 <= x < n && prev[x] != usize::MAX implies #[trigger] self.comp_buf@[x] == prev[x] by {
                        if reaches(&cur, true, labelled(prev), seq![c], x) {
                            lemma_reached_unblocked(&cur, labelled(prev), seq![c], x);
                            assert(labelled(prev)[x]);
                        }
                    }
                    assert(self.comp_buf@[c as int] == c);
                }
            }
            c = c + 1;
        }
        let ghost mid = *self;
        let mut id_map: Vec<usize> = Vec::new();
        let mut k: usize = 0;
        while k < n
            invariant
                k <= n,
                id_map@.len() == k,
                forall|x: int| 0 <= x < k ==> #[trigger] id_map@[x] == usize::MAX,
            decreases n - k,
        {
            id_map.push(usize::MAX);
            k = k + 1;
        }
        let mut num: usize = 0;
        let mut c: usize = 0;
        while c < n
            invariant
                self.wf(),
                *self == mid,
                n == self.grid.n_cells(),
                self.comp_buf@.len() == n,
                id_map@.len() == n,
                c <= n,
                num <= c,
                forall|x: int| 0 <= x < n ==> (#[trigger] self.comp_buf@[x] == usize::MAX || self.comp_buf@[x] < n),
                forall|x: int| 0 <= x < n && self.grid.cell_exists@[x] ==> #[trigger] self.comp_buf@[x] != usize::MAX,
                forall|x: int| 0 <= x < n ==> (#[trigger] id_map@[x] == usize::MAX || id_map@[x] < num),
                forall|x: int, y: int|
                    0 <= x < n && 0 <= y < n && #[trigger] id_map@[x] != usize::MAX && id_map@[x] == #[trigger] id_map@[y]
                        ==> x == y,
                forall|x: int| 0 <= x < c && self.grid.cell_exists@[x] ==> #[trigger] id_map@[self.comp_buf@[x] as int] < num,
            decreases n - c,
        {
            if self.grid.cell_exists[c] {
                let rep = self.comp_buf[c];
                if id_map[rep] == usize::MAX {
                    id_map.set(rep, num);
                    num = num + 1;
                }
            }
            c = c + 1;
        }
        let ghost labels = self.comp_buf@;
        // Keep the old entries of the cells that do not exist, as a resize does.
        if self.curr_comp_id.len() > n {
            self.curr_comp_id.truncate(n);
        }
        while self.curr_comp_id.len() < n
            invariant
                self.wf(),
                *self == (Solver { curr_comp_id: self.curr_comp_id, ..mid }),
                self.comp_buf@ == labels,
                n == self.grid.n_cells(),
                self.curr_comp_id@.len() <= n,
            decreases n - self.curr_comp_id@.len(),
        {
            self.curr_comp_id.push(usize::MAX);
        }
        let mut c: usize = 0;
        while c < n
            invariant
                self.wf(),
                *self == (Solver { curr_comp_id: self.curr_comp_id, ..mid }),
                self.comp_buf@ == labels,
                n == self.grid.n_cells(),
                self.curr_comp_id@.len() == n,
                id_map@.len() == n,
                c <= n,
                labels.len() == n,
                forall|x: int| 0 <= x < n ==> (#[trigger] labels[x] == usize::MAX || labels[x] < n),
                forall|x: int| 0 <= x < n && self.grid.cell_exists@[x] ==> #[trigger] labels[x] != usize::MAX,
                forall|x: int| 0 <= x < n && self.grid.cell_exists@[x] ==> #[trigger] id_map@[labels[x] as int] < num,
                forall|x: int| 0 <= x < c && self.grid.cell_exists@[x] ==> #[trigger] self.curr_comp_id@[x] == id_map@[labels[x] as int],
            decreases n - c,
        {
            if self.grid.cell_exists[c] {
                self.curr_comp_id.set(c, id_map[self.comp_buf[c]]);
            }
            c = c + 1;
        }
        num
    }
}

} // verus!
