//! Palisade clues: how many of a cell's four sides are cut, and in which pattern.
use vstd::prelude::*;
use super::Solver;
use super::edge_state::{ops_in_range, set_all, EdgeForcer};
use crate::grid::Grid;
use crate::polyomino::Rotation;
use crate::types::{CellClue, EdgeState, PalisadeKind};

verus! {

/// The state of side `k` (north, south, west, east) of cell `c`; a side on
/// the border counts as cut.
pub open spec fn side_state(g: Grid, edges: Seq<EdgeState>, c: int, k: int) -> EdgeState {
    match g.cell_edges_spec(c)[k] {
        Some(e) => edges[e],
        None => EdgeState::Cut,
    }
}

/// Bit `k` of a side mask.
pub open spec fn bit(m: u8, k: int) -> bool {
    (m >> (k as u8)) & 1u8 == 1u8
}

/// What a palisade clue with no or all sides cut forces on its sides.
pub open spec fn all_or_none(g: Grid, clue: CellClue) -> Option<EdgeState> {
    match clue {
        CellClue::Palisade { cell, kind } => if g.cell_exists@[cell as int] && kind.spec_cut_count() == 0 {
            Some(EdgeState::Uncut)
        } else if g.cell_exists@[cell as int] && kind.spec_cut_count() == 4 {
            Some(EdgeState::Cut)
        } else {
            None
        },
        _ => None,
    }
}

/// Rotation `rot` of the clue's pattern agrees with the decided sides of cell `c`.
pub open spec fn rot_compatible(kind: PalisadeKind, g: Grid, edges: Seq<EdgeState>, c: int, rot: int) -> bool {
    let (ec, em) = kind.spec_pattern(rot);
    let cuts = side_count(g, edges, c, EdgeState::Cut, 4);
    let unknowns = side_count(g, edges, c, EdgeState::Unknown, 4);
    &&& cuts <= ec
    &&& cuts + unknowns >= ec
    &&& forall|k: int| 0 <= k < 4 && side_state(g, edges, c, k) == EdgeState::Cut ==> #[trigger] bit(em, k)
    &&& forall|k: int| 0 <= k < 4 && side_state(g, edges, c, k) == EdgeState::Uncut ==> !#[trigger] bit(em, k)
}

/// Number of the first `n` sides of cell `c` in state `s`.
pub open spec fn side_count(g: Grid, edges: Seq<EdgeState>, c: int, s: EdgeState, n: int) -> nat
    decreases n,
{
    if n <= 0 {
        0
    } else {
        side_count(g, edges, c, s, n - 1) + if side_state(g, edges, c, n - 1) == s {
            1nat
        } else {
            0nat
        }
    }
}

/// Some rotation of the clue fits the decided sides of its cell.
pub open spec fn any_compatible(kind: PalisadeKind, g: Grid, edges: Seq<EdgeState>, c: int) -> bool {
    exists|rot: int| 0 <= rot < 4 && #[trigger] rot_compatible(kind, g, edges, c, rot)
}

/// What the fitting rotations force on side `k`: the state that all of them
/// give it, when the side is an undecided edge.
pub open spec fn pattern_forced(kind: PalisadeKind, g: Grid, edges: Seq<EdgeState>, c: int, k: int) -> Option<EdgeState> {
    let can_cut = exists|rot: int|
        0 <= rot < 4 && #[trigger] rot_compatible(kind, g, edges, c, rot) && bit(kind.spec_pattern(rot).1, k);
    let can_uncut = exists|rot: int|
        0 <= rot < 4 && #[trigger] rot_compatible(kind, g, edges, c, rot) && !bit(kind.spec_pattern(rot).1, k);
    if side_state(g, edges, c, k) != EdgeState::Unknown || g.cell_edges_spec(c)[k] is None {
        None
    } else if can_cut && !can_uncut {
        Some(EdgeState::Cut)
    } else if !can_cut && can_uncut {
        Some(EdgeState::Uncut)
    } else {
        None
    }
}

/// What palisade clue `clue` forces on side `k` of its cell.
pub open spec fn clue_forced(g: Grid, edges: Seq<EdgeState>, clue: CellClue, k: int) -> Option<EdgeState> {
    match clue {
        CellClue::Palisade { cell, kind } => if g.cell_exists@[cell as int] {
            pattern_forced(kind, g, edges, cell as int, k)
        } else {
            None
        },
        _ => None,
    }
}

pub proof fn lemma_bit_values(m: u8)
    ensures
        bit(m, 0) == (m & 1u8 == 1u8),
        bit(m, 1) == ((m >> 1u8) & 1u8 == 1u8),
        bit(m, 2) == ((m >> 2u8) & 1u8 == 1u8),
        bit(m, 3) == ((m >> 3u8) & 1u8 == 1u8),
{
    assert(m >> 0u8 == m) by (bit_vector);
}

fn bit_exec(m: u8, k: usize) -> (r: bool)
    requires
        k < 4,
    ensures
        r == bit(m, k as int),
{
    (m >> (k as u8)) & 1u8 == 1u8
}

/// The decisions `st` on the undecided sides among the first `k` sides of cell `c`.
pub open spec fn side_ops(g: Grid, edges: Seq<EdgeState>, c: int, st: EdgeState, k: int) -> Seq<(usize, EdgeState)>
    decreases k,
{
    if k <= 0 {
        seq![]
    } else {
        let pre = side_ops(g, edges, c, st, k - 1);
        match g.cell_edges_spec(c)[k - 1] {
            Some(e) => if edges[e] == EdgeState::Unknown {
                pre.push((e as usize, st))
            } else {
                pre
            },
            None => pre,
        }
    }
}

/// The decisions of the first `n` clues that have no side or all sides cut.
pub open spec fn all_or_none_ops(g: Grid, clues: Seq<CellClue>, edges: Seq<EdgeState>, n: int) -> Seq<(usize, EdgeState)>
    decreases n,
{
    if n <= 0 {
        seq![]
    } else {
        let pre = all_or_none_ops(g, clues, edges, n - 1);
        match all_or_none(g, clues[n - 1]) {
            Some(st) => pre + side_ops(g, edges, clues[n - 1].spec_cell() as int, st, 4),
            None => pre,
        }
    }
}

proof fn lemma_side_ops(g: Grid, edges: Seq<EdgeState>, c: int, st: EdgeState, k: int)
    requires
        0 <= k <= 4,
        g.wf(),
        0 <= c < g.n_cells(),
        edges.len() == g.n_edges(),
    ensures
        forall|j: int|
            0 <= j < side_ops(g, edges, c, st, k).len() ==> exists|q: int|
                0 <= q < k && g.cell_edges_spec(c)[q] == Some((#[trigger] side_ops(g, edges, c, st, k)[j]).0 as int)
                    && side_ops(g, edges, c, st, k)[j].1 == st && edges[side_ops(g, edges, c, st, k)[j].0 as int]
                    == EdgeState::Unknown,
        forall|q: int|
            0 <= q < k && (#[trigger] g.cell_edges_spec(c)[q]) is Some && edges[g.cell_edges_spec(c)[q]->0]
                == EdgeState::Unknown ==> side_ops(g, edges, c, st, k).contains(
                (g.cell_edges_spec(c)[q]->0 as usize, st),
            ),
        forall|j: int| 0 <= j < side_ops(g, edges, c, st, k).len() ==> (#[trigger] side_ops(g, edges, c, st, k)[j]).0 < g.n_edges(),
    decreases k,
{
    if k > 0 {
        lemma_side_ops(g, edges, c, st, k - 1);
        lemma_cell_edges_range(g, c);
        g.lemma_sizes();
        let pre = side_ops(g, edges, c, st, k - 1);
        let cur = side_ops(g, edges, c, st, k);
        assert forall|q: int|
            0 <= q < k && (#[trigger] g.cell_edges_spec(c)[q]) is Some && edges[g.cell_edges_spec(c)[q]->0]
                == EdgeState::Unknown implies cur.contains((g.cell_edges_spec(c)[q]->0 as usize, st)) by {
            if q < k - 1 {
                let j = choose|j: int| 0 <= j < pre.len() && pre[j] == (g.cell_edges_spec(c)[q]->0 as usize, st);
                assert(cur[j] == pre[j]);
            } else {
                assert(cur[cur.len() - 1] == (g.cell_edges_spec(c)[q]->0 as usize, st));
            }
        }
        assert forall|j: int| 0 <= j < cur.len() implies exists|q: int|
            0 <= q < k && g.cell_edges_spec(c)[q] == Some((#[trigger] cur[j]).0 as int) && cur[j].1 == st
                && edges[cur[j].0 as int] == EdgeState::Unknown by {
            if j < pre.len() {
                assert(cur[j] == pre[j]);
                assert(exists|q: int|
                    0 <= q < k - 1 && g.cell_edges_spec(c)[q] == Some((#[trigger] pre[j]).0 as int) && pre[j].1 == st
                        && edges[pre[j].0 as int] == EdgeState::Unknown);
            } else {
                assert(g.cell_edges_spec(c)[k - 1] == Some(cur[j].0 as int));
            }
        }
    }
}

/// The sides of a cell are edges of the grid.
pub proof fn lemma_cell_edges_range(g: Grid, c: int)
    requires
        g.wf(),
        0 <= c < g.n_cells(),
    ensures
        forall|q: int| 0 <= q < 4 ==> (#[trigger] g.cell_edges_spec(c)[q] matches Some(e) ==> 0 <= e < g.n_edges()),
{
    // `cell_edges` proves the range for its results; restate it for the spec.
    assert forall|q: int| 0 <= q < 4 implies (#[trigger] g.cell_edges_spec(c)[q] matches Some(e) ==> 0 <= e < g.n_edges()) by {
        crate::grid::lemma_div_mod_in_box(c, g.rows as int, g.cols as int);
        g.lemma_sizes();
        let r = c / g.cols as int;
        let col = c % g.cols as int;
        if q == 0 && r > 0 {
            crate::grid::lemma_index_in_box(col, r - 1, g.cols as int, g.rows - 1);
            assert((g.cols as int) * (g.rows - 1) == (g.rows - 1) * (g.cols as int)) by (nonlinear_arith);
        } else if q == 1 && r < g.rows - 1 {
            crate::grid::lemma_index_in_box(col, r, g.cols as int, g.rows - 1);
            assert((g.cols as int) * (g.rows - 1) == (g.rows - 1) * (g.cols as int)) by (nonlinear_arith);
        } else if q == 2 && col > 0 {
            crate::grid::lemma_index_in_box(r, col - 1, g.rows as int, g.cols - 1);
        } else if q == 3 && col < g.cols - 1 {
            crate::grid::lemma_index_in_box(r, col, g.rows as int, g.cols - 1);
        }
    }
}

impl Solver {
    /// The state of each side of cell `c`, a border side counting as cut.
    fn side_states(&self, c: usize) -> (r: ([Option<usize>; 4], [EdgeState; 4]))
        requires
            self.wf(),
            c < self.grid.n_cells(),
        ensures
            forall|k: int| 0 <= k < 4 ==> #[trigger] r.0@[k] == crate::grid::opt_usize(self.grid.cell_edges_spec(c as int)[k]),
            forall|k: int| 0 <= k < 4 ==> (#[trigger] r.0@[k] matches Some(e) ==> e < self.grid.n_edges()),
            forall|k: int| 0 <= k < 4 ==> #[trigger] r.1@[k] == side_state(self.grid, self.edges@, c as int, k),
    {
        let ne = self.grid.cell_edges(c).into_array();
        let mut st = [EdgeState::Cut; 4];
        let mut k: usize = 0;
        while k < 4
            invariant
                self.wf(),
                c < self.grid.n_cells(),
                k <= 4,
                ne@ == seq![
                    crate::grid::opt_usize(self.grid.cell_edges_spec(c as int)[0]),
                    crate::grid::opt_usize(self.grid.cell_edges_spec(c as int)[1]),
                    crate::grid::opt_usize(self.grid.cell_edges_spec(c as int)[2]),
                    crate::grid::opt_usize(self.grid.cell_edges_spec(c as int)[3]),
                ],
                forall|j: int| 0 <= j < 4 ==> (#[trigger] ne@[j] matches Some(e) ==> e < self.grid.n_edges()),
                forall|j: int| 0 <= j < k ==> #[trigger] st@[j] == side_state(self.grid, self.edges@, c as int, j),
            decreases 4 - k,
        {
            let s = match ne[k] {
                Some(e) => self.edges[e],
                None => EdgeState::Cut,
            };
            proof {
                lemma_cell_edges_range(self.grid, c as int);
                self.grid.lemma_sizes();
                assert(ne@[k as int] == crate::grid::opt_usize(self.grid.cell_edges_spec(c as int)[k as int]));
                assert(s == side_state(self.grid, self.edges@, c as int, k as int));
            }
            st[k] = s;
            k = k + 1;
        }
        (ne, st)
    }

    /// Palisade clues with no side or all sides cut: their undecided sides
    /// become uncut, or cut.
    pub fn propagate_palisade(&mut self)
        requires
            old(self).wf(),
        ensures
            final(self).wf(),
            final(self).same_tables(old(self)),
            final(self).is_pre_cut == old(self).is_pre_cut,
            final(self).manual_diffs == old(self).manual_diffs,
            final(self).manual_sames == old(self).manual_sames,
            (final(self).edges@, final(self).changed@) == set_all(
                old(self).edges@,
                old(self).changed@,
                all_or_none_ops(
                    old(self).grid,
                    old(self).puzzle.cell_clues@,
                    old(self).edges@,
                    old(self).puzzle.cell_clues@.len() as int,
                ),
            ),
    {
        let ghost g = self.grid;
        let ghost clues = self.puzzle.cell_clues@;
        let ghost e0 = self.edges@;
        let mut ef = EdgeForcer::new();
        let mut i: usize = 0;
        while i < self.puzzle.cell_clues.len()
            invariant
                self.wf(),
                g == self.grid,
                clues == self.puzzle.cell_clues@,
                e0 == self.edges@,
                i <= clues.len(),
                ef.edges@ == all_or_none_ops(g, clues, e0, i as int),
                ops_in_range(ef.edges@, e0.len() as int),
            decreases clues.len() - i,
        {
            let ghost before = ef.edges@;
            if let CellClue::Palisade { cell, kind } = &self.puzzle.cell_clues[i] {
                let c = *cell;
                let kd = *kind;
                if self.grid.cell_exists[c] {
                    let num_cut = kd.cut_count();
                    if num_cut == 0 || num_cut == 4 {
                        let state = if num_cut == 0 { EdgeState::Uncut } else { EdgeState::Cut };
                        let ne = self.grid.cell_edges(c).into_array();
                        proof {
                            lemma_side_ops(g, e0, c as int, state, 4);
                        }
                        let mut k: usize = 0;
                        while k < 4
                            invariant
                                self.wf(),
                                g == self.grid,
                                e0 == self.edges@,
                                k <= 4,
                                c < g.n_cells(),
                                ne@ == seq![
                                    crate::grid::opt_usize(g.cell_edges_spec(c as int)[0]),
                                    crate::grid::opt_usize(g.cell_edges_spec(c as int)[1]),
                                    crate::grid::opt_usize(g.cell_edges_spec(c as int)[2]),
                                    crate::grid::opt_usize(g.cell_edges_spec(c as int)[3]),
                                ],
                                forall|j: int| 0 <= j < 4 ==> (#[trigger] ne@[j] matches Some(e) ==> e < g.n_edges()),
                                ef.edges@ == before + side_ops(g, e0, c as int, state, k as int),
                                ops_in_range(before, e0.len() as int),
                            decreases 4 - k,
                        {
                            let ghost b2 = ef.edges@;
                            if let Some(eid) = ne[k] {
                                if self.edges[eid] == EdgeState::Unknown {
                                    ef.force(eid, state);
                                }
                            }
                            proof {
                                lemma_cell_edges_range(g, c as int);
                                g.lemma_sizes();
                                assert(ne@[k as int] == crate::grid::opt_usize(g.cell_edges_spec(c as int)[k as int]));
                                assert(ef.edges@ =~= before + side_ops(g, e0, c as int, state, k + 1));
                            }
                            k = k + 1;
                        }
                        proof {
                            assert(all_or_none(g, clues[i as int]) == Some(state));
                            lemma_side_ops(g, e0, c as int, state, 4);
                            assert forall|j: int| 0 <= j < ef.edges@.len() implies (#[trigger] ef.edges@[j]).0 < e0.len() by {
                                if j >= before.len() {
                                    assert(ef.edges@[j] == side_ops(g, e0, c as int, state, 4)[j - before.len()]);
                                }
                            }
                        }
                    }
                }
            }
            proof {
                assert(ef.edges@ =~= all_or_none_ops(g, clues, e0, i + 1));
            }
            i = i + 1;
        }
        let _ = ef.apply(self);
    }
}


/// The decisions that clue `clue` forces on the first `k` sides of its cell.
pub open spec fn pattern_side_ops(g: Grid, edges: Seq<EdgeState>, clue: CellClue, k: int) -> Seq<(usize, EdgeState)>
    decreases k,
{
    if k <= 0 {
        seq![]
    } else {
        let pre = pattern_side_ops(g, edges, clue, k - 1);
        match (clue_forced(g, edges, clue, k - 1), g.cell_edges_spec(clue.spec_cell() as int)[k - 1]) {
            (Some(st), Some(e)) => pre.push((e as usize, st)),
            _ => pre,
        }
    }
}

/// The decisions forced by the first `n` clues.
pub open spec fn pattern_ops(g: Grid, clues: Seq<CellClue>, edges: Seq<EdgeState>, n: int) -> Seq<(usize, EdgeState)>
    decreases n,
{
    if n <= 0 {
        seq![]
    } else {
        pattern_ops(g, clues, edges, n - 1) + pattern_side_ops(g, edges, clues[n - 1], 4)
    }
}

/// A palisade clue on an existing cell that no rotation of its pattern fits.
pub open spec fn palisade_conflict(g: Grid, edges: Seq<EdgeState>, clue: CellClue) -> bool {
    match clue {
        CellClue::Palisade { cell, kind } => g.cell_exists@[cell as int] && !any_compatible(kind, g, edges, cell as int),
        _ => false,
    }
}

proof fn lemma_any_undecided_first(
    edges: Seq<EdgeState>,
    log: Seq<(usize, EdgeState)>,
    ops: Seq<(usize, EdgeState)>,
)
    requires
        ops.len() > 0,
        edges[ops[0].0 as int] == EdgeState::Unknown,
    ensures
        crate::solver::edge_state::any_undecided(edges, log, ops),
    decreases ops.len(),
{
    if ops.len() > 1 {
        assert(ops.drop_last()[0] == ops[0]);
        lemma_any_undecided_first(edges, log, ops.drop_last());
    } else {
        assert(ops.drop_last().len() == 0);
    }
}

proof fn lemma_pattern_side_ops(g: Grid, edges: Seq<EdgeState>, clue: CellClue, k: int)
    requires
        0 <= k <= 4,
        g.wf(),
        0 <= clue.spec_cell() < g.n_cells(),
        edges.len() == g.n_edges(),
    ensures
        forall|j: int|
            0 <= j < pattern_side_ops(g, edges, clue, k).len() ==> (#[trigger] pattern_side_ops(g, edges, clue, k)[j]).0
                < g.n_edges() && edges[pattern_side_ops(g, edges, clue, k)[j].0 as int] == EdgeState::Unknown,
    decreases k,
{
    if k > 0 {
        lemma_pattern_side_ops(g, edges, clue, k - 1);
        lemma_cell_edges_range(g, clue.spec_cell() as int);
        g.lemma_sizes();
    }
}

impl Solver {
    /// Palisade propagation: for each palisade clue, the rotations of its
    /// pattern that fit the decided sides; a side that all of them cut (or
    /// all leave uncut) is decided so. Fails when some clue has no fitting
    /// rotation, deciding nothing.
    pub fn propagate_palisade_constraints(&mut self) -> (r: Result<bool, ()>)
        requires
            old(self).wf(),
        ensures
            final(self).wf(),
            final(self).same_tables(old(self)),
            final(self).is_pre_cut == old(self).is_pre_cut,
            final(self).manual_diffs == old(self).manual_diffs,
            final(self).manual_sames == old(self).manual_sames,
            r is Err <==> exists|i: int|
                0 <= i < old(self).puzzle.cell_clues@.len() && #[trigger] palisade_conflict(
                    old(self).grid,
                    old(self).edges@,
                    old(self).puzzle.cell_clues@[i],
                ),
            r is Err ==> final(self).edges == old(self).edges && final(self).changed == old(self).changed,
            r is Ok ==> (final(self).edges@, final(self).changed@) == set_all(
                old(self).edges@,
                old(self).changed@,
                pattern_ops(
                    old(self).grid,
                    old(self).puzzle.cell_clues@,
                    old(self).edges@,
                    old(self).puzzle.cell_clues@.len() as int,
                ),
            ),
            r matches Ok(p) ==> p == (pattern_ops(
                old(self).grid,
                old(self).puzzle.cell_clues@,
                old(self).edges@,
                old(self).puzzle.cell_clues@.len() as int,
            ).len() > 0),
    {
        let ghost g = self.grid;
        let ghost clues = self.puzzle.cell_clues@;
        let ghost e0 = self.edges@;
        let mut ef = EdgeForcer::new();
        let mut i: usize = 0;
        while i < self.puzzle.cell_clues.len()
            invariant
                self.wf(),
                g == self.grid,
                clues == self.puzzle.cell_clues@,
                e0 == self.edges@,
                self.edges == old(self).edges,
                self.changed == old(self).changed,
                self.same_tables(old(self)),
                self.is_pre_cut == old(self).is_pre_cut,
                self.manual_diffs == old(self).manual_diffs,
                self.manual_sames == old(self).manual_sames,
                i <= clues.len(),
                ef.edges@ == pattern_ops(g, clues, e0, i as int),
                forall|j: int| 0 <= j < ef.edges@.len() ==> (#[trigger] ef.edges@[j]).0 < e0.len() && e0[ef.edges@[j].0 as int] == EdgeState::Unknown,
                forall|t: int| 0 <= t < i ==> !#[trigger] palisade_conflict(g, e0, clues[t]),
            decreases clues.len() - i,
        {
            let ghost before = ef.edges@;
            proof {
                lemma_pattern_side_ops(g, e0, clues[i as int], 4);
            }
            if let CellClue::Palisade { cell, kind } = &self.puzzle.cell_clues[i] {
                let c = *cell;
                let kd = *kind;
                if self.grid.cell_exists[c] {
                    let (ne, states) = self.side_states(c);
                    let mut cuts: usize = 0;
                    let mut unknowns: usize = 0;
                    let mut k: usize = 0;
                    while k < 4
                        invariant
                            k <= 4,
                            cuts == side_count(g, e0, c as int, EdgeState::Cut, k as int),
                            unknowns == side_count(g, e0, c as int, EdgeState::Unknown, k as int),
                            cuts <= k,
                            unknowns <= k,
                            forall|q: int| 0 <= q < 4 ==> #[trigger] states@[q] == side_state(g, e0, c as int, q),
                        decreases 4 - k,
                    {
                        if states[k] == EdgeState::Cut {
                            cuts = cuts + 1;
                        } else if states[k] == EdgeState::Unknown {
                            unknowns = unknowns + 1;
                        }
                        k = k + 1;
                    }
                    let mut can_cut = [false; 4];
                    let mut can_uncut = [false; 4];
                    let mut any = false;
                    let mut rot: usize = 0;
                    while rot < 4
                        invariant
                            rot <= 4,
                            cuts <= 4,
                            unknowns <= 4,
                            cuts == side_count(g, e0, c as int, EdgeState::Cut, 4),
                            unknowns == side_count(g, e0, c as int, EdgeState::Unknown, 4),
                            forall|q: int| 0 <= q < 4 ==> #[trigger] states@[q] == side_state(g, e0, c as int, q),
                            any == exists|t: int| 0 <= t < rot && #[trigger] rot_compatible(kd, g, e0, c as int, t),
                            forall|q: int|
                                0 <= q < 4 ==> (#[trigger] can_cut@[q] == exists|t: int|
                                    0 <= t < rot && #[trigger] rot_compatible(kd, g, e0, c as int, t) && bit(kd.spec_pattern(t).1, q)),
                            forall|q: int|
                                0 <= q < 4 ==> (#[trigger] can_uncut@[q] == exists|t: int|
                                    0 <= t < rot && #[trigger] rot_compatible(kd, g, e0, c as int, t) && !bit(kd.spec_pattern(t).1, q)),
                        decreases 4 - rot,
                    {
                        let (ec, em) = kd.pattern_at_rotation(rot);
                        let mut ok = cuts <= ec && cuts + unknowns >= ec;
                        let mut k: usize = 0;
                        while k < 4
                            invariant
                                k <= 4,
                                forall|q: int| 0 <= q < 4 ==> #[trigger] states@[q] == side_state(g, e0, c as int, q),
                                ok == (cuts <= ec && cuts + unknowns >= ec && (forall|q: int|
                                    0 <= q < k && side_state(g, e0, c as int, q) == EdgeState::Cut ==> #[trigger] bit(em, q))
                                    && (forall|q: int|
                                    0 <= q < k && side_state(g, e0, c as int, q) == EdgeState::Uncut ==> !#[trigger] bit(em, q))),
                            decreases 4 - k,
                        {
                            let b = bit_exec(em, k);
                            if states[k] == EdgeState::Cut && !b {
                                ok = false;
                            }
                            if states[k] == EdgeState::Uncut && b {
                                ok = false;
                            }
                            k = k + 1;
                        }
                        proof {
                            assert(ok == rot_compatible(kd, g, e0, c as int, rot as int));
                        }
                        let ghost cc0 = can_cut@;
                        let ghost cu0 = can_uncut@;
                        if ok {
                            any = true;
                            let mut k: usize = 0;
                            while k < 4
                                invariant
                                    k <= 4,
                                    ok,
                                    forall|q: int| 0 <= q < 4 ==> #[trigger] can_cut@[q] == (cc0[q] || (q < k && bit(em, q))),
                                    forall|q: int| 0 <= q < 4 ==> #[trigger] can_uncut@[q] == (cu0[q] || (q < k && !bit(em, q))),
                                decreases 4 - k,
                            {
                                if bit_exec(em, k) {
                                    can_cut[k] = true;
                                } else {
                                    can_uncut[k] = true;
                                }
                                k = k + 1;
                            }
                        }
                        proof {
                            assert forall|q: int| 0 <= q < 4 implies (#[trigger] can_cut@[q] == exists|t: int|
                                0 <= t < rot + 1 && #[trigger] rot_compatible(kd, g, e0, c as int, t) && bit(kd.spec_pattern(t).1, q)) by {
                                if ok && bit(em, q) {
                                    assert(rot_compatible(kd, g, e0, c as int, rot as int) && bit(kd.spec_pattern(rot as int).1, q));
                                }
                            }
                            assert forall|q: int| 0 <= q < 4 implies (#[trigger] can_uncut@[q] == exists|t: int|
                                0 <= t < rot + 1 && #[trigger] rot_compatible(kd, g, e0, c as int, t) && !bit(kd.spec_pattern(t).1, q)) by {
                                if ok && !bit(em, q) {
                                    assert(rot_compatible(kd, g, e0, c as int, rot as int) && !bit(kd.spec_pattern(rot as int).1, q));
                                }
                            }
                            if ok {
                                assert(rot_compatible(kd, g, e0, c as int, rot as int));
                            }
                        }
                        rot = rot + 1;
                    }
                    if !any {
                        proof {
                            assert(palisade_conflict(g, e0, clues[i as int]));
                        }
                        return Err(());
                    }
                    proof {
                        lemma_cell_edges_range(g, c as int);
                        g.lemma_sizes();
                    }
                    let mut k: usize = 0;
                    while k < 4
                        invariant
                            self.wf(),
                            g == self.grid,
                            e0 == self.edges@,
                            k <= 4,
                            c < g.n_cells(),
                            clues[i as int] == (CellClue::Palisade { cell: c, kind: kd }),
                            g.cell_exists@[c as int],
                            forall|q: int| 0 <= q < 4 ==> #[trigger] ne@[q] == crate::grid::opt_usize(g.cell_edges_spec(c as int)[q]),
                            forall|q: int| 0 <= q < 4 ==> (#[trigger] ne@[q] matches Some(e) ==> e < g.n_edges()),
                            forall|q: int| 0 <= q < 4 ==> (#[trigger] g.cell_edges_spec(c as int)[q] matches Some(e) ==> 0 <= e < g.n_edges()),
                            forall|q: int| 0 <= q < 4 ==> #[trigger] states@[q] == side_state(g, e0, c as int, q),
                            forall|q: int|
                                0 <= q < 4 ==> (#[trigger] can_cut@[q] == exists|t: int|
                                    0 <= t < 4 && #[trigger] rot_compatible(kd, g, e0, c as int, t) && bit(kd.spec_pattern(t).1, q)),
                            forall|q: int|
                                0 <= q < 4 ==> (#[trigger] can_uncut@[q] == exists|t: int|
                                    0 <= t < 4 && #[trigger] rot_compatible(kd, g, e0, c as int, t) && !bit(kd.spec_pattern(t).1, q)),
                            ef.edges@ == before + pattern_side_ops(g, e0, clues[i as int], k as int),
                        decreases 4 - k,
                    {
                        proof {
                            assert(g.cell_exists@[clues[i as int].spec_cell() as int]);
                        }
                        if states[k] == EdgeState::Unknown {
                            if let Some(eid) = ne[k] {
                                if can_cut[k] && !can_uncut[k] {
                                    ef.force_cut(eid);
                                } else if !can_cut[k] && can_uncut[k] {
                                    ef.force_uncut(eid);
                                }
                            }
                        }
                        proof {
                            assert(ef.edges@ =~= before + pattern_side_ops(g, e0, clues[i as int], k + 1));
                        }
                        k = k + 1;
                    }
                } else {
                    proof {
                        assert(pattern_side_ops(g, e0, clues[i as int], 4) =~= seq![]) by {
                            assert(pattern_side_ops(g, e0, clues[i as int], 0) =~= seq![]);
                            assert(pattern_side_ops(g, e0, clues[i as int], 1) =~= seq![]);
                            assert(pattern_side_ops(g, e0, clues[i as int], 2) =~= seq![]);
                            assert(pattern_side_ops(g, e0, clues[i as int], 3) =~= seq![]);
                        }
                        assert(ef.edges@ =~= before + pattern_side_ops(g, e0, clues[i as int], 4));
                    }
                }
            } else {
                proof {
                    assert(pattern_side_ops(g, e0, clues[i as int], 4) =~= seq![]) by {
                        assert(pattern_side_ops(g, e0, clues[i as int], 0) =~= seq![]);
                        assert(pattern_side_ops(g, e0, clues[i as int], 1) =~= seq![]);
                        assert(pattern_side_ops(g, e0, clues[i as int], 2) =~= seq![]);
                        assert(pattern_side_ops(g, e0, clues[i as int], 3) =~= seq![]);
                    }
                    assert(ef.edges@ =~= before + pattern_side_ops(g, e0, clues[i as int], 4));
                }
            }
            proof {
                assert(ef.edges@ =~= pattern_ops(g, clues, e0, i + 1));
                assert forall|j: int| 0 <= j < ef.edges@.len() implies (#[trigger] ef.edges@[j]).0 < e0.len() && e0[ef.edges@[j].0 as int] == EdgeState::Unknown by {
                    if j >= before.len() {
                        assert(ef.edges@[j] == pattern_side_ops(g, e0, clues[i as int], 4)[j - before.len()]);
                    }
                }
            }
            i = i + 1;
        }
        if ef.is_empty() {
            return Ok(false);
        }
        proof {
            lemma_any_undecided_first(e0, self.changed@, ef.edges@);
        }
        ef.apply(self)
    }
}

} // verus!
