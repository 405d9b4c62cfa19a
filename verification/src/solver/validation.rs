//! Checking a division of the grid into pieces against the rules and clues.
use vstd::prelude::*;
use super::{clues_fit, Solver};
use super::clue_check::{cell_clues_hold, edge_clues_hold, rose_window_ok, vertex_clues_hold};
use super::components::{divides, piece_of_cells};
use crate::grid::Grid;
use crate::polyomino::{self, canonical_spec, piece_is_rectangular, puzzle_shapes_ok, shape_ok};
use crate::types::{CellClue, EdgeId, EdgeState, GlobalRules, Piece, Puzzle, Shape};

verus! {

/// The piece that cell `c` belongs to among the first `k` pieces: the last
/// one that lists it, or `usize::MAX`.
pub open spec fn piece_of(pieces: Seq<Piece>, c: int, k: int) -> usize
    decreases k,
{
    if k <= 0 {
        usize::MAX
    } else if pieces[k - 1].cells@.contains(c as usize) {
        (k - 1) as usize
    } else {
        piece_of(pieces, c, k - 1)
    }
}

/// The piece of cell `c`.
pub open spec fn cp(pieces: Seq<Piece>, c: int) -> usize {
    piece_of(pieces, c, pieces.len() as int)
}

/// Both cells of edge `e` exist.
pub open spec fn both_exist(g: Grid, e: int) -> bool {
    g.cell_exists@[g.edge_cells_of(e).0] && g.cell_exists@[g.edge_cells_of(e).1]
}

/// Every cell of every piece is a cell of the grid.
pub open spec fn pieces_in_grid(pieces: Seq<Piece>, g: Grid) -> bool {
    forall|p: int, k: int| 0 <= p < pieces.len() && 0 <= k < pieces[p].cells@.len() ==> #[trigger] pieces[p].cells@[k] < g.n_cells()
}

/// Every existing cell lies in some piece.
pub open spec fn pieces_cover(pieces: Seq<Piece>, g: Grid) -> bool {
    forall|c: int| 0 <= c < g.n_cells() && g.cell_exists@[c] ==> #[trigger] cp(pieces, c) != usize::MAX
}


/// The minimum and maximum rules hold for a piece, and the boxy rules.
pub open spec fn piece_rules_ok(r: GlobalRules, g: Grid, p: Piece) -> bool {
    &&& (r.minimum matches Some(m) ==> p.area >= m)
    &&& (r.maximum matches Some(m) ==> p.area <= m)
    &&& (r.boxy ==> piece_is_rectangular(p.cells@, g.rows as int, g.cols as int))
    &&& (r.non_boxy ==> !piece_is_rectangular(p.cells@, g.rows as int, g.cols as int))
}

/// Number of clues on existing cells that the piece's cells hold.
pub open spec fn clues_in(clues: Seq<CellClue>, g: Grid, cells: Seq<usize>, k: int) -> nat
    decreases k,
{
    if k <= 0 {
        0
    } else {
        clues_in(clues, g, cells, k - 1) + if g.cell_exists@[clues[k - 1].spec_cell() as int] && cells.contains(
            clues[k - 1].spec_cell(),
        ) {
            1nat
        } else {
            0nat
        }
    }
}

/// The state of the edges that a solution gives: its decided edges, and
/// for its undecided ones, cut beside a missing cell or where the drawing
/// cuts, undecided elsewhere.
pub open spec fn settled_edges(g: Grid, pre: Seq<EdgeId>, sol: Seq<EdgeState>) -> Seq<EdgeState> {
    Seq::new(
        g.n_edges() as nat,
        |e: int|
            if sol[e] != EdgeState::Unknown {
                sol[e]
            } else if !both_exist(g, e) || pre.contains(e as usize) {
                EdgeState::Cut
            } else {
                EdgeState::Unknown
            },
    )
}

/// `s` is the solver state for a parsed solution of the puzzle, and `ps`
/// its division into pieces: the puzzle and grid as given, the drawing's
/// cuts marked, the edges settled (see `settled_edges`).
pub open spec fn parsed_board(
    s: &Solver,
    ps: Seq<Piece>,
    puzzle: Puzzle,
    grid: Grid,
    pre: Seq<EdgeId>,
    sol: Seq<EdgeState>,
) -> bool {
    &&& s.wf()
    &&& s.puzzle == puzzle
    &&& s.grid == grid
    &&& s.is_pre_cut@ == Seq::new(grid.n_edges() as nat, |e: int| pre.contains(e as usize))
    &&& s.edges@ == settled_edges(grid, pre, sol)
    &&& divides(s, ps)
}

/// The division into `pieces` obeys every rule and every clue.
pub open spec fn valid_division(s: &Solver, pieces: Seq<Piece>) -> bool {
    &&& pieces.len() > 0
    &&& structure_ok(s, pieces)
    &&& cell_clues_hold(s, pieces)
    &&& rose_window_ok(s.puzzle.cell_clues@, pieces)
    &&& edge_clues_hold(s, pieces)
    &&& vertex_clues_hold(s, pieces)
}

/// No piece is empty.
pub open spec fn pieces_nonempty(pieces: Seq<Piece>) -> bool {
    forall|p: int| 0 <= p < pieces.len() ==> (#[trigger] pieces[p]).cells@.len() > 0
}

/// The drawing's cuts are cut and separate two pieces, and no edge is
/// left undecided.
pub open spec fn edges_settled(s: &Solver, pieces: Seq<Piece>) -> bool {
    let g = s.grid;
    &&& forall|e: int| 0 <= e < g.n_edges() && #[trigger] s.is_pre_cut@[e] ==> s.edges@[e] == EdgeState::Cut
    &&& forall|e: int|
        0 <= e < g.n_edges() && #[trigger] s.is_pre_cut@[e] && both_exist(g, e) ==> cp(pieces, g.edge_cells_of(e).0)
            != cp(pieces, g.edge_cells_of(e).1)
    &&& forall|e: int| 0 <= e < g.n_edges() ==> #[trigger] s.edges@[e] != EdgeState::Unknown
}

/// Every piece keeps the area bounds and the boxy rules.
pub open spec fn pieces_rules_ok(r: GlobalRules, g: Grid, pieces: Seq<Piece>) -> bool {
    forall|p: int| 0 <= p < pieces.len() ==> piece_rules_ok(r, g, #[trigger] pieces[p])
}

/// All pieces have the shape of the first.
pub open spec fn all_match(pieces: Seq<Piece>) -> bool {
    forall|p: int| 1 <= p < pieces.len() ==> (#[trigger] pieces[p]).canonical@ == pieces[0].canonical@
}

/// No two pieces have the same shape.
pub open spec fn all_differ(pieces: Seq<Piece>) -> bool {
    forall|i: int, j: int| 0 <= i < j < pieces.len() ==> (#[trigger] pieces[i]).canonical@ != (#[trigger] pieces[j]).canonical@
}

/// Edge `e` is cut between two existing cells of different pieces.
pub open spec fn separates(s: &Solver, pieces: Seq<Piece>, e: int) -> bool {
    let g = s.grid;
    &&& s.edges@[e] == EdgeState::Cut
    &&& both_exist(g, e)
    &&& cp(pieces, g.edge_cells_of(e).0) != cp(pieces, g.edge_cells_of(e).1)
}

/// The two pieces that edge `e` separates.
pub open spec fn sides(s: &Solver, pieces: Seq<Piece>, e: int) -> (Piece, Piece) {
    let g = s.grid;
    (pieces[cp(pieces, g.edge_cells_of(e).0) as int], pieces[cp(pieces, g.edge_cells_of(e).1) as int])
}

/// Pieces side by side differ in area (size separation) and, with the
/// mingle rule, have the same shape.
pub open spec fn neighbours_ok(s: &Solver, pieces: Seq<Piece>) -> bool {
    let r = s.puzzle.rules;
    forall|e: int|
        0 <= e < s.grid.n_edges() && #[trigger] separates(s, pieces, e) ==> {
            &&& (r.size_separation ==> sides(s, pieces, e).0.area != sides(s, pieces, e).1.area)
            &&& (r.mingle_shape ==> sides(s, pieces, e).0.canonical@ == sides(s, pieces, e).1.canonical@)
        }
}

/// The shape of the piece is in the bank, up to rotation and mirroring.
pub open spec fn in_bank(bank: Seq<Shape>, p: Piece) -> bool {
    exists|b: int| 0 <= b < bank.len() && canonical_spec(p.canonical@) == canonical_spec(#[trigger] bank[b]@)
}

/// Every piece has a shape of the bank.
pub open spec fn bank_ok(bank: Seq<Shape>, pieces: Seq<Piece>) -> bool {
    forall|p: int| 0 <= p < pieces.len() ==> in_bank(bank, #[trigger] pieces[p])
}

/// Every piece holds exactly one clue.
pub open spec fn solitary(s: &Solver, pieces: Seq<Piece>) -> bool {
    forall|p: int|
        0 <= p < pieces.len() ==> clues_in(s.puzzle.cell_clues@, s.grid, (#[trigger] pieces[p]).cells@, s.puzzle.cell_clues@.len() as int)
            == 1
}

/// The structure rules: pieces are not empty, the drawing's cuts are cut and
/// separate pieces, every edge is decided, and the global rules hold.
pub open spec fn structure_ok(s: &Solver, pieces: Seq<Piece>) -> bool {
    let r = s.puzzle.rules;
    &&& pieces_nonempty(pieces)
    &&& edges_settled(s, pieces)
    &&& pieces_rules_ok(r, s.grid, pieces)
    &&& (r.match_all && pieces.len() > 1 ==> all_match(pieces))
    &&& (r.mismatch ==> all_differ(pieces))
    &&& neighbours_ok(s, pieces)
    &&& (r.shape_bank@.len() > 0 ==> bank_ok(r.shape_bank@, pieces))
    &&& (r.solitude ==> solitary(s, pieces))
}

/// Whether a parsed solution (the state of every edge) solves the puzzle:
/// the drawing's cuts are marked, the solution's edges set, the grid divided
/// into pieces, and the division checked against every rule and clue.
pub fn validate_parsed_solution(
    puzzle: Puzzle,
    grid: Grid,
    pre_cut_edges: &[EdgeId],
    solution_edges: &[EdgeState],
) -> (r: bool)
    requires
        grid.wf(),
        grid.rows < i32::MAX,
        grid.cols < i32::MAX,
        clues_fit(puzzle, grid),
        puzzle_shapes_ok(puzzle),
        forall|k: int| 0 <= k < pre_cut_edges@.len() ==> #[trigger] pre_cut_edges@[k] < grid.n_edges(),
        solution_edges@.len() >= grid.n_edges(),
    ensures
        r ==> exists|s: Solver, ps: Seq<Piece>|
            #[trigger] parsed_board(&s, ps, puzzle, grid, pre_cut_edges@, solution_edges@) && valid_division(&s, ps),
        !r ==> exists|s: Solver, ps: Seq<Piece>|
            #[trigger] parsed_board(&s, ps, puzzle, grid, pre_cut_edges@, solution_edges@) && !valid_division(&s, ps),
{
    let ghost g = grid;
    let ghost pre = pre_cut_edges@;
    proof {
        g.lemma_sizes();
    }
    let ne = grid.num_edges();
    let mut s = Solver::new(puzzle, grid);
    let mut i: usize = 0;
    while i < pre_cut_edges.len()
        invariant
            s.wf(),
            s.puzzle == puzzle,
            s.grid == g,
            ne == g.n_edges(),
            pre == pre_cut_edges@,
            forall|k: int| 0 <= k < pre.len() ==> #[trigger] pre[k] < g.n_edges(),
            i <= pre.len(),
            s.is_pre_cut@ == Seq::new(g.n_edges() as nat, |e: int| pre.take(i as int).contains(e as usize)),
            s.edges@ == Seq::new(
                g.n_edges() as nat,
                |e: int|
                    if pre.take(i as int).contains(e as usize) {
                        EdgeState::Cut
                    } else {
                        EdgeState::Unknown
                    },
            ),
        decreases pre.len() - i,
    {
        let e = pre_cut_edges[i];
        let ghost t0 = pre.take(i as int);
        let ghost t1 = pre.take(i + 1);
        proof {
            assert(t1 =~= t0.push(e));
            assert forall|x: int| 0 <= x < g.n_edges() implies #[trigger] t1.contains(x as usize) == (t0.contains(x as usize)
                || x == e) by {
                if t1.contains(x as usize) {
                    let j = choose|j: int| 0 <= j < t1.len() && t1[j] == x as usize;
                    if j < t0.len() {
                        assert(t0[j] == x as usize);
                    }
                }
                if t0.contains(x as usize) {
                    let j = choose|j: int| 0 <= j < t0.len() && t0[j] == x as usize;
                    assert(t1[j] == x as usize);
                }
                if x == e {
                    assert(t1[i as int] == e);
                }
            }
        }
        s.mark_pre_cut(e);
        i = i + 1;
        proof {
            assert(s.is_pre_cut@ =~= Seq::new(g.n_edges() as nat, |x: int| t1.contains(x as usize)));
            assert(s.edges@ =~= Seq::new(
                g.n_edges() as nat,
                |x: int|
                    if t1.contains(x as usize) {
                        EdgeState::Cut
                    } else {
                        EdgeState::Unknown
                    },
            ));
        }
    }
    proof {
        assert(pre.take(pre.len() as int) =~= pre);
    }
    let mut e: usize = 0;
    while e < ne
        invariant
            s.wf(),
            s.puzzle == puzzle,
            s.grid == g,
            ne == g.n_edges(),
            e <= ne,
            solution_edges@.len() >= ne,
            s.is_pre_cut@ == Seq::new(g.n_edges() as nat, |x: int| pre.contains(x as usize)),
            forall|x: int| 0 <= x < e ==> #[trigger] s.edges@[x] == settled_edges(g, pre, solution_edges@)[x],
            forall|x: int|
                e <= x < ne ==> #[trigger] s.edges@[x] == if pre.contains(x as usize) {
                    EdgeState::Cut
                } else {
                    EdgeState::Unknown
                },
        decreases ne - e,
    {
        if solution_edges[e] != EdgeState::Unknown {
            s.edges.set(e, solution_edges[e]);
        } else {
            let (c1, c2) = s.grid.edge_cells(e);
            if !s.grid.cell_exists[c1] || !s.grid.cell_exists[c2] {
                s.edges.set(e, EdgeState::Cut);
            }
        }
        e = e + 1;
    }
    proof {
        assert(s.edges@ =~= settled_edges(g, pre, solution_edges@));
    }
    let ps = s.compute_pieces();
    proof {
        assert forall|p: int, k: int| 0 <= p < ps@.len() && 0 <= k < ps@[p].cells@.len() implies #[trigger] ps@[p].cells@[k]
            < g.n_cells() by {
            assert(piece_of_cells(g, ps@[p]));
        }
        assert forall|p: int| 0 <= p < ps@.len() implies shape_ok(#[trigger] ps@[p].canonical) by {
            assert(piece_of_cells(g, ps@[p]));
        }
    }
    let r = s.validate(&ps);
    proof {
        assert(parsed_board(&s, ps@, puzzle, g, pre, solution_edges@));
    }
    r
}

impl Solver {
    /// Whether the division into `pieces` obeys every rule and every clue
    /// (see `valid_division`). The pieces name cells of the grid, every
    /// existing cell lies in one, and their shapes can be turned.
    pub fn validate(&self, pieces: &[Piece]) -> (r: bool)
        requires
            self.wf(),
            puzzle_shapes_ok(self.puzzle),
            pieces_in_grid(pieces@, self.grid),
            pieces_cover(pieces@, self.grid),
            forall|p: int| 0 <= p < pieces@.len() ==> shape_ok(#[trigger] pieces@[p].canonical),
        ensures
            r == valid_division(self, pieces@),
    {
        if pieces.len() == 0 {
            return false;
        }
        let cpv = cell_pieces(&self.grid, pieces);
        if !self.validate_structure(pieces, &cpv) {
            return false;
        }
        if !self.validate_cell_clues(pieces, &cpv) {
            return false;
        }
        if !self.validate_rose_window(pieces) {
            return false;
        }
        if !self.validate_edge_clues(pieces, &cpv) {
            return false;
        }
        if !self.validate_vertex_clues(pieces, &cpv) {
            return false;
        }
        true
    }

    /// Whether some piece is empty.
    fn check_nonempty(pieces: &[Piece]) -> (r: bool)
        ensures
            r == pieces_nonempty(pieces@),
    {
        let mut p: usize = 0;
        while p < pieces.len()
            invariant
                p <= pieces@.len(),
                forall|q: int| 0 <= q < p ==> (#[trigger] pieces@[q]).cells@.len() > 0,
            decreases pieces@.len() - p,
        {
            if pieces[p].cells.len() == 0 {
                proof {
                    assert(!((pieces@[p as int]).cells@.len() > 0));
                }
                return false;
            }
            p = p + 1;
        }
        true
    }

    /// The drawing's cuts and the decidedness of every edge (see `edges_settled`).
    fn check_edges_settled(&self, pieces: &[Piece], cpv: &Vec<usize>) -> (r: bool)
        requires
            self.wf(),
            cpv@.len() == self.grid.n_cells(),
            forall|c: int| 0 <= c < self.grid.n_cells() ==> #[trigger] cpv@[c] == cp(pieces@, c),
        ensures
            r == edges_settled(self, pieces@),
    {
        let ghost ps = pieces@;
        let ghost g = self.grid;
        proof {
            self.grid.lemma_sizes();
        }
        let ne = self.grid.num_edges();
        let mut e: usize = 0;
        while e < ne
            invariant
                self.wf(),
                g == self.grid,
                ps == pieces@,
                ne == g.n_edges(),
                e <= ne,
                cpv@.len() == g.n_cells(),
                forall|c: int| 0 <= c < g.n_cells() ==> #[trigger] cpv@[c] == cp(ps, c),
                forall|x: int| 0 <= x < e && #[trigger] self.is_pre_cut@[x] ==> self.edges@[x] == EdgeState::Cut,
                forall|x: int| 0 <= x < e ==> #[trigger] self.edges@[x] != EdgeState::Unknown,
                forall|x: int|
                    0 <= x < e && #[trigger] self.is_pre_cut@[x] && both_exist(g, x) ==> cp(ps, g.edge_cells_of(x).0)
                        != cp(ps, g.edge_cells_of(x).1),
            decreases ne - e,
        {
            if self.is_pre_cut[e] && self.edges[e] != EdgeState::Cut {
                return false;
            }
            if self.edges[e] == EdgeState::Unknown {
                return false;
            }
            if self.is_pre_cut[e] {
                let (c1, c2) = self.grid.edge_cells(e);
                if self.grid.cell_exists[c1] && self.grid.cell_exists[c2] && cpv[c1] == cpv[c2] {
                    proof {
                        assert(both_exist(g, e as int));
                    }
                    return false;
                }
            }
            e = e + 1;
        }
        true
    }

    /// The area bounds and boxy rules of every piece.
    fn check_piece_rules(&self, pieces: &[Piece]) -> (r: bool)
        requires
            self.wf(),
            pieces_in_grid(pieces@, self.grid),
        ensures
            r == pieces_rules_ok(self.puzzle.rules, self.grid, pieces@),
    {
        let ghost ps = pieces@;
        let ghost g = self.grid;
        let rules = &self.puzzle.rules;
        let np = pieces.len();
        let mut p: usize = 0;
        while p < np
            invariant
                self.wf(),
                g == self.grid,
                np == ps.len(),
                ps == pieces@,
                rules == &self.puzzle.rules,
                pieces_in_grid(ps, g),
                p <= np,
                forall|q: int| 0 <= q < p ==> piece_rules_ok(*rules, g, #[trigger] ps[q]),
            decreases np - p,
        {
            let piece = &pieces[p];
            proof {
                assert forall|i: int| 0 <= i < piece.cells@.len() implies #[trigger] piece.cells@[i] < g.n_cells() by {
                    assert(ps[p as int].cells@[i] < g.n_cells());
                }
            }
            let rect = polyomino::is_rectangular(piece, &self.grid);
            let mut ok = true;
            if let Some(m) = rules.minimum {
                if piece.area < m {
                    ok = false;
                }
            }
            if let Some(m) = rules.maximum {
                if piece.area > m {
                    ok = false;
                }
            }
            if rules.boxy && !rect {
                ok = false;
            }
            if rules.non_boxy && rect {
                ok = false;
            }
            if !ok {
                proof {
                    assert(!piece_rules_ok(*rules, g, ps[p as int]));
                }
                return false;
            }
            p = p + 1;
        }
        true
    }

    /// Whether every piece has the shape of the first.
    fn check_all_match(pieces: &[Piece]) -> (r: bool)
        ensures
            r == all_match(pieces@),
    {
        let np = pieces.len();
        if np == 0 {
            return true;
        }
        let mut p: usize = 1;
        while p < np
            invariant
                np == pieces@.len(),
                np > 0,
                1 <= p <= np,
                forall|q: int| 1 <= q < p ==> (#[trigger] pieces@[q]).canonical@ == pieces@[0].canonical@,
            decreases np - p,
        {
            if !polyomino::shape_equal(&pieces[p].canonical, &pieces[0].canonical) {
                proof {
                    assert(pieces@[p as int].canonical@ != pieces@[0].canonical@);
                }
                return false;
            }
            p = p + 1;
        }
        true
    }

    /// Whether all pieces have different shapes.
    fn check_all_differ(pieces: &[Piece]) -> (r: bool)
        ensures
            r == all_differ(pieces@),
    {
        let np = pieces.len();
        let mut i: usize = 0;
        while i < np
            invariant
                np == pieces@.len(),
                i <= np,
                forall|a: int, b: int|
                    0 <= a < i && a < b < np ==> (#[trigger] pieces@[a]).canonical@ != (#[trigger] pieces@[b]).canonical@,
            decreases np - i,
        {
            let mut j = i + 1;
            while j < np
                invariant
                    np == pieces@.len(),
                    i < np,
                    i + 1 <= j <= np,
                    forall|a: int, b: int|
                        0 <= a < i && a < b < np ==> (#[trigger] pieces@[a]).canonical@ != (#[trigger] pieces@[b]).canonical@,
                    forall|b: int| i < b < j ==> (#[trigger] pieces@[b]).canonical@ != pieces@[i as int].canonical@,
                decreases np - j,
            {
                if polyomino::shape_equal(&pieces[i].canonical, &pieces[j].canonical) {
                    proof {
                        assert(pieces@[i as int].canonical@ == pieces@[j as int].canonical@);
                    }
                    return false;
                }
                j = j + 1;
            }
            i = i + 1;
        }
        true
    }

    /// The size separation and mingle rules (see `neighbours_ok`).
    fn check_neighbours(&self, pieces: &[Piece], cpv: &Vec<usize>) -> (r: bool)
        requires
            self.wf(),
            pieces_cover(pieces@, self.grid),
            cpv@.len() == self.grid.n_cells(),
            forall|c: int| 0 <= c < self.grid.n_cells() ==> #[trigger] cpv@[c] == cp(pieces@, c),
        ensures
            r == neighbours_ok(self, pieces@),
    {
        let ghost ps = pieces@;
        let ghost g = self.grid;
        proof {
            self.grid.lemma_sizes();
        }
        let rules = &self.puzzle.rules;
        let ne = self.grid.num_edges();
        let mut e: usize = 0;
        while e < ne
            invariant
                self.wf(),
                g == self.grid,
                ne == g.n_edges(),
                ps == pieces@,
                rules == &self.puzzle.rules,
                pieces_cover(ps, g),
                e <= ne,
                cpv@.len() == g.n_cells(),
                forall|c: int| 0 <= c < g.n_cells() ==> #[trigger] cpv@[c] == cp(ps, c),
                forall|x: int|
                    0 <= x < e && #[trigger] separates(self, ps, x) ==> {
                        &&& (rules.size_separation ==> sides(self, ps, x).0.area != sides(self, ps, x).1.area)
                        &&& (rules.mingle_shape ==> sides(self, ps, x).0.canonical@ == sides(self, ps, x).1.canonical@)
                    },
            decreases ne - e,
        {
            if self.edges[e] == EdgeState::Cut {
                let (c1, c2) = self.grid.edge_cells(e);
                if self.grid.cell_exists[c1] && self.grid.cell_exists[c2] {
                    let p1 = cpv[c1];
                    let p2 = cpv[c2];
                    proof {
                        assert(cp(ps, c1 as int) != usize::MAX);
                        assert(cp(ps, c2 as int) != usize::MAX);
                        lemma_piece_of_range(ps, c1 as int, ps.len() as int);
                        lemma_piece_of_range(ps, c2 as int, ps.len() as int);
                    }
                    if p1 != p2 {
                        proof {
                            assert(separates(self, ps, e as int));
                        }
                        if rules.size_separation && pieces[p1].area == pieces[p2].area {
                            return false;
                        }
                        if rules.mingle_shape && !polyomino::shape_equal(&pieces[p1].canonical, &pieces[p2].canonical) {
                            return false;
                        }
                    }
                }
            }
            e = e + 1;
        }
        true
    }

    /// Whether every piece has a shape of the bank.
    fn check_bank(bank: &Vec<Shape>, pieces: &[Piece]) -> (r: bool)
        requires
            forall|q: int| 0 <= q < pieces@.len() ==> shape_ok(#[trigger] pieces@[q].canonical),
            forall|b: int| 0 <= b < bank@.len() ==> shape_ok(#[trigger] bank@[b]),
        ensures
            r == bank_ok(bank@, pieces@),
    {
        let np = pieces.len();
        let nb = bank.len();
        let mut p: usize = 0;
        while p < np
            invariant
                np == pieces@.len(),
                nb == bank@.len(),
                forall|q: int| 0 <= q < np ==> shape_ok(#[trigger] pieces@[q].canonical),
                forall|b: int| 0 <= b < nb ==> shape_ok(#[trigger] bank@[b]),
                p <= np,
                forall|q: int| 0 <= q < p ==> in_bank(bank@, #[trigger] pieces@[q]),
            decreases np - p,
        {
            proof {
                assert(shape_ok(pieces@[p as int].canonical));
            }
            let cp_shape = polyomino::canonical(&pieces[p].canonical);
            let mut found = false;
            let mut b: usize = 0;
            while b < nb && !found
                invariant
                    nb == bank@.len(),
                    forall|x: int| 0 <= x < nb ==> shape_ok(#[trigger] bank@[x]),
                    b <= nb,
                    p < np,
                    np == pieces@.len(),
                    cp_shape@ == canonical_spec(pieces@[p as int].canonical@),
                    found == exists|x: int|
                        0 <= x < b && canonical_spec(pieces@[p as int].canonical@) == canonical_spec(#[trigger] bank@[x]@),
                decreases nb - b,
            {
                proof {
                    assert(shape_ok(bank@[b as int]));
                }
                let cb = polyomino::canonical(&bank[b]);
                if polyomino::shape_equal(&cp_shape, &cb) {
                    found = true;
                }
                b = b + 1;
            }
            if !found {
                proof {
                    assert(!in_bank(bank@, pieces@[p as int]));
                }
                return false;
            }
            p = p + 1;
        }
        true
    }

    /// Whether every piece holds exactly one clue.
    fn check_solitude(&self, pieces: &[Piece]) -> (r: bool)
        requires
            self.wf(),
        ensures
            r == solitary(self, pieces@),
    {
        let ghost ps = pieces@;
        let ghost g = self.grid;
        let np = pieces.len();
        let ncl = self.puzzle.cell_clues.len();
        let mut p: usize = 0;
        while p < np
            invariant
                self.wf(),
                g == self.grid,
                np == ps.len(),
                ps == pieces@,
                ncl == self.puzzle.cell_clues@.len(),
                p <= np,
                forall|q: int| 0 <= q < p ==> clues_in(self.puzzle.cell_clues@, g, (#[trigger] ps[q]).cells@, ncl as int) == 1,
            decreases np - p,
        {
            let cells = &pieces[p].cells;
            let mut cnt: usize = 0;
            let mut k: usize = 0;
            while k < ncl
                invariant
                    self.wf(),
                    g == self.grid,
                    ncl == self.puzzle.cell_clues@.len(),
                    k <= ncl,
                    cnt == clues_in(self.puzzle.cell_clues@, g, cells@, k as int),
                    cnt <= k,
                decreases ncl - k,
            {
                let c = self.puzzle.cell_clues[k].cell();
                proof {
                    assert(self.puzzle.cell_clues@[k as int].spec_cell() < g.n_cells());
                }
                if self.grid.cell_exists[c] && vec_contains(cells, c) {
                    cnt = cnt + 1;
                }
                k = k + 1;
            }
            if cnt != 1 {
                proof {
                    assert(clues_in(self.puzzle.cell_clues@, g, ps[p as int].cells@, ncl as int) != 1);
                }
                return false;
            }
            p = p + 1;
        }
        true
    }

    /// The structure rules (see `structure_ok`).
    fn validate_structure(&self, pieces: &[Piece], cpv: &Vec<usize>) -> (r: bool)
        requires
            self.wf(),
            pieces_in_grid(pieces@, self.grid),
            pieces_cover(pieces@, self.grid),
            forall|p: int| 0 <= p < pieces@.len() ==> shape_ok(#[trigger] pieces@[p].canonical),
            puzzle_shapes_ok(self.puzzle),
            cpv@.len() == self.grid.n_cells(),
            forall|c: int| 0 <= c < self.grid.n_cells() ==> #[trigger] cpv@[c] == cp(pieces@, c),
        ensures
            r == structure_ok(self, pieces@),
    {
        let rules = &self.puzzle.rules;
        if !Self::check_nonempty(pieces) {
            return false;
        }
        if !self.check_edges_settled(pieces, cpv) {
            return false;
        }
        if !self.check_piece_rules(pieces) {
            return false;
        }
        if rules.match_all && pieces.len() > 1 && !Self::check_all_match(pieces) {
            return false;
        }
        if rules.mismatch && !Self::check_all_differ(pieces) {
            return false;
        }
        if !self.check_neighbours(pieces, cpv) {
            return false;
        }
        if rules.shape_bank.len() > 0 && !Self::check_bank(&rules.shape_bank, pieces) {
            return false;
        }
        if rules.solitude && !self.check_solitude(pieces) {
            return false;
        }
        true
    }
}

/// The piece of every cell (`usize::MAX` for none).
pub fn cell_pieces(grid: &Grid, pieces: &[Piece]) -> (cpv: Vec<usize>)
    requires
        grid.wf(),
        pieces_in_grid(pieces@, *grid),
    ensures
        cpv@.len() == grid.n_cells(),
        forall|c: int| 0 <= c < grid.n_cells() ==> #[trigger] cpv@[c] == cp(pieces@, c),
{
    proof {
        grid.lemma_sizes();
    }
    let n = grid.num_cells();
    let mut cpv: Vec<usize> = vec![usize::MAX; n];
    let mut p: usize = 0;
    while p < pieces.len()
        invariant
            grid.wf(),
            n == grid.n_cells(),
            pieces_in_grid(pieces@, *grid),
            p <= pieces@.len(),
            cpv@.len() == n,
            forall|c: int| 0 <= c < n ==> #[trigger] cpv@[c] == piece_of(pieces@, c, p as int),
        decreases pieces@.len() - p,
    {
        let cells = &pieces[p].cells;
        let mut k: usize = 0;
        while k < cells.len()
            invariant
                grid.wf(),
                n == grid.n_cells(),
                pieces_in_grid(pieces@, *grid),
                p < pieces@.len(),
                cells@ == pieces@[p as int].cells@,
                k <= cells@.len(),
                cpv@.len() == n,
                forall|c: int|
                    0 <= c < n ==> #[trigger] cpv@[c] == (if cells@.take(k as int).contains(c as usize) {
                        p
                    } else {
                        piece_of(pieces@, c, p as int)
                    }),
            decreases cells@.len() - k,
        {
            let c = cells[k];
            proof {
                assert(pieces@[p as int].cells@[k as int] < grid.n_cells());
            }
            let ghost old_cpv = cpv@;
            cpv.set(c, p);
            proof {
                let t0 = cells@.take(k as int);
                let t1 = cells@.take(k + 1);
                assert(t1 =~= t0.push(c));
                assert forall|x: int| 0 <= x < n implies #[trigger] cpv@[x] == (if t1.contains(x as usize) {
                    p
                } else {
                    piece_of(pieces@, x, p as int)
                }) by {
                    if x == c as int {
                        assert(t1[k as int] == c);
                    } else {
                        assert(old_cpv[x] == cpv@[x]);
                        if t1.contains(x as usize) {
                            let j = choose|j: int| 0 <= j < t1.len() && t1[j] == x as usize;
                            assert(j < k);
                            assert(t0[j] == x as usize);
                        }
                        if t0.contains(x as usize) {
                            let j = choose|j: int| 0 <= j < t0.len() && t0[j] == x as usize;
                            assert(t1[j] == x as usize);
                        }
                    }
                }
            }
            k = k + 1;
        }
        proof {
            assert(cells@.take(cells@.len() as int) =~= cells@);
        }
        p = p + 1;
    }
    cpv
}

/// The piece of a cell is a piece index or `usize::MAX`.
pub proof fn lemma_piece_of_range(pieces: Seq<Piece>, c: int, k: int)
    requires
        0 <= k <= pieces.len(),
    ensures
        piece_of(pieces, c, k) == usize::MAX || piece_of(pieces, c, k) < k,
    decreases k,
{
    if k > 0 {
        lemma_piece_of_range(pieces, c, k - 1);
    }
}

/// Whether `x` is among the entries of `v`.
fn vec_contains(v: &Vec<usize>, x: usize) -> (r: bool)
    ensures
        r == v@.contains(x),
{
    let mut k: usize = 0;
    while k < v.len()
        invariant
            k <= v@.len(),
            forall|j: int| 0 <= j < k ==> v@[j] != x,
        decreases v@.len() - k,
    {
        if v[k] == x {
            proof {
                assert(v@[k as int] == x);
            }
            return true;
        }
        k = k + 1;
    }
    false
}

} // verus!
