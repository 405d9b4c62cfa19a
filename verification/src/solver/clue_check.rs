//! Checking a division of the grid into pieces against the clues.
use vstd::prelude::*;
use super::Solver;
use super::palisade::{bit, lemma_cell_edges_range};
use super::validation::{both_exist, cp, lemma_piece_of_range, pieces_cover, pieces_in_grid};
use crate::grid::{opt_usize, Grid};
use crate::polyomino::{self, canonical_spec, puzzle_shapes_ok, shape_ok};
use crate::types::{CellClue, CompassData, EdgeClue, EdgeClueKind, EdgeState, PalisadeKind, Piece, VertexClue};

verus! {

// ── Palisade clues ───────────────────────────────────────────────────────────

/// The sides of a cell that are edges of the grid, in the order north,
/// south, west, east; sides on the border of the grid are left out.
pub open spec fn present_sides(sides: Seq<Option<int>>) -> Seq<int>
    decreases sides.len(),
{
    if sides.len() == 0 {
        Seq::empty()
    } else {
        let f = present_sides(sides.drop_last());
        match sides.last() {
            Some(e) => f.push(e),
            None => f,
        }
    }
}

/// Edge `e` counts as cut for a palisade clue: it is cut, or it lies
/// next to a missing cell.
pub open spec fn side_cut(g: Grid, edges: Seq<EdgeState>, e: int) -> bool {
    !both_exist(g, e) || edges[e] == EdgeState::Cut
}

/// Number of edges of `es` that count as cut.
pub open spec fn cut_total(g: Grid, edges: Seq<EdgeState>, es: Seq<int>) -> nat
    decreases es.len(),
{
    if es.len() == 0 {
        0
    } else {
        cut_total(g, edges, es.drop_last()) + if side_cut(g, edges, es.last()) {
            1nat
        } else {
            0nat
        }
    }
}

/// Rotation `rot` of the clue's pattern fits the present sides `es`: the
/// number of sides counting as cut is the pattern's, and every bit of the
/// pattern's mask names a present side, by its place among the present
/// sides, that counts as cut.
pub open spec fn pattern_fits(kind: PalisadeKind, g: Grid, edges: Seq<EdgeState>, es: Seq<int>, rot: int) -> bool {
    let (ec, em) = kind.spec_pattern(rot);
    &&& cut_total(g, edges, es) == ec
    &&& forall|k: int| 0 <= k < 4 && #[trigger] bit(em, k) ==> k < es.len() && side_cut(g, edges, es[k])
}

/// The palisade clue of cell `c` holds: some rotation of its pattern fits.
pub open spec fn palisade_holds(kind: PalisadeKind, g: Grid, edges: Seq<EdgeState>, c: int) -> bool {
    exists|rot: int| 0 <= rot < 4 && #[trigger] pattern_fits(kind, g, edges, present_sides(g.cell_edges_spec(c)), rot)
}

proof fn lemma_present_step(sides: Seq<Option<int>>, i: int)
    requires
        0 <= i < sides.len(),
    ensures
        present_sides(sides.take(i + 1)) == (match sides[i] {
            Some(e) => present_sides(sides.take(i)).push(e),
            None => present_sides(sides.take(i)),
        }),
        present_sides(sides.take(i)).len() <= i,
    decreases i,
{
    assert(sides.take(i + 1).drop_last() =~= sides.take(i));
    if i > 0 {
        lemma_present_step(sides, i - 1);
    } else {
        assert(sides.take(0) =~= Seq::<Option<int>>::empty());
    }
}

/// Setting bit `k` of a mask below 16.
proof fn lemma_set_bit(m: u8, k: u8)
    requires
        m < 16,
        k < 4,
    ensures
        (m | (1u8 << k)) < 16,
        ((m | (1u8 << k)) & 1u8 == 1u8) == ((m & 1u8 == 1u8) || k == 0),
        (((m | (1u8 << k)) >> 1u8) & 1u8 == 1u8) == (((m >> 1u8) & 1u8 == 1u8) || k == 1),
        (((m | (1u8 << k)) >> 2u8) & 1u8 == 1u8) == (((m >> 2u8) & 1u8 == 1u8) || k == 2),
        (((m | (1u8 << k)) >> 3u8) & 1u8 == 1u8) == (((m >> 3u8) & 1u8 == 1u8) || k == 3),
{
    assert((m | (1u8 << k)) < 16) by (bit_vector)
        requires
            m < 16,
            k < 4,
    ;
    assert(((m | (1u8 << k)) & 1u8 == 1u8) == ((m & 1u8 == 1u8) || k == 0)) by (bit_vector)
        requires
            k < 4,
    ;
    assert((((m | (1u8 << k)) >> 1u8) & 1u8 == 1u8) == (((m >> 1u8) & 1u8 == 1u8) || k == 1)) by (bit_vector)
        requires
            k < 4,
    ;
    assert((((m | (1u8 << k)) >> 2u8) & 1u8 == 1u8) == (((m >> 2u8) & 1u8 == 1u8) || k == 2)) by (bit_vector)
        requires
            k < 4,
    ;
    assert((((m | (1u8 << k)) >> 3u8) & 1u8 == 1u8) == (((m >> 3u8) & 1u8 == 1u8) || k == 3)) by (bit_vector)
        requires
            k < 4,
    ;
}

/// A mask below 16 covers another exactly when each of the other's four
/// bits is set in it.
proof fn lemma_covers(m: u8, em: u8)
    requires
        m < 16,
        em < 16,
    ensures
        ((m & em) == em) == ((bit(em, 0) ==> bit(m, 0)) && (bit(em, 1) ==> bit(m, 1)) && (bit(em, 2) ==> bit(m, 2)) && (
        bit(em, 3) ==> bit(m, 3))),
{
    super::palisade::lemma_bit_values(m);
    super::palisade::lemma_bit_values(em);
    assert(((m & em) == em) == (((em & 1u8 == 1u8) ==> (m & 1u8 == 1u8)) && (((em >> 1u8) & 1u8 == 1u8) ==> ((m
        >> 1u8) & 1u8 == 1u8)) && (((em >> 2u8) & 1u8 == 1u8) ==> ((m >> 2u8) & 1u8 == 1u8)) && (((em >> 3u8) & 1u8
        == 1u8) ==> ((m >> 3u8) & 1u8 == 1u8)))) by (bit_vector)
        requires
            m < 16,
            em < 16,
    ;
}

/// The masks of the palisade patterns use the four low bits.
proof fn lemma_pattern_small(kind: PalisadeKind, rot: int)
    ensures
        kind.spec_pattern(rot).1 < 16,
{
    let a = crate::types::clockwise_bit(rot);
    let b = crate::types::clockwise_bit(rot + 1);
    let c = crate::types::clockwise_bit(rot + 2);
    assert(a == 1u8 || a == 2u8 || a == 4u8 || a == 8u8);
    assert(b == 1u8 || b == 2u8 || b == 4u8 || b == 8u8);
    assert(c == 1u8 || c == 2u8 || c == 4u8 || c == 8u8);
    assert((a | b) < 16) by (bit_vector)
        requires
            a == 1u8 || a == 2u8 || a == 4u8 || a == 8u8,
            b == 1u8 || b == 2u8 || b == 4u8 || b == 8u8,
    ;
    assert((a | c) < 16) by (bit_vector)
        requires
            a == 1u8 || a == 2u8 || a == 4u8 || a == 8u8,
            c == 1u8 || c == 2u8 || c == 4u8 || c == 8u8,
    ;
}

impl Solver {
    /// Whether the palisade clue `kind` on cell `cell` holds.
    fn palisade_fits(&self, cell: usize, kind: PalisadeKind) -> (r: bool)
        requires
            self.wf(),
            cell < self.grid.n_cells(),
        ensures
            r == palisade_holds(kind, self.grid, self.edges@, cell as int),
    {
        let ghost g = self.grid;
        let ghost sides = g.cell_edges_spec(cell as int);
        let ne = self.grid.cell_edges(cell).into_array();
        proof {
            lemma_cell_edges_range(g, cell as int);
            g.lemma_sizes();
            super::palisade::lemma_bit_values(0u8);
            assert((0u8 & 1u8) == 0u8 && ((0u8 >> 1u8) & 1u8) == 0u8 && ((0u8 >> 2u8) & 1u8) == 0u8 && ((0u8 >> 3u8)
                & 1u8) == 0u8) by (bit_vector);
            assert(sides.take(0) =~= Seq::<Option<int>>::empty());
        }
        let mut num_cut: usize = 0;
        let mut mask: u8 = 0;
        let mut k: usize = 0;
        let mut i: usize = 0;
        while i < 4
            invariant
                self.wf(),
                g == self.grid,
                sides == g.cell_edges_spec(cell as int),
                sides.len() == 4,
                cell < g.n_cells(),
                i <= 4,
                forall|q: int| 0 <= q < 4 ==> #[trigger] ne@[q] == opt_usize(sides[q]),
                forall|q: int| 0 <= q < 4 ==> (#[trigger] sides[q] matches Some(e) ==> 0 <= e < g.n_edges()),
                k == present_sides(sides.take(i as int)).len(),
                k <= i,
                num_cut == cut_total(g, self.edges@, present_sides(sides.take(i as int))),
                num_cut <= k,
                mask < 16,
                forall|j: int|
                    0 <= j < 4 ==> #[trigger] bit(mask, j) == (j < k && side_cut(
                        g,
                        self.edges@,
                        present_sides(sides.take(i as int))[j],
                    )),
            decreases 4 - i,
        {
            let ghost before = present_sides(sides.take(i as int));
            proof {
                lemma_present_step(sides, i as int);
            }
            let entry = ne[i];
            proof {
                assert(entry == ne@[i as int]);
            }
            if let Some(e) = entry {
                proof {
                    g.lemma_sizes();
                    assert(sides[i as int] is Some);
                    let x = sides[i as int]->0;
                    assert(0 <= x < g.n_edges());
                    assert(ne@[i as int] == Some(x as usize));
                    assert(e as int == x);
                }
                let (c1, c2) = self.grid.edge_cells(e);
                let is_cut = !self.grid.cell_exists[c1] || !self.grid.cell_exists[c2] || self.edges[e]
                    == EdgeState::Cut;
                let ghost after = before.push(e as int);
                proof {
                    assert(after.drop_last() =~= before);
                    assert(is_cut == side_cut(g, self.edges@, e as int));
                }
                if is_cut {
                    proof {
                        lemma_set_bit(mask, k as u8);
                        super::palisade::lemma_bit_values(mask);
                        super::palisade::lemma_bit_values(mask | (1u8 << (k as u8)));
                    }
                    num_cut = num_cut + 1;
                    mask = mask | (1u8 << (k as u8));
                }
                k = k + 1;
                proof {
                    assert forall|j: int| 0 <= j < 4 implies #[trigger] bit(mask, j) == (j < k && side_cut(
                        g,
                        self.edges@,
                        after[j],
                    )) by {
                        if j < k - 1 {
                            assert(after[j] == before[j]);
                        }
                    }
                }
            }
            i = i + 1;
        }
        let ghost es = present_sides(sides.take(4));
        proof {
            assert(sides.take(4) =~= sides);
        }
        let mut found = false;
        let mut rot: usize = 0;
        while rot < 4 && !found
            invariant
                rot <= 4,
                es == present_sides(g.cell_edges_spec(cell as int)),
                num_cut == cut_total(g, self.edges@, es),
                mask < 16,
                forall|j: int| 0 <= j < 4 ==> #[trigger] bit(mask, j) == (j < es.len() && side_cut(g, self.edges@, es[j])),
                found ==> exists|x: int| 0 <= x < rot && #[trigger] pattern_fits(kind, g, self.edges@, es, x),
                !found ==> forall|x: int| 0 <= x < rot ==> !#[trigger] pattern_fits(kind, g, self.edges@, es, x),
            decreases 4 - rot,
        {
            let (ec, em) = kind.pattern_at_rotation(rot);
            proof {
                lemma_pattern_small(kind, rot as int);
                lemma_covers(mask, em);
            }
            if num_cut == ec && (mask & em) == em {
                proof {
                    assert forall|j: int| 0 <= j < 4 && #[trigger] bit(em, j) implies j < es.len() && side_cut(
                        g,
                        self.edges@,
                        es[j],
                    ) by {
                        assert(bit(mask, j));
                    }
                    assert(pattern_fits(kind, g, self.edges@, es, rot as int));
                }
                found = true;
            } else {
                proof {
                    if pattern_fits(kind, g, self.edges@, es, rot as int) {
                        assert forall|j: int| 0 <= j < 4 && bit(em, j) implies bit(mask, j) by {
                            assert(j < es.len() && side_cut(g, self.edges@, es[j]));
                        }
                        assert(bit(em, 0) ==> bit(mask, 0));
                        assert(bit(em, 1) ==> bit(mask, 1));
                        assert(bit(em, 2) ==> bit(mask, 2));
                        assert(bit(em, 3) ==> bit(mask, 3));
                    }
                }
            }
            rot = rot + 1;
        }
        found
    }
}

// ── Compass clues ────────────────────────────────────────────────────────────

/// Cell `x` lies in direction `d` (north, south, east, west) of cell `c`:
/// in a lower row, a higher row, a higher column or a lower column.
pub open spec fn in_direction(g: Grid, x: int, c: int, d: int) -> bool {
    let cols = g.cols as int;
    if d == 0 {
        x / cols < c / cols
    } else if d == 1 {
        x / cols > c / cols
    } else if d == 2 {
        x % cols > c % cols
    } else {
        x % cols < c % cols
    }
}

/// Number of `cells` in direction `d` of cell `c`.
pub open spec fn dir_count(g: Grid, cells: Seq<usize>, c: int, d: int) -> nat
    decreases cells.len(),
{
    if cells.len() == 0 {
        0
    } else {
        dir_count(g, cells.drop_last(), c, d) + if in_direction(g, cells.last() as int, c, d) {
            1nat
        } else {
            0nat
        }
    }
}

/// Each count that the compass clue of cell `c` gives is the number of the
/// piece's cells in that direction.
pub open spec fn compass_holds(cd: CompassData, g: Grid, cells: Seq<usize>, c: int) -> bool {
    &&& (cd.e matches Some(v) ==> v == dir_count(g, cells, c, 2))
    &&& (cd.w matches Some(v) ==> v == dir_count(g, cells, c, 3))
    &&& (cd.s matches Some(v) ==> v == dir_count(g, cells, c, 1))
    &&& (cd.n matches Some(v) ==> v == dir_count(g, cells, c, 0))
}

// ── Cell clues ───────────────────────────────────────────────────────────────

/// A cell clue holds for the pieces: its cell exists and lies in a piece,
/// and that piece agrees with the clue.
pub open spec fn cell_clue_holds(s: &Solver, pieces: Seq<Piece>, clue: CellClue) -> bool {
    let g = s.grid;
    let c = clue.spec_cell() as int;
    let pid = cp(pieces, c);
    &&& g.cell_exists@[c]
    &&& pid != usize::MAX
    &&& match clue {
        CellClue::Area { value, .. } => pieces[pid as int].area == value,
        CellClue::Rose { .. } => true,
        CellClue::Polyomino { shape, .. } => canonical_spec(pieces[pid as int].canonical@) == canonical_spec(shape@),
        CellClue::Palisade { kind, .. } => palisade_holds(kind, g, s.edges@, c),
        CellClue::Compass { compass, .. } => compass_holds(compass, g, pieces[pid as int].cells@, c),
    }
}

/// Every cell clue holds.
pub open spec fn cell_clues_hold(s: &Solver, pieces: Seq<Piece>) -> bool {
    forall|k: int| 0 <= k < s.puzzle.cell_clues@.len() ==> cell_clue_holds(s, pieces, #[trigger] s.puzzle.cell_clues@[k])
}

// ── Rose window ──────────────────────────────────────────────────────────────

/// Some clue is a rose with symbol `sym`.
pub open spec fn has_symbol(clues: Seq<CellClue>, sym: u8) -> bool {
    exists|k: int| 0 <= k < clues.len() && (#[trigger] clues[k] matches CellClue::Rose { symbol, .. } && symbol == sym)
}

/// A rose with symbol `sym` is written on cell `c`.
pub open spec fn rose_at(clues: Seq<CellClue>, sym: u8, c: usize) -> bool {
    exists|k: int|
        0 <= k < clues.len() && (#[trigger] clues[k] matches CellClue::Rose { symbol, cell } && symbol == sym && cell == c)
}

/// Number of `cells` that carry a rose with symbol `sym`.
pub open spec fn roses_in(clues: Seq<CellClue>, cells: Seq<usize>, sym: u8) -> nat
    decreases cells.len(),
{
    if cells.len() == 0 {
        0
    } else {
        roses_in(clues, cells.drop_last(), sym) + if rose_at(clues, sym, cells.last()) {
            1nat
        } else {
            0nat
        }
    }
}

/// Each piece holds exactly one rose of every symbol that occurs.
pub open spec fn rose_window_ok(clues: Seq<CellClue>, pieces: Seq<Piece>) -> bool {
    forall|sym: u8, p: int|
        sym < 8 && #[trigger] has_symbol(clues, sym) && 0 <= p < pieces.len() ==> roses_in(
            clues,
            (#[trigger] pieces[p]).cells@,
            sym,
        ) == 1
}

// ── Edge clues ───────────────────────────────────────────────────────────────

/// An edge clue holds: its edge is cut between two existing cells of
/// different pieces, and the two pieces agree with the clue (the first
/// piece is that of the cell with the smaller id).
pub open spec fn edge_clue_holds(s: &Solver, pieces: Seq<Piece>, clue: EdgeClue) -> bool {
    let g = s.grid;
    let e = clue.edge as int;
    let p1 = cp(pieces, g.edge_cells_of(e).0);
    let p2 = cp(pieces, g.edge_cells_of(e).1);
    let a1 = pieces[p1 as int].area;
    let a2 = pieces[p2 as int].area;
    &&& s.edges@[e] == EdgeState::Cut
    &&& both_exist(g, e)
    &&& p1 != p2
    &&& match clue.kind {
        EdgeClueKind::Delta => pieces[p1 as int].canonical@ != pieces[p2 as int].canonical@,
        EdgeClueKind::Gemini => pieces[p1 as int].canonical@ == pieces[p2 as int].canonical@,
        EdgeClueKind::Inequality { smaller_first } => if smaller_first {
            a1 < a2
        } else {
            a2 < a1
        },
        EdgeClueKind::Diff { value } => (if a1 >= a2 {
            a1 - a2
        } else {
            a2 - a1
        }) == value,
    }
}

/// Every edge clue holds.
pub open spec fn edge_clues_hold(s: &Solver, pieces: Seq<Piece>) -> bool {
    forall|k: int| 0 <= k < s.puzzle.edge_clues@.len() ==> edge_clue_holds(s, pieces, #[trigger] s.puzzle.edge_clues@[k])
}

// ── Vertex clues ─────────────────────────────────────────────────────────────

/// The piece of the `q`-th cell at grid point (i, j), when that cell exists
/// and lies in a piece.
pub open spec fn slot(s: &Solver, pieces: Seq<Piece>, i: int, j: int, q: int) -> Option<usize> {
    match s.grid.vertex_cells_spec(i, j)[q] {
        Some(c) => if s.grid.cell_exists@[c] && cp(pieces, c) != usize::MAX {
            Some(cp(pieces, c))
        } else {
            None
        },
        None => None,
    }
}

/// Number of different values among the present entries.
pub open spec fn distinct_count(xs: Seq<Option<usize>>) -> nat
    decreases xs.len(),
{
    if xs.len() == 0 {
        0
    } else {
        distinct_count(xs.drop_last()) + match xs.last() {
            Some(x) => if xs.drop_last().contains(Some(x)) {
                0nat
            } else {
                1nat
            },
            None => 0nat,
        }
    }
}

/// The pieces around a grid point, one entry per corner.
pub open spec fn vertex_slots(s: &Solver, pieces: Seq<Piece>, v: int) -> Seq<Option<usize>> {
    let cols1 = s.grid.cols + 1;
    Seq::new(4, |q: int| slot(s, pieces, v / cols1, v % cols1, q))
}

/// A watchtower clue holds: as many different pieces meet at its grid point
/// as it says.
pub open spec fn vertex_clue_holds(s: &Solver, pieces: Seq<Piece>, clue: VertexClue) -> bool {
    distinct_count(vertex_slots(s, pieces, clue.vertex as int)) == clue.value
}

/// Every vertex clue holds.
pub open spec fn vertex_clues_hold(s: &Solver, pieces: Seq<Piece>) -> bool {
    forall|k: int|
        0 <= k < s.puzzle.vertex_clues@.len() ==> vertex_clue_holds(s, pieces, #[trigger] s.puzzle.vertex_clues@[k])
}

impl Solver {
    /// The number of `cells` north, south, east and west of cell `cell`.
    fn compass_counts(&self, cells: &Vec<usize>, cell: usize) -> (r: (usize, usize, usize, usize))
        requires
            self.wf(),
            cell < self.grid.n_cells(),
        ensures
            r.0 == dir_count(self.grid, cells@, cell as int, 0),
            r.1 == dir_count(self.grid, cells@, cell as int, 1),
            r.2 == dir_count(self.grid, cells@, cell as int, 2),
            r.3 == dir_count(self.grid, cells@, cell as int, 3),
    {
        let ghost g = self.grid;
        proof {
            if g.cols == 0 {
                assert(g.rows * g.cols == 0) by (nonlinear_arith)
                    requires
                        g.cols == 0,
                ;
            }
        }
        let (cr, cc) = self.grid.cell_pos(cell);
        let mut nc: usize = 0;
        let mut sc: usize = 0;
        let mut ec: usize = 0;
        let mut wc: usize = 0;
        let mut k: usize = 0;
        proof {
            assert(cells@.take(0) =~= Seq::<usize>::empty());
        }
        while k < cells.len()
            invariant
                self.wf(),
                g == self.grid,
                g.cols > 0,
                cr == cell / g.cols,
                cc == cell % g.cols,
                k <= cells@.len(),
                nc == dir_count(g, cells@.take(k as int), cell as int, 0),
                sc == dir_count(g, cells@.take(k as int), cell as int, 1),
                ec == dir_count(g, cells@.take(k as int), cell as int, 2),
                wc == dir_count(g, cells@.take(k as int), cell as int, 3),
                nc <= k,
                sc <= k,
                ec <= k,
                wc <= k,
            decreases cells@.len() - k,
        {
            let (pr, pc) = self.grid.cell_pos(cells[k]);
            proof {
                assert(cells@.take(k + 1).drop_last() =~= cells@.take(k as int));
                assert(cells@.take(k + 1).last() == cells@[k as int]);
            }
            if pr < cr {
                nc = nc + 1;
            }
            if pr > cr {
                sc = sc + 1;
            }
            if pc > cc {
                ec = ec + 1;
            }
            if pc < cc {
                wc = wc + 1;
            }
            k = k + 1;
        }
        proof {
            assert(cells@.take(cells@.len() as int) =~= cells@);
        }
        (nc, sc, ec, wc)
    }

    /// Whether every cell clue holds (see `cell_clue_holds`).
    pub(crate) fn validate_cell_clues(&self, pieces: &[Piece], cpv: &Vec<usize>) -> (r: bool)
        requires
            self.wf(),
            puzzle_shapes_ok(self.puzzle),
            forall|p: int| 0 <= p < pieces@.len() ==> shape_ok(#[trigger] pieces@[p].canonical),
            cpv@.len() == self.grid.n_cells(),
            forall|c: int| 0 <= c < self.grid.n_cells() ==> #[trigger] cpv@[c] == cp(pieces@, c),
        ensures
            r == cell_clues_hold(self, pieces@),
    {
        let ghost ps = pieces@;
        let ghost g = self.grid;
        let n = self.puzzle.cell_clues.len();
        let mut k: usize = 0;
        while k < n
            invariant
                self.wf(),
                g == self.grid,
                ps == pieces@,
                puzzle_shapes_ok(self.puzzle),
                forall|p: int| 0 <= p < ps.len() ==> shape_ok(#[trigger] ps[p].canonical),
                n == self.puzzle.cell_clues@.len(),
                k <= n,
                cpv@.len() == g.n_cells(),
                forall|c: int| 0 <= c < g.n_cells() ==> #[trigger] cpv@[c] == cp(ps, c),
                forall|x: int| 0 <= x < k ==> cell_clue_holds(self, ps, #[trigger] self.puzzle.cell_clues@[x]),
            decreases n - k,
        {
            let clue = &self.puzzle.cell_clues[k];
            let cell = clue.cell();
            proof {
                assert(self.puzzle.cell_clues@[k as int].spec_cell() < g.n_cells());
            }
            if !self.grid.cell_exists[cell] {
                return false;
            }
            let pid = cpv[cell];
            if pid == usize::MAX {
                return false;
            }
            proof {
                lemma_piece_of_range(ps, cell as int, ps.len() as int);
            }
            let piece = &pieces[pid];
            let ok = match clue {
                CellClue::Area { value, .. } => piece.area == *value,
                CellClue::Rose { .. } => true,
                CellClue::Polyomino { shape, .. } => {
                    proof {
                        assert(shape_ok(ps[pid as int].canonical));
                        assert(self.puzzle.cell_clues@[k as int] matches CellClue::Polyomino { shape, .. } ==> shape_ok(shape));
                    }
                    let a = polyomino::canonical(&piece.canonical);
                    let b = polyomino::canonical(shape);
                    polyomino::shape_equal(&a, &b)
                },
                CellClue::Palisade { cell, kind } => self.palisade_fits(*cell, *kind),
                CellClue::Compass { cell, compass } => {
                    proof {
                        assert(*cell < g.n_cells());
                    }
                    let (nc, sc, ec, wc) = self.compass_counts(&piece.cells, *cell);
                    let mut fits = true;
                    if let Some(e) = compass.e {
                        if e != ec {
                            fits = false;
                        }
                    }
                    if let Some(w) = compass.w {
                        if w != wc {
                            fits = false;
                        }
                    }
                    if let Some(s) = compass.s {
                        if s != sc {
                            fits = false;
                        }
                    }
                    if let Some(nn) = compass.n {
                        if nn != nc {
                            fits = false;
                        }
                    }
                    fits
                },
            };
            proof {
                assert(ok == cell_clue_holds(self, ps, self.puzzle.cell_clues@[k as int]));
            }
            if !ok {
                return false;
            }
            k = k + 1;
        }
        true
    }
}

/// Whether some clue is a rose with symbol `sym`.
fn has_symbol_exec(clues: &Vec<CellClue>, sym: u8) -> (r: bool)
    ensures
        r == has_symbol(clues@, sym),
{
    let mut k: usize = 0;
    while k < clues.len()
        invariant
            k <= clues@.len(),
            forall|x: int| 0 <= x < k ==> !(#[trigger] clues@[x] matches CellClue::Rose { symbol, .. } && symbol == sym),
        decreases clues@.len() - k,
    {
        if let CellClue::Rose { symbol, .. } = &clues[k] {
            if *symbol == sym {
                proof {
                    assert(clues@[k as int] matches CellClue::Rose { symbol, .. } && symbol == sym);
                }
                return true;
            }
        }
        k = k + 1;
    }
    false
}

/// Whether a rose with symbol `sym` is written on cell `c`.
fn rose_at_exec(clues: &Vec<CellClue>, sym: u8, c: usize) -> (r: bool)
    ensures
        r == rose_at(clues@, sym, c),
{
    let mut k: usize = 0;
    while k < clues.len()
        invariant
            k <= clues@.len(),
            forall|x: int|
                0 <= x < k ==> !(#[trigger] clues@[x] matches CellClue::Rose { symbol, cell } && symbol == sym && cell == c),
        decreases clues@.len() - k,
    {
        if let CellClue::Rose { symbol, cell } = &clues[k] {
            if *symbol == sym && *cell == c {
                proof {
                    assert(clues@[k as int] matches CellClue::Rose { symbol, cell } && symbol == sym && cell == c);
                }
                return true;
            }
        }
        k = k + 1;
    }
    false
}

/// Number of `cells` that carry a rose with symbol `sym`.
fn count_roses(clues: &Vec<CellClue>, cells: &Vec<usize>, sym: u8) -> (n: usize)
    ensures
        n == roses_in(clues@, cells@, sym),
{
    let mut n: usize = 0;
    let mut k: usize = 0;
    proof {
        assert(cells@.take(0) =~= Seq::<usize>::empty());
    }
    while k < cells.len()
        invariant
            k <= cells@.len(),
            n == roses_in(clues@, cells@.take(k as int), sym),
            n <= k,
        decreases cells@.len() - k,
    {
        proof {
            assert(cells@.take(k + 1).drop_last() =~= cells@.take(k as int));
        }
        if rose_at_exec(clues, sym, cells[k]) {
            n = n + 1;
        }
        k = k + 1;
    }
    proof {
        assert(cells@.take(cells@.len() as int) =~= cells@);
    }
    n
}

impl Solver {
    /// Whether each piece holds exactly one rose of every symbol that occurs.
    pub(crate) fn validate_rose_window(&self, pieces: &[Piece]) -> (r: bool)
        ensures
            r == rose_window_ok(self.puzzle.cell_clues@, pieces@),
    {
        let clues = &self.puzzle.cell_clues;
        let mut sym: u8 = 0;
        while sym < 8
            invariant
                clues == &self.puzzle.cell_clues,
                sym <= 8,
                forall|y: u8, p: int|
                    y < sym && #[trigger] has_symbol(clues@, y) && 0 <= p < pieces@.len() ==> roses_in(
                        clues@,
                        (#[trigger] pieces@[p]).cells@,
                        y,
                    ) == 1,
            decreases 8 - sym,
        {
            if has_symbol_exec(clues, sym) {
                let mut p: usize = 0;
                while p < pieces.len()
                    invariant
                        clues == &self.puzzle.cell_clues,
                        sym < 8,
                        has_symbol(clues@, sym),
                        p <= pieces@.len(),
                        forall|y: u8, q: int|
                            y < sym && #[trigger] has_symbol(clues@, y) && 0 <= q < pieces@.len() ==> roses_in(
                                clues@,
                                (#[trigger] pieces@[q]).cells@,
                                y,
                            ) == 1,
                        forall|q: int| 0 <= q < p ==> roses_in(clues@, (#[trigger] pieces@[q]).cells@, sym) == 1,
                    decreases pieces@.len() - p,
                {
                    if count_roses(clues, &pieces[p].cells, sym) != 1 {
                        proof {
                            assert(roses_in(clues@, pieces@[p as int].cells@, sym) != 1);
                        }
                        return false;
                    }
                    p = p + 1;
                }
            }
            sym = sym + 1;
        }
        true
    }

    /// Whether every edge clue holds (see `edge_clue_holds`).
    pub(crate) fn validate_edge_clues(&self, pieces: &[Piece], cpv: &Vec<usize>) -> (r: bool)
        requires
            self.wf(),
            pieces_cover(pieces@, self.grid),
            cpv@.len() == self.grid.n_cells(),
            forall|c: int| 0 <= c < self.grid.n_cells() ==> #[trigger] cpv@[c] == cp(pieces@, c),
        ensures
            r == edge_clues_hold(self, pieces@),
    {
        let ghost ps = pieces@;
        let ghost g = self.grid;
        let n = self.puzzle.edge_clues.len();
        let mut k: usize = 0;
        while k < n
            invariant
                self.wf(),
                g == self.grid,
                ps == pieces@,
                pieces_cover(ps, g),
                n == self.puzzle.edge_clues@.len(),
                k <= n,
                cpv@.len() == g.n_cells(),
                forall|c: int| 0 <= c < g.n_cells() ==> #[trigger] cpv@[c] == cp(ps, c),
                forall|x: int| 0 <= x < k ==> edge_clue_holds(self, ps, #[trigger] self.puzzle.edge_clues@[x]),
            decreases n - k,
        {
            let clue = self.puzzle.edge_clues[k];
            proof {
                assert(clue == self.puzzle.edge_clues@[k as int]);
                assert(clue.edge < g.n_edges());
            }
            if self.edges[clue.edge] != EdgeState::Cut {
                return false;
            }
            let (c1, c2) = self.grid.edge_cells(clue.edge);
            if !self.grid.cell_exists[c1] || !self.grid.cell_exists[c2] {
                return false;
            }
            let p1 = cpv[c1];
            let p2 = cpv[c2];
            if p1 == p2 {
                return false;
            }
            proof {
                assert(cp(ps, c1 as int) != usize::MAX);
                assert(cp(ps, c2 as int) != usize::MAX);
                lemma_piece_of_range(ps, c1 as int, ps.len() as int);
                lemma_piece_of_range(ps, c2 as int, ps.len() as int);
            }
            let a1 = pieces[p1].area;
            let a2 = pieces[p2].area;
            let ok = match clue.kind {
                EdgeClueKind::Delta => !polyomino::shape_equal(&pieces[p1].canonical, &pieces[p2].canonical),
                EdgeClueKind::Gemini => polyomino::shape_equal(&pieces[p1].canonical, &pieces[p2].canonical),
                EdgeClueKind::Inequality { smaller_first } => if smaller_first {
                    a1 < a2
                } else {
                    a2 < a1
                },
                EdgeClueKind::Diff { value } => {
                    let d = if a1 >= a2 {
                        a1 - a2
                    } else {
                        a2 - a1
                    };
                    d == value
                },
            };
            if !ok {
                return false;
            }
            k = k + 1;
        }
        true
    }

    /// Whether every watchtower clue holds (see `vertex_clue_holds`).
    pub(crate) fn validate_vertex_clues(&self, pieces: &[Piece], cpv: &Vec<usize>) -> (r: bool)
        requires
            self.wf(),
            cpv@.len() == self.grid.n_cells(),
            forall|c: int| 0 <= c < self.grid.n_cells() ==> #[trigger] cpv@[c] == cp(pieces@, c),
        ensures
            r == vertex_clues_hold(self, pieces@),
    {
        let ghost ps = pieces@;
        let ghost g = self.grid;
        proof {
            g.lemma_sizes();
        }
        let n = self.puzzle.vertex_clues.len();
        let mut k: usize = 0;
        while k < n
            invariant
                self.wf(),
                g == self.grid,
                ps == pieces@,
                n == self.puzzle.vertex_clues@.len(),
                k <= n,
                cpv@.len() == g.n_cells(),
                forall|c: int| 0 <= c < g.n_cells() ==> #[trigger] cpv@[c] == cp(ps, c),
                forall|x: int| 0 <= x < k ==> vertex_clue_holds(self, ps, #[trigger] self.puzzle.vertex_clues@[x]),
            decreases n - k,
        {
            let clue = self.puzzle.vertex_clues[k];
            proof {
                assert(clue == self.puzzle.vertex_clues@[k as int]);
                assert(clue.vertex < g.n_vertices());
                g.lemma_sizes();
            }
            let (vi, vj) = self.grid.vertex_pos(clue.vertex);
            proof {
                vstd::arithmetic::div_mod::lemma_fundamental_div_mod(clue.vertex as int, g.cols + 1);
                assert(vi <= g.rows) by (nonlinear_arith)
                    requires
                        vi == clue.vertex as int / (g.cols + 1),
                        clue.vertex < g.n_vertices(),
                        g.n_vertices() == (g.rows + 1) * (g.cols + 1),
                        g.cols >= 0,
                ;
            }
            let cells = self.grid.vertex_cells(vi, vj);
            let ghost slots = vertex_slots(self, ps, clue.vertex as int);
            let mut found: [Option<usize>; 4] = [None; 4];
            let mut q: usize = 0;
            while q < 4
                invariant
                    self.wf(),
                    g == self.grid,
                    ps == pieces@,
                    vi == clue.vertex as int / (g.cols + 1),
                    vj == clue.vertex as int % (g.cols + 1),
                    vi <= g.rows,
                    vj <= g.cols,
                    slots == vertex_slots(self, ps, clue.vertex as int),
                    cpv@.len() == g.n_cells(),
                    forall|c: int| 0 <= c < g.n_cells() ==> #[trigger] cpv@[c] == cp(ps, c),
                    forall|x: int| 0 <= x < 4 ==> cells@[x] == opt_usize(#[trigger] g.vertex_cells_spec(vi as int, vj as int)[x]),
                    forall|x: int| 0 <= x < 4 ==> (#[trigger] cells@[x] matches Some(c) ==> c < g.n_cells()),
                    q <= 4,
                    forall|x: int| 0 <= x < q ==> #[trigger] found@[x] == slots[x],
                decreases 4 - q,
            {
                let entry = cells[q];
                proof {
                    assert(entry == cells@[q as int]);
                    g.lemma_sizes();
                }
                let v = match entry {
                    Some(c) => {
                        if self.grid.cell_exists[c] && cpv[c] != usize::MAX {
                            Some(cpv[c])
                        } else {
                            None
                        }
                    },
                    None => None,
                };
                proof {
                    assert(slots[q as int] == slot(self, ps, vi as int, vj as int, q as int));
                    super::watchtower::lemma_vertex_cells_range(g, vi as int, vj as int);
                    let sc = g.vertex_cells_spec(vi as int, vj as int)[q as int];
                    if let Some(c) = sc {
                        assert(cells@[q as int] == Some(c as usize));
                        assert(c < g.n_cells());
                        assert(0 <= c);
                    }
                    assert(v == slots[q as int]);
                }
                found[q] = v;
                q = q + 1;
            }
            proof {
                assert(found@ =~= slots);
            }
            let cnt = count_distinct(&found);
            if cnt != clue.value {
                return false;
            }
            k = k + 1;
        }
        true
    }
}

/// Number of different values among the present entries.
fn count_distinct(xs: &[Option<usize>; 4]) -> (n: usize)
    ensures
        n == distinct_count(xs@),
{
    let mut n: usize = 0;
    let mut q: usize = 0;
    proof {
        assert(xs@.take(0) =~= Seq::<Option<usize>>::empty());
    }
    while q < 4
        invariant
            q <= 4,
            xs@.len() == 4,
            n == distinct_count(xs@.take(q as int)),
            n <= q,
        decreases 4 - q,
    {
        let ghost pre = xs@.take(q as int);
        proof {
            assert(xs@.take(q + 1).drop_last() =~= pre);
            assert(xs@.take(q + 1).last() == xs@[q as int]);
        }
        let entry = xs[q];
        if let Some(x) = entry {
            let mut seen = false;
            let mut j: usize = 0;
            while j < q
                invariant
                    j <= q < 4,
                    xs@.len() == 4,
                    pre == xs@.take(q as int),
                    seen == exists|y: int| 0 <= y < j && pre[y] == Some(x),
                decreases q - j,
            {
                let same = match xs[j] {
                    Some(y) => y == x,
                    None => false,
                };
                proof {
                    assert(pre[j as int] == xs@[j as int]);
                }
                if same {
                    seen = true;
                }
                j = j + 1;
            }
            proof {
                if seen {
                    let y = choose|y: int| 0 <= y < q && pre[y] == Some(x);
                    assert(pre.contains(Some(x)));
                } else {
                    assert(!pre.contains(Some(x)));
                }
            }
            if !seen {
                n = n + 1;
            }
        }
        q = q + 1;
    }
    proof {
        assert(xs@.take(4) =~= xs@);
    }
    n
}

} // verus!
