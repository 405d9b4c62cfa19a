//! The solver's state: the state of every edge with a log that lets a search
//! undo its guesses, the tables computed once from the clues, and the
//! propagators that force edges from the clues.
pub mod edge_state;
pub mod shapes;
pub mod palisade;
pub mod watchtower;
pub mod bricky_loopy;
pub mod match_solver;
pub mod match_coupled;
pub mod validation;
pub mod clue_check;
pub mod components;
pub mod loop_closure;
pub mod compass_bounds;
pub mod delta_gemini;
pub mod diff_clues;
pub mod reach;
pub mod inequality;
pub mod select;
pub mod comp_tables;
pub mod shape_rules;
pub mod size_sep;

use vstd::prelude::*;
use crate::grid::Grid;
use crate::types::{CellClue, CellId, EdgeClueKind, EdgeId, EdgeState, Puzzle, VertexId};

verus! {

/// A point in the undo log: the lengths of the edge log and of the manual
/// constraint lists.
#[derive(Clone, Copy, Debug)]
pub struct Snapshot {
    pub edges: usize,
    pub manual_diffs: usize,
    pub manual_sames: usize,
}

/// The solver state.
pub struct Solver {
    pub puzzle: Puzzle,
    pub grid: Grid,
    /// The state of every edge.
    pub edges: Vec<EdgeState>,
    /// Undo log: each entry is an edge that was decided and its state before.
    pub changed: Vec<(EdgeId, EdgeState)>,
    /// Edges cut by the drawing itself.
    pub is_pre_cut: Vec<bool>,
    pub eff_min_area: usize,
    pub eff_max_area: usize,
    pub total_cells: usize,
    /// Number of undecided edges, as the search keeps count of it.
    pub curr_unknown: usize,
    /// Component of each cell, when the area propagation has computed them.
    pub curr_comp_id: Vec<usize>,
    /// Whether each component can still grow.
    pub can_grow_buf: Vec<bool>,
    /// Number of cells of each component.
    pub curr_comp_sz: Vec<usize>,
    /// The area that each component must reach, when known.
    pub curr_target_area: Vec<Option<usize>>,
    /// Least and greatest area that each component can end with.
    pub curr_min_area: Vec<usize>,
    pub curr_max_area: Vec<usize>,
    /// The undecided edges out of each component.
    pub growth_edges: Vec<Vec<EdgeId>>,
    /// The cells of each component.
    pub comp_cells: Vec<Vec<CellId>>,
    /// Per cell: the component label that a flood fill gave it, or `usize::MAX`.
    pub comp_buf: Vec<usize>,
    /// For each cell, the indices of the cell clues written on it.
    pub cell_clues_indexed: Vec<Vec<usize>>,
    pub has_any_clue: Vec<bool>,
    /// The difference clues: (edge, value).
    pub diff_clues: Vec<(EdgeId, usize)>,
    /// Every edge that carries an edge clue (such an edge is cut).
    pub clue_cut_edges: Vec<EdgeId>,
    /// The vertices that carry a watchtower clue, each once.
    pub watchtower_vertices: Vec<VertexId>,
    /// Bit `i` is set when rose symbol `i` occurs.
    pub rose_bits_all: u8,
    /// The rose symbol of each cell (`u8::MAX` when it has none).
    pub cell_rose_sym: Vec<u8>,
    /// The number of pieces, when the rose clues fix it.
    pub rose_exact_piece_count: Option<usize>,
    pub in_probing: bool,
    pub has_palisade_clue: bool,
    pub has_compass_clue: bool,
    /// Pairs of cells that the search has put in different pieces.
    pub manual_diffs: Vec<(CellId, CellId)>,
    /// Pairs of cells that the search has put in the same piece.
    pub manual_sames: Vec<(CellId, CellId)>,
    /// Per component, the sizes that its sealed neighbours (and neighbours
    /// with a target area) will end with, when the size-separation pass has
    /// recorded them; the edge choice reads them.
    pub sealed_neighbor_sizes: Option<Vec<Vec<usize>>>,
    /// Per component, how many undecided edges lead out of it, as the area
    /// pass recorded it for the edge choice.
    pub growth_edge_count: Vec<usize>,
    /// Per cell, whether it is next to a compass clue, for the edge choice
    /// (empty when not recorded).
    pub compass_adjacent: Vec<bool>,
    /// The distinct area clues add up to the number of cells, so cells with
    /// equal area clues belong to one piece.
    pub same_area_groups: bool,
}

/// Every clue of the puzzle names a cell, edge or vertex of the grid, and
/// every rose symbol is below 8.
pub open spec fn clues_fit(p: Puzzle, g: Grid) -> bool {
    &&& forall|k: int|
        0 <= k < p.cell_clues@.len() ==> (#[trigger] p.cell_clues@[k]).spec_cell() < g.n_cells()
    &&& forall|k: int| 0 <= k < p.edge_clues@.len() ==> (#[trigger] p.edge_clues@[k]).edge < g.n_edges()
    &&& forall|k: int|
        0 <= k < p.vertex_clues@.len() ==> (#[trigger] p.vertex_clues@[k]).vertex < g.n_vertices()
    &&& forall|k: int|
        0 <= k < p.cell_clues@.len() ==> (#[trigger] p.cell_clues@[k] matches CellClue::Rose {
            symbol,
            ..
        } ==> symbol < 8)
}

/// The rose symbol of a clue, if it is a rose clue.
pub open spec fn rose_symbol(c: CellClue) -> Option<u8> {
    match c {
        CellClue::Rose { symbol, .. } => Some(symbol),
        _ => None,
    }
}

/// The set of rose symbols among the clues, as a bit mask.
pub open spec fn rose_bits(clues: Seq<CellClue>) -> u8
    decreases clues.len(),
{
    if clues.len() == 0 {
        0
    } else {
        let b = rose_bits(clues.drop_last());
        match rose_symbol(clues.last()) {
            Some(s) => b | (1u8 << s),
            None => b,
        }
    }
}

/// Number of rose clues with symbol `s`.
pub open spec fn rose_count(clues: Seq<CellClue>, s: u8) -> nat
    decreases clues.len(),
{
    if clues.len() == 0 {
        0
    } else {
        rose_count(clues.drop_last(), s) + if rose_symbol(clues.last()) == Some(s) {
            1nat
        } else {
            0nat
        }
    }
}

/// The difference clues, in order.
pub open spec fn diff_clues_of(clues: Seq<crate::types::EdgeClue>) -> Seq<(EdgeId, usize)>
    decreases clues.len(),
{
    if clues.len() == 0 {
        seq![]
    } else {
        let rest = diff_clues_of(clues.drop_last());
        match clues.last().kind {
            EdgeClueKind::Diff { value } => rest.push((clues.last().edge, value)),
            _ => rest,
        }
    }
}

/// The rose symbol of the first rose clue on cell `c`, from clue `i` on.
pub open spec fn first_rose_from(clues: Seq<CellClue>, c: int, i: int) -> Option<u8>
    decreases clues.len() - i,
{
    if i < 0 || i >= clues.len() {
        None
    } else if clues[i].spec_cell() == c && rose_symbol(clues[i]) is Some {
        rose_symbol(clues[i])
    } else {
        first_rose_from(clues, c, i + 1)
    }
}

impl Solver {
    /// The tables agree with the grid: one entry per edge and per cell, and
    /// every clue and every logged edge lies in the grid.
    pub open spec fn wf(&self) -> bool {
        &&& self.grid.wf()
        &&& self.edges@.len() == self.grid.n_edges()
        &&& self.is_pre_cut@.len() == self.grid.n_edges()
        &&& clues_fit(self.puzzle, self.grid)
        &&& forall|k: int| 0 <= k < self.changed@.len() ==> (#[trigger] self.changed@[k]).0 < self.grid.n_edges()
    }
}


proof fn lemma_rose_bits_push(clues: Seq<CellClue>, c: CellClue)
    ensures
        rose_bits(clues.push(c)) == (match rose_symbol(c) {
            Some(s) => rose_bits(clues) | (1u8 << s),
            None => rose_bits(clues),
        }),
        forall|s: u8| #[trigger] rose_count(clues.push(c), s) == rose_count(clues, s) + if rose_symbol(c) == Some(s) {
            1nat
        } else {
            0nat
        },
{
    assert(clues.push(c).drop_last() =~= clues);
}

proof fn lemma_rose_count_bound(clues: Seq<CellClue>, s: u8)
    ensures
        rose_count(clues, s) <= clues.len(),
    decreases clues.len(),
{
    if clues.len() > 0 {
        lemma_rose_count_bound(clues.drop_last(), s);
    }
}

proof fn lemma_diff_clues_push(clues: Seq<crate::types::EdgeClue>, c: crate::types::EdgeClue)
    ensures
        diff_clues_of(clues.push(c)) == (match c.kind {
            EdgeClueKind::Diff { value } => diff_clues_of(clues).push((c.edge, value)),
            _ => diff_clues_of(clues),
        }),
{
    assert(clues.push(c).drop_last() =~= clues);
}

proof fn lemma_first_rose_none(clues: Seq<CellClue>, c: int, i: int)
    requires
        0 <= i <= clues.len(),
        forall|j: int| i <= j < clues.len() ==> !(clues[j].spec_cell() == c && rose_symbol(clues[j]) is Some),
    ensures
        first_rose_from(clues, c, i) is None,
    decreases clues.len() - i,
{
    if i < clues.len() {
        lemma_first_rose_none(clues, c, i + 1);
    }
}

proof fn lemma_first_rose_at(clues: Seq<CellClue>, c: int, i: int, k: int)
    requires
        0 <= i <= k < clues.len(),
        forall|j: int| i <= j < k ==> !(clues[j].spec_cell() == c && rose_symbol(clues[j]) is Some),
        clues[k].spec_cell() == c,
        rose_symbol(clues[k]) is Some,
    ensures
        first_rose_from(clues, c, i) == rose_symbol(clues[k]),
    decreases k - i,
{
    if i < k {
        lemma_first_rose_at(clues, c, i + 1, k);
    }
}

impl Solver {
    /// A solver for the puzzle on the grid: every edge undecided, nothing cut
    /// yet, and the clue tables filled in.
    pub fn new(puzzle: Puzzle, grid: Grid) -> (s: Self)
        requires
            grid.wf(),
            clues_fit(puzzle, grid),
        ensures
            s.wf(),
            s.puzzle == puzzle,
            s.grid == grid,
            s.edges@ == Seq::new(grid.n_edges() as nat, |i: int| EdgeState::Unknown),
            s.is_pre_cut@ == Seq::new(grid.n_edges() as nat, |i: int| false),
            s.changed@.len() == 0,
            s.curr_unknown == grid.n_edges(),
            s.eff_min_area == 1,
            s.eff_max_area == usize::MAX,
            s.total_cells == 0,
            s.curr_comp_id@.len() == 0,
            s.can_grow_buf@.len() == 0,
            s.curr_comp_sz@.len() == 0,
            s.curr_target_area@.len() == 0,
            s.curr_min_area@.len() == 0,
            s.curr_max_area@.len() == 0,
            s.growth_edges@.len() == 0,
            s.comp_cells@.len() == 0,
            s.comp_buf@ == Seq::new(grid.n_cells() as nat, |i: int| usize::MAX),
            s.manual_diffs@.len() == 0,
            s.manual_sames@.len() == 0,
            s.sealed_neighbor_sizes is None,
            s.growth_edge_count@.len() == 0,
            s.compass_adjacent@.len() == 0,
            !s.same_area_groups,
            !s.in_probing,
            s.cell_clues_indexed@.len() == grid.n_cells(),
            forall|c: int, i: usize|
                0 <= c < grid.n_cells() ==> (#[trigger] s.cell_clues_indexed@[c]@.contains(i) <==> (i
                    < puzzle.cell_clues@.len() && puzzle.cell_clues@[i as int].spec_cell() == c)),
            forall|c: int, a: int, b: int|
                0 <= c < grid.n_cells() && 0 <= a < b < s.cell_clues_indexed@[c]@.len() ==> (
                #[trigger] s.cell_clues_indexed@[c]@[a]) < (#[trigger] s.cell_clues_indexed@[c]@[b]),
            s.has_any_clue@.len() == grid.n_cells(),
            forall|c: int|
                0 <= c < grid.n_cells() ==> (#[trigger] s.has_any_clue@[c] <==> exists|i: int|
                    0 <= i < puzzle.cell_clues@.len() && puzzle.cell_clues@[i].spec_cell() == c),
            s.diff_clues@ == diff_clues_of(puzzle.edge_clues@),
            s.clue_cut_edges@ == Seq::new(puzzle.edge_clues@.len(), |k: int| puzzle.edge_clues@[k].edge),
            forall|v: VertexId|
                s.watchtower_vertices@.contains(v) <==> exists|k: int|
                    0 <= k < puzzle.vertex_clues@.len() && puzzle.vertex_clues@[k].vertex == v,
            forall|a: int, b: int|
                0 <= a < b < s.watchtower_vertices@.len() ==> s.watchtower_vertices@[a]
                    != s.watchtower_vertices@[b],
            s.rose_bits_all == rose_bits(puzzle.cell_clues@),
            s.cell_rose_sym@.len() == grid.n_cells(),
            forall|c: int|
                0 <= c < grid.n_cells() ==> #[trigger] s.cell_rose_sym@[c] == (if grid.cell_exists@[c] {
                    match first_rose_from(puzzle.cell_clues@, c, 0) {
                        Some(x) => x,
                        None => u8::MAX,
                    }
                } else {
                    u8::MAX
                }),
            s.rose_bits_all == 0 ==> s.rose_exact_piece_count is None,
            s.rose_exact_piece_count matches Some(n) ==> n > 0 && forall|x: u8|
                #![trigger rose_count(puzzle.cell_clues@, x)]
                rose_count(puzzle.cell_clues@, x) == 0 || rose_count(puzzle.cell_clues@, x) == n,
            s.rose_bits_all != 0 && s.rose_exact_piece_count is None ==> exists|x: u8, y: u8|
                #![trigger rose_count(puzzle.cell_clues@, x), rose_count(puzzle.cell_clues@, y)]
                rose_count(puzzle.cell_clues@, x) > 0 && rose_count(puzzle.cell_clues@, y) > 0
                    && rose_count(puzzle.cell_clues@, x) != rose_count(puzzle.cell_clues@, y),
            s.has_palisade_clue <==> exists|k: int|
                0 <= k < puzzle.cell_clues@.len() && #[trigger] puzzle.cell_clues@[k] is Palisade,
            s.has_compass_clue <==> exists|k: int|
                0 <= k < puzzle.cell_clues@.len() && #[trigger] puzzle.cell_clues@[k] is Compass,
    {
        let n = grid.num_edges();
        proof {
            grid.lemma_sizes();
        }
        let nc = grid.num_cells();
        let ghost clues = puzzle.cell_clues@;
        let ncl = puzzle.cell_clues.len();
        // Clue indices per cell, and whether a cell has any clue.
        let mut cell_clues_indexed: Vec<Vec<usize>> = Vec::new();
        let mut has_any_clue: Vec<bool> = Vec::new();
        let mut c: usize = 0;
        while c < nc
            invariant
                c <= nc,
                ncl == clues.len(),
                clues == puzzle.cell_clues@,
                cell_clues_indexed@.len() == c,
                has_any_clue@.len() == c,
                forall|d: int, i: usize|
                    0 <= d < c ==> (#[trigger] cell_clues_indexed@[d]@.contains(i) <==> (i < clues.len()
                        && clues[i as int].spec_cell() == d)),
                forall|d: int, a: int, b: int|
                    0 <= d < c && 0 <= a < b < cell_clues_indexed@[d]@.len() ==> (
                    #[trigger] cell_clues_indexed@[d]@[a]) < (#[trigger] cell_clues_indexed@[d]@[b]),
                forall|d: int|
                    0 <= d < c ==> (#[trigger] has_any_clue@[d] <==> exists|i: int|
                        0 <= i < clues.len() && clues[i].spec_cell() == d),
            decreases nc - c,
        {
            let mut list: Vec<usize> = Vec::new();
            let mut i: usize = 0;
            while i < ncl
                invariant
                    i <= ncl == clues.len(),
                    clues == puzzle.cell_clues@,
                    forall|j: usize| (#[trigger] list@.contains(j)) <==> (j < i && clues[j as int].spec_cell() == c),
                    forall|a: int, b: int| 0 <= a < b < list@.len() ==> (#[trigger] list@[a]) < (#[trigger] list@[b]),
                    forall|a: int| 0 <= a < list@.len() ==> (#[trigger] list@[a]) < i,
                decreases ncl - i,
            {
                if puzzle.cell_clues[i].cell() == c {
                    let ghost before = list@;
                    list.push(i);
                    proof {
                        assert forall|j: usize| (#[trigger] list@.contains(j)) <==> (j < i + 1
                            && clues[j as int].spec_cell() == c) by {
                            if list@.contains(j) {
                                let k = choose|k: int| 0 <= k < list@.len() && list@[k] == j;
                                if k < before.len() {
                                    assert(before[k] == j);
                                    assert(before.contains(j));
                                }
                            }
                            if j < i && clues[j as int].spec_cell() == c {
                                assert(before.contains(j));
                                let k = choose|k: int| 0 <= k < before.len() && before[k] == j;
                                assert(list@[k] == j);
                            }
                            if j == i {
                                assert(list@[before.len() as int] == i);
                            }
                        }
                    }
                } else {
                    proof {
                        assert forall|j: usize| (#[trigger] list@.contains(j)) <==> (j < i + 1
                            && clues[j as int].spec_cell() == c) by {
                            if list@.contains(j) {
                                let k = choose|k: int| 0 <= k < list@.len() && list@[k] == j;
                                assert(list@[k] < i);
                            }
                        }
                    }
                }
                i = i + 1;
            }
            let any = list.len() > 0;
            proof {
                if any {
                    assert(list@.contains(list@[0]));
                }
                if exists|j: int| 0 <= j < clues.len() && clues[j].spec_cell() == c {
                    let j = choose|j: int| 0 <= j < clues.len() && clues[j].spec_cell() == c;
                    assert(list@.contains(j as usize));
                }
            }
            cell_clues_indexed.push(list);
            has_any_clue.push(any);
            c = c + 1;
        }
        // Difference clues and the edges of all edge clues.
        let ghost eclues = puzzle.edge_clues@;
        let mut diff_clues: Vec<(EdgeId, usize)> = Vec::new();
        let mut clue_cut_edges: Vec<EdgeId> = Vec::new();
        let mut k: usize = 0;
        while k < puzzle.edge_clues.len()
            invariant
                k <= eclues.len(),
                eclues == puzzle.edge_clues@,
                diff_clues@ == diff_clues_of(eclues.take(k as int)),
                clue_cut_edges@ == Seq::new(k as nat, |j: int| eclues[j].edge),
            decreases eclues.len() - k,
        {
            let cl = puzzle.edge_clues[k];
            proof {
                lemma_diff_clues_push(eclues.take(k as int), cl);
                assert(eclues.take(k + 1) =~= eclues.take(k as int).push(cl));
            }
            if let EdgeClueKind::Diff { value } = cl.kind {
                diff_clues.push((cl.edge, value));
            }
            clue_cut_edges.push(cl.edge);
            k = k + 1;
        }
        proof {
            assert(eclues.take(eclues.len() as int) =~= eclues);
        }
        // Watchtower vertices, each once.
        let ghost vclues = puzzle.vertex_clues@;
        let mut watchtower_vertices: Vec<VertexId> = Vec::new();
        let mut k: usize = 0;
        while k < puzzle.vertex_clues.len()
            invariant
                k <= vclues.len(),
                vclues == puzzle.vertex_clues@,
                forall|v: VertexId|
                    watchtower_vertices@.contains(v) <==> exists|j: int| 0 <= j < k && vclues[j].vertex == v,
                forall|a: int, b: int|
                    0 <= a < b < watchtower_vertices@.len() ==> watchtower_vertices@[a]
                        != watchtower_vertices@[b],
            decreases vclues.len() - k,
        {
            let v = puzzle.vertex_clues[k].vertex;
            let mut seen = false;
            let mut j: usize = 0;
            while j < watchtower_vertices.len()
                invariant
                    j <= watchtower_vertices@.len(),
                    seen <==> exists|t: int| 0 <= t < j && watchtower_vertices@[t] == v,
                decreases watchtower_vertices@.len() - j,
            {
                if watchtower_vertices[j] == v {
                    seen = true;
                }
                j = j + 1;
            }
            let ghost before = watchtower_vertices@;
            if !seen {
                watchtower_vertices.push(v);
                proof {
                    assert forall|w: VertexId| watchtower_vertices@.contains(w) <==> exists|t: int|
                        0 <= t < k + 1 && vclues[t].vertex == w by {
                        if watchtower_vertices@.contains(w) && w != v {
                            let t = choose|t: int| 0 <= t < watchtower_vertices@.len() && watchtower_vertices@[t] == w;
                            assert(before.contains(w)) by {
                                assert(before[t] == w);
                            }
                        }
                        if exists|t: int| 0 <= t < k + 1 && vclues[t].vertex == w {
                            if w != v {
                                let t = choose|t: int| 0 <= t < k + 1 && vclues[t].vertex == w;
                                assert(t < k);
                                assert(before.contains(w));
                                let u = choose|u: int| 0 <= u < before.len() && before[u] == w;
                                assert(watchtower_vertices@[u] == w);
                            } else {
                                assert(watchtower_vertices@[before.len() as int] == w);
                            }
                        }
                    }
                }
            } else {
                proof {
                    assert forall|w: VertexId| watchtower_vertices@.contains(w) <==> exists|t: int|
                        0 <= t < k + 1 && vclues[t].vertex == w by {
                        if exists|t: int| 0 <= t < k + 1 && vclues[t].vertex == w {
                            if w == v {
                                let t = choose|t: int| 0 <= t < j && watchtower_vertices@[t] == v;
                                assert(watchtower_vertices@.contains(w));
                            } else {
                                let t = choose|t: int| 0 <= t < k + 1 && vclues[t].vertex == w;
                                assert(t < k);
                            }
                        }
                    }
                }
            }
            k = k + 1;
        }
        // Rose symbols: their bit mask, their counts, and the flags.
        let mut rose_bits_all: u8 = 0;
        let mut counts: Vec<usize> = vec![0usize; 8];
        let mut has_palisade_clue = false;
        let mut has_compass_clue = false;
        let mut i: usize = 0;
        while i < ncl
            invariant
                i <= ncl == clues.len(),
                clues == puzzle.cell_clues@,
                clues_fit(puzzle, grid),
                rose_bits_all == rose_bits(clues.take(i as int)),
                counts@.len() == 8,
                forall|x: int| 0 <= x < 8 ==> #[trigger] counts@[x] == rose_count(clues.take(i as int), x as u8),
                forall|x: u8| 8 <= x ==> #[trigger] rose_count(clues.take(i as int), x) == 0,
                forall|x: int| 0 <= x < 8 ==> #[trigger] counts@[x] <= i,
                has_palisade_clue <==> exists|t: int| 0 <= t < i && #[trigger] clues[t] is Palisade,
                has_compass_clue <==> exists|t: int| 0 <= t < i && #[trigger] clues[t] is Compass,
            decreases ncl - i,
        {
            let cl = &puzzle.cell_clues[i];
            proof {
                lemma_rose_bits_push(clues.take(i as int), clues[i as int]);
                assert(clues.take(i + 1) =~= clues.take(i as int).push(clues[i as int]));
            }
            match cl {
                CellClue::Rose { symbol, .. } => {
                    let sym = *symbol;
                    assert(clues[i as int] matches CellClue::Rose { .. });
                    rose_bits_all = rose_bits_all | (1u8 << sym);
                    let old_count = counts[sym as usize];
                    counts.set(sym as usize, old_count + 1);
                },
                CellClue::Palisade { .. } => {
                    has_palisade_clue = true;
                },
                CellClue::Compass { .. } => {
                    has_compass_clue = true;
                },
                _ => {},
            }
            i = i + 1;
        }
        proof {
            assert(clues.take(ncl as int) =~= clues);
        }
        let rose_exact_piece_count = if rose_bits_all != 0 {
            let mut first: usize = 0;
            let mut all_same = true;
            let mut x: usize = 0;
            while x < 8
                invariant
                    x <= 8,
                    counts@.len() == 8,
                    first == 0 ==> forall|t: int| 0 <= t < x ==> #[trigger] counts@[t] == 0,
                    first > 0 ==> exists|t: int| 0 <= t < x && #[trigger] counts@[t] == first,
                    all_same ==> forall|t: int| 0 <= t < x ==> #[trigger] counts@[t] == 0 || counts@[t] == first,
                    !all_same ==> exists|t: int, u: int|
                        0 <= t < x && 0 <= u < x && #[trigger] counts@[t] > 0 && #[trigger] counts@[u] > 0
                            && counts@[t] != counts@[u],
                decreases 8 - x,
            {
                let cx = counts[x];
                if cx > 0 {
                    if first == 0 {
                        first = cx;
                    } else if cx != first {
                        if all_same {
                            proof {
                                let t = choose|t: int| 0 <= t < x && #[trigger] counts@[t] == first;
                                assert(counts@[x as int] > 0 && counts@[t] > 0 && counts@[x as int] != counts@[t]);
                            }
                        }
                        all_same = false;
                    }
                }
                x = x + 1;
            }
            if first > 0 && all_same {
                proof {
                    assert forall|y: u8| #![trigger rose_count(clues, y)]
                        rose_count(clues, y) == 0 || rose_count(clues, y) == first by {
                        if y < 8 {
                            assert(counts@[y as int] == rose_count(clues, y));
                        }
                    }
                }
                Some(first)
            } else {
                proof {
                    if first == 0 {
                        assert forall|y: u8| #[trigger] rose_count(clues, y) == 0 by {
                            if y < 8 {
                                assert(counts@[y as int] == rose_count(clues, y));
                            }
                        }
                        lemma_rose_bits_zero(clues);
                    } else {
                        let (t, u) = choose|t: int, u: int|
                            0 <= t < 8 && 0 <= u < 8 && #[trigger] counts@[t] > 0 && #[trigger] counts@[u] > 0
                                && counts@[t] != counts@[u];
                        assert(counts@[t] == rose_count(clues, t as u8));
                        assert(counts@[u] == rose_count(clues, u as u8));
                    }
                }
                None
            }
        } else {
            None
        };
        // The rose symbol of each existing cell: that of its first rose clue.
        let mut cell_rose_sym: Vec<u8> = vec![u8::MAX; nc];
        let mut i: usize = 0;
        while i < ncl
            invariant
                i <= ncl == clues.len(),
                clues == puzzle.cell_clues@,
                clues_fit(puzzle, grid),
                grid.wf(),
                nc == grid.n_cells(),
                cell_rose_sym@.len() == nc,
                forall|d: int|
                    0 <= d < nc ==> #[trigger] cell_rose_sym@[d] == (if grid.cell_exists@[d] {
                        match first_rose_from(clues.take(i as int), d, 0) {
                            Some(x) => x,
                            None => u8::MAX,
                        }
                    } else {
                        u8::MAX
                    }),
            decreases ncl - i,
        {
            let cl = &puzzle.cell_clues[i];
            let ghost pre = clues.take(i as int);
            let ghost post = clues.take(i + 1);
            proof {
                assert(post =~= pre.push(clues[i as int]));
                assert forall|d: int| 0 <= d < nc && first_rose_from(pre, d, 0) is Some implies first_rose_from(
                    post,
                    d,
                    0,
                ) == first_rose_from(pre, d, 0) by {
                    lemma_first_rose_prefix(pre, post, d, 0);
                }
                assert forall|d: int|
                    0 <= d < nc && first_rose_from(pre, d, 0) is None && !(clues[i as int].spec_cell() == d
                        && rose_symbol(clues[i as int]) is Some) implies first_rose_from(post, d, 0) is None by {
                    lemma_first_rose_none_inv(pre, d, 0);
                    lemma_first_rose_none(post, d, 0);
                }
                assert forall|d: int|
                    0 <= d < nc && first_rose_from(pre, d, 0) is None && clues[i as int].spec_cell() == d
                        && rose_symbol(clues[i as int]) is Some implies first_rose_from(post, d, 0) == rose_symbol(
                    clues[i as int],
                ) by {
                    lemma_first_rose_none_inv(pre, d, 0);
                    lemma_first_rose_at(post, d, 0, i as int);
                }
            }
            let ghost before = cell_rose_sym@;
            if let CellClue::Rose { cell, symbol } = cl {
                let c = *cell;
                if grid.cell_exists[c] && cell_rose_sym[c] == u8::MAX {
                    cell_rose_sym.set(c, *symbol);
                }
            }
            proof {
                assert forall|d: int| 0 <= d < nc implies #[trigger] cell_rose_sym@[d] == (if grid.cell_exists@[d] {
                    match first_rose_from(post, d, 0) {
                        Some(x) => x,
                        None => u8::MAX,
                    }
                } else {
                    u8::MAX
                }) by {
                    lemma_first_rose_small(pre, d, 0);
                    if first_rose_from(pre, d, 0) is Some {
                    } else if clues[i as int].spec_cell() == d && rose_symbol(clues[i as int]) is Some {
                    } else {
                    }
                }
            }
            i = i + 1;
        }
        proof {
            assert(clues.take(ncl as int) =~= clues);
        }
        let comp_buf: Vec<usize> = vec![usize::MAX; nc];
        Solver {
            puzzle,
            grid,
            edges: vec![EdgeState::Unknown; n],
            changed: Vec::new(),
            is_pre_cut: vec![false; n],
            eff_min_area: 1,
            eff_max_area: usize::MAX,
            total_cells: 0,
            curr_unknown: n,
            curr_comp_id: Vec::new(),
            can_grow_buf: Vec::new(),
            curr_comp_sz: Vec::new(),
            curr_target_area: Vec::new(),
            curr_min_area: Vec::new(),
            curr_max_area: Vec::new(),
            growth_edges: Vec::new(),
            comp_cells: Vec::new(),
            comp_buf,
            cell_clues_indexed,
            has_any_clue,
            diff_clues,
            clue_cut_edges,
            watchtower_vertices,
            rose_bits_all,
            cell_rose_sym,
            rose_exact_piece_count,
            in_probing: false,
            has_palisade_clue,
            has_compass_clue,
            manual_diffs: Vec::new(),
            manual_sames: Vec::new(),
            sealed_neighbor_sizes: None,
            growth_edge_count: Vec::new(),
            compass_adjacent: Vec::new(),
            same_area_groups: false,
        }
    }
}

proof fn lemma_rose_bits_zero(clues: Seq<CellClue>)
    requires
        forall|x: u8| #[trigger] rose_count(clues, x) == 0,
    ensures
        rose_bits(clues) == 0,
    decreases clues.len(),
{
    if clues.len() > 0 {
        let pre = clues.drop_last();
        assert forall|x: u8| #[trigger] rose_count(pre, x) == 0 by {
            assert(rose_count(clues, x) == 0);
        }
        lemma_rose_bits_zero(pre);
        if let Some(s) = rose_symbol(clues.last()) {
            assert(rose_count(clues, s) >= 1);
        }
    }
}

proof fn lemma_first_rose_prefix(pre: Seq<CellClue>, post: Seq<CellClue>, c: int, i: int)
    requires
        0 <= i <= pre.len(),
        pre.len() <= post.len(),
        forall|j: int| 0 <= j < pre.len() ==> post[j] == pre[j],
        first_rose_from(pre, c, i) is Some,
    ensures
        first_rose_from(post, c, i) == first_rose_from(pre, c, i),
    decreases pre.len() - i,
{
    if i < pre.len() {
        if !(pre[i].spec_cell() == c && rose_symbol(pre[i]) is Some) {
            lemma_first_rose_prefix(pre, post, c, i + 1);
        }
    }
}

proof fn lemma_first_rose_none_inv(clues: Seq<CellClue>, c: int, i: int)
    requires
        0 <= i <= clues.len(),
        first_rose_from(clues, c, i) is None,
    ensures
        forall|j: int| i <= j < clues.len() ==> !(clues[j].spec_cell() == c && rose_symbol(clues[j]) is Some),
    decreases clues.len() - i,
{
    if i < clues.len() {
        lemma_first_rose_none_inv(clues, c, i + 1);
    }
}


proof fn lemma_first_rose_small(clues: Seq<CellClue>, c: int, i: int)
    requires
        0 <= i,
        forall|k: int|
            0 <= k < clues.len() ==> (#[trigger] clues[k] matches CellClue::Rose { symbol, .. } ==> symbol < 8),
    ensures
        first_rose_from(clues, c, i) matches Some(x) ==> x < 8,
    decreases clues.len() - i,
{
    if i < clues.len() {
        lemma_first_rose_small(clues, c, i + 1);
    }
}


/// Adding a clue adds one to the count of its rose symbol.
pub proof fn lemma_rose_count_push_all(clues: Seq<CellClue>, c: CellClue)
    ensures
        forall|s: u8| #[trigger] rose_count(clues.push(c), s) == rose_count(clues, s) + if rose_symbol(c) == Some(s) {
            1nat
        } else {
            0nat
        },
{
    assert(clues.push(c).drop_last() =~= clues);
}

} // verus!
