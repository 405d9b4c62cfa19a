//! Watchtower clues: the number of pieces that meet at a grid point.
use vstd::prelude::*;
use super::Solver;
use super::edge_state::{lemma_decided_refl, lemma_set_all, ops_in_range, set_all, set_step};
use crate::grid::{lemma_div_mod_in_box, Grid};
use crate::uf::ParityUF;
use crate::types::{CellId, EdgeId, EdgeState, VertexId};

verus! {

/// The grid point of vertex `v`.
pub open spec fn vpos(g: Grid, v: int) -> (int, int) {
    (v / (g.cols + 1), v % (g.cols + 1))
}

/// The cell `o` is there and exists.
pub open spec fn present(g: Grid, o: Option<int>) -> bool {
    o matches Some(c) && g.cell_exists@[c]
}

/// Number of existing cells around vertex `v`.
pub open spec fn vertex_cell_count(g: Grid, v: int) -> nat {
    let cs = g.vertex_cells_spec(vpos(g, v).0, vpos(g, v).1);
    (if present(g, cs[0]) { 1nat } else { 0nat }) + (if present(g, cs[1]) { 1nat } else { 0nat }) + (if present(g, cs[2]) {
        1nat
    } else {
        0nat
    }) + (if present(g, cs[3]) { 1nat } else { 0nat })
}

/// The pairs of side-by-side cells around a grid point, by position:
/// (top-left, top-right), (top-left, bottom-left), (top-right, bottom-right),
/// (bottom-left, bottom-right).
pub open spec fn pair_at(k: int) -> (int, int) {
    if k == 0 {
        (0, 1)
    } else if k == 1 {
        (0, 2)
    } else if k == 2 {
        (1, 3)
    } else {
        (2, 3)
    }
}

fn pair_exec(k: usize) -> (r: (usize, usize))
    requires
        k < 4,
    ensures
        r.0 == pair_at(k as int).0,
        r.1 == pair_at(k as int).1,
        r.0 < 4,
        r.1 < 4,
{
    if k == 0 {
        (0, 1)
    } else if k == 1 {
        (0, 2)
    } else if k == 2 {
        (1, 3)
    } else {
        (2, 3)
    }
}

/// The edges between side-by-side existing cells around the grid point of
/// vertex `v`, among the first `k` pairs (see `pair_at`).
pub open spec fn tower_edges_upto(g: Grid, v: int, k: int) -> Seq<EdgeId>
    decreases k,
{
    if k <= 0 {
        seq![]
    } else {
        let prev = tower_edges_upto(g, v, k - 1);
        let cs = g.vertex_cells_spec(vpos(g, v).0, vpos(g, v).1);
        let a = cs[pair_at(k - 1).0];
        let b = cs[pair_at(k - 1).1];
        if present(g, a) && present(g, b) && g.edge_between_spec(a->0, b->0) is Some {
            prev.push(g.edge_between_spec(a->0, b->0)->0 as usize)
        } else {
            prev
        }
    }
}

/// The edges between side-by-side existing cells around the point of vertex `v`.
pub open spec fn tower_edges(g: Grid, v: int) -> Seq<EdgeId> {
    tower_edges_upto(g, v, 4)
}

/// How many of the edges `es` are in state `s`.
pub open spec fn count_state(edges: Seq<EdgeState>, es: Seq<EdgeId>, s: EdgeState) -> nat
    decreases es.len(),
{
    if es.len() == 0 {
        0
    } else {
        count_state(edges, es.drop_last(), s) + if edges[es.last() as int] == s {
            1nat
        } else {
            0nat
        }
    }
}

/// The undecided edges among `es`, in order.
pub open spec fn unknowns_of(edges: Seq<EdgeState>, es: Seq<EdgeId>) -> Seq<EdgeId>
    decreases es.len(),
{
    if es.len() == 0 {
        seq![]
    } else {
        let prev = unknowns_of(edges, es.drop_last());
        if edges[es.last() as int] == EdgeState::Unknown {
            prev.push(es.last())
        } else {
            prev
        }
    }
}

/// What a watchtower clue of `value` decides at a point with `n` existing
/// cells and `nedges` edges between them, `ncut` of them cut and `nunk`
/// undecided: a contradiction, nothing, or a state for every undecided edge.
/// Four cells in a 2 x 2 block make max(1, cuts) pieces; two or three cells
/// make 1 + cuts.
pub open spec fn tower_rule(n: int, nedges: int, value: int, ncut: int, nunk: int) -> Result<Option<EdgeState>, ()> {
    if n == 0 || (n == 1 && value == 1) {
        Ok(None)
    } else if value > n || n == 1 || nedges == 0 {
        if value > 1 {
            Err(())
        } else {
            Ok(None)
        }
    } else if n == 4 && nedges == 4 && value == 1 {
        if ncut >= 2 {
            Err(())
        } else if ncut == 1 && nunk > 0 {
            Ok(Some(EdgeState::Uncut))
        } else {
            Ok(None)
        }
    } else {
        let need = if n == 4 && nedges == 4 {
            value
        } else if value > 0 {
            value - 1
        } else {
            0
        };
        if ncut > need {
            Err(())
        } else if ncut == need && nunk > 0 {
            Ok(Some(EdgeState::Uncut))
        } else if ncut + nunk < need {
            Err(())
        } else if ncut + nunk == need && nunk > 0 {
            Ok(Some(EdgeState::Cut))
        } else {
            Ok(None)
        }
    }
}

/// The decisions that give every edge of `us` the state `st`.
pub open spec fn fill_ops(us: Seq<EdgeId>, st: EdgeState) -> Seq<(EdgeId, EdgeState)> {
    Seq::new(us.len(), |w: int| (us[w], st))
}

/// One watchtower clue, by the local rule (see `tower_rule`): the edge
/// states and log afterwards, whether it is a contradiction, and whether it
/// decided edges.
pub open spec fn tower_step(g: Grid, edges: Seq<EdgeState>, log: Seq<(EdgeId, EdgeState)>, clue: crate::types::VertexClue) -> (
    Seq<EdgeState>,
    Seq<(EdgeId, EdgeState)>,
    bool,
    bool,
) {
    let es = tower_edges(g, clue.vertex as int);
    let us = unknowns_of(edges, es);
    match tower_rule(
        vertex_cell_count(g, clue.vertex as int) as int,
        es.len() as int,
        clue.value as int,
        count_state(edges, es, EdgeState::Cut) as int,
        us.len() as int,
    ) {
        Err(()) => (edges, log, true, false),
        Ok(None) => (edges, log, false, false),
        Ok(Some(st)) => {
            let r = set_all(edges, log, fill_ops(us, st));
            (r.0, r.1, false, true)
        },
    }
}

/// The first `k` watchtower clues in order by the local rule: edge states,
/// log, whether a contradiction stopped the run (nothing changes after it),
/// and whether some edge was decided.
pub open spec fn tower_run(
    g: Grid,
    edges: Seq<EdgeState>,
    log: Seq<(EdgeId, EdgeState)>,
    clues: Seq<crate::types::VertexClue>,
    k: int,
) -> (Seq<EdgeState>, Seq<(EdgeId, EdgeState)>, bool, bool)
    decreases k,
{
    if k <= 0 {
        (edges, log, false, false)
    } else {
        let prev = tower_run(g, edges, log, clues, k - 1);
        if prev.2 {
            prev
        } else {
            let st = tower_step(g, prev.0, prev.1, clues[k - 1]);
            (st.0, st.1, st.2, prev.3 || st.3)
        }
    }
}

/// Once stopped, the run stays as it was.
proof fn lemma_tower_stopped(
    g: Grid,
    edges: Seq<EdgeState>,
    log: Seq<(EdgeId, EdgeState)>,
    clues: Seq<crate::types::VertexClue>,
    k: int,
    n: int,
)
    requires
        0 <= k <= n,
        tower_run(g, edges, log, clues, k).2,
    ensures
        tower_run(g, edges, log, clues, n) == tower_run(g, edges, log, clues, k),
    decreases n - k,
{
    if k < n {
        lemma_tower_stopped(g, edges, log, clues, k, n - 1);
    }
}

/// The undecided edges of a list are undecided, and come from the list.
proof fn lemma_unknowns_props(edges: Seq<EdgeState>, es: Seq<EdgeId>)
    ensures
        forall|w: int| 0 <= w < unknowns_of(edges, es).len() ==> edges[#[trigger] unknowns_of(edges, es)[w] as int]
            == EdgeState::Unknown,
        forall|w: int| 0 <= w < unknowns_of(edges, es).len() ==> es.contains(#[trigger] unknowns_of(edges, es)[w]),
    decreases es.len(),
{
    if es.len() > 0 {
        lemma_unknowns_props(edges, es.drop_last());
        let prev = unknowns_of(edges, es.drop_last());
        assert forall|w: int| 0 <= w < prev.len() implies es.contains(#[trigger] prev[w]) by {
            let i = choose|i: int| 0 <= i < es.drop_last().len() && es.drop_last()[i] == prev[w];
            assert(es[i] == prev[w]);
        }
        assert(es[es.len() - 1] == es.last());
    }
}

/// Deciding edges all to one state leaves each undecided edge undecided or in that state.
proof fn lemma_fill_uniform(
    edges: Seq<EdgeState>,
    log: Seq<(EdgeId, EdgeState)>,
    ops: Seq<(EdgeId, EdgeState)>,
    st: EdgeState,
    e: int,
)
    requires
        forall|w: int| 0 <= w < ops.len() ==> (#[trigger] ops[w]).1 == st,
        ops_in_range(ops, edges.len() as int),
        0 <= e < edges.len(),
        edges[e] == EdgeState::Unknown,
    ensures
        set_all(edges, log, ops).0[e] == EdgeState::Unknown || set_all(edges, log, ops).0[e] == st,
    decreases ops.len(),
{
    if ops.len() > 0 {
        let pre = ops.drop_last();
        assert forall|w: int| 0 <= w < pre.len() implies (#[trigger] pre[w]).1 == st by {
            assert(pre[w] == ops[w]);
        }
        assert forall|w: int| 0 <= w < pre.len() implies (#[trigger] pre[w]).0 < edges.len() by {
            assert(pre[w] == ops[w]);
        }
        lemma_fill_uniform(edges, log, pre, st, e);
        lemma_set_all(edges, log, pre);
        assert(ops[ops.len() - 1] == ops.last());
    }
}

impl Solver {
    /// The component tables, when filled in, cover every cell.
    pub open spec fn comp_tables_ok(&self) -> bool {
        self.curr_comp_id@.len() > 0 ==> self.curr_comp_id@.len() == self.grid.n_cells() && forall|c: int|
            0 <= c < self.curr_comp_id@.len() ==> #[trigger] self.curr_comp_id@[c] < self.can_grow_buf@.len()
    }

    /// The cells around vertex `v`, how many of them exist, and the edges
    /// between side-by-side existing ones.
    pub fn vertex_info(&self, v: VertexId) -> (r: (usize, [Option<CellId>; 4], Vec<EdgeId>))
        requires
            self.wf(),
            v < self.grid.n_vertices(),
        ensures
            r.0 == vertex_cell_count(self.grid, v as int),
            r.0 <= 4,
            forall|k: int|
                0 <= k < 4 ==> r.1@[k] == crate::grid::opt_usize(
                    #[trigger] self.grid.vertex_cells_spec(vpos(self.grid, v as int).0, vpos(self.grid, v as int).1)[k],
                ),
            forall|k: int| 0 <= k < 4 ==> (#[trigger] r.1@[k] matches Some(x) ==> x < self.grid.n_cells()),
            r.2@.len() <= 4,
            forall|k: int| 0 <= k < r.2@.len() ==> #[trigger] r.2@[k] < self.grid.n_edges(),
            r.2@ == tower_edges(self.grid, v as int),
    {
        proof {
            self.grid.lemma_sizes();
            lemma_div_mod_in_box(v as int, self.grid.rows + 1, self.grid.cols + 1);
        }
        let (vi, vj) = self.grid.vertex_pos(v);
        let cells = self.grid.vertex_cells(vi, vj);
        let mut n: usize = 0;
        let mut k: usize = 0;
        let ghost g = self.grid;
        let ghost cs = g.vertex_cells_spec(vi as int, vj as int);
        proof {
            lemma_vertex_cells_range(g, vi as int, vj as int);
            assert(vpos(g, v as int) == (vi as int, vj as int));
        }
        while k < 4
            invariant
                self.wf(),
                g == self.grid,
                k <= 4,
                n <= k,
                cs == g.vertex_cells_spec(vi as int, vj as int),
                forall|q: int| 0 <= q < 4 ==> cells@[q] == crate::grid::opt_usize(#[trigger] cs[q]),
                forall|q: int| 0 <= q < 4 ==> (#[trigger] cells@[q] matches Some(x) ==> x < g.n_cells()),
                forall|q: int| 0 <= q < 4 ==> (#[trigger] cs[q] matches Some(x) ==> 0 <= x < g.n_cells()),
                n == (if k > 0 && present(g, cs[0]) { 1nat } else { 0nat }) + (if k > 1 && present(g, cs[1]) {
                    1nat
                } else {
                    0nat
                }) + (if k > 2 && present(g, cs[2]) { 1nat } else { 0nat }) + (if k > 3 && present(g, cs[3]) {
                    1nat
                } else {
                    0nat
                }),
            decreases 4 - k,
        {
            proof {
                g.lemma_sizes();
                assert(cells@[k as int] == crate::grid::opt_usize(cs[k as int]));
                if let Some(x) = cs[k as int] {
                    assert(0 <= x < g.n_cells());
                }
                assert(present(g, cs[k as int]) == (cells@[k as int] matches Some(c) && g.cell_exists@[c as int]));
            }
            if let Some(c) = cells[k] {
                if self.grid.cell_exists[c] {
                    n = n + 1;
                }
            }
            k = k + 1;
        }
        let mut edge_ids: Vec<EdgeId> = Vec::new();
        let mut k: usize = 0;
        while k < 4
            invariant
                self.wf(),
                k <= 4,
                edge_ids@.len() <= k,
                forall|q: int| 0 <= q < 4 ==> (#[trigger] cells@[q] matches Some(x) ==> x < self.grid.n_cells()),
                forall|q: int| 0 <= q < edge_ids@.len() ==> #[trigger] edge_ids@[q] < self.grid.n_edges(),
                g == self.grid,
                cs == g.vertex_cells_spec(vi as int, vj as int),
                vpos(g, v as int) == (vi as int, vj as int),
                forall|q: int| 0 <= q < 4 ==> cells@[q] == crate::grid::opt_usize(#[trigger] cs[q]),
                forall|q: int| 0 <= q < 4 ==> (#[trigger] cs[q] matches Some(x) ==> 0 <= x < g.n_cells()),
                edge_ids@ == tower_edges_upto(g, v as int, k as int),
            decreases 4 - k,
        {
            let ghost before = edge_ids@;
            proof {
                g.lemma_sizes();
            }
            let (a, b) = pair_exec(k);
            proof {
                assert(cells@[a as int] == crate::grid::opt_usize(cs[a as int]));
                assert(cells@[b as int] == crate::grid::opt_usize(cs[b as int]));
            }
            if let (Some(ca), Some(cb)) = (cells[a], cells[b]) {
                if self.grid.cell_exists[ca] && self.grid.cell_exists[cb] {
                    if let Some(e) = self.grid.edge_between(ca, cb) {
                        edge_ids.push(e);
                    }
                }
            }
            k = k + 1;
        }
        proof {
            assert(vpos(self.grid, v as int) == (vi as int, vj as int));
        }
        (n, cells, edge_ids)
    }
}

/// The cells around a grid point are cells of the grid.
pub proof fn lemma_vertex_cells_range(g: Grid, i: int, j: int)
    requires
        g.wf(),
        0 <= i <= g.rows,
        0 <= j <= g.cols,
    ensures
        forall|q: int| 0 <= q < 4 ==> (#[trigger] g.vertex_cells_spec(i, j)[q] matches Some(x) ==> 0 <= x < g.n_cells()),
{
    if i > 0 && j > 0 {
        crate::grid::lemma_index_in_box(i - 1, j - 1, g.rows as int, g.cols as int);
    }
    if i > 0 && j < g.cols {
        crate::grid::lemma_index_in_box(i - 1, j, g.rows as int, g.cols as int);
    }
    if i < g.rows && j > 0 {
        crate::grid::lemma_index_in_box(i, j - 1, g.rows as int, g.cols as int);
    }
    if i < g.rows && j < g.cols {
        crate::grid::lemma_index_in_box(i, j, g.rows as int, g.cols as int);
    }
}


impl Solver {
    /// Watchtower clue `k` by the local rule (see `tower_step`).
    fn tower_local_step(&mut self, k: usize, Ghost(base): Ghost<Solver>) -> (r: Result<bool, ()>)
        requires
            old(self).wf(),
            old(self).decided_from(&base),
            k < old(self).puzzle.vertex_clues@.len(),
        ensures
            final(self).wf(),
            final(self).decided_from(&base),
            final(self).same_tables(old(self)),
            ({
                let st = tower_step(old(self).grid, old(self).edges@, old(self).changed@, old(self).puzzle.vertex_clues@[k as int]);
                &&& final(self).edges@ == st.0
                &&& final(self).changed@ == st.1
                &&& (r is Err <==> st.2)
                &&& r matches Ok(p) ==> p == st.3
            }),
            r matches Ok(p) && !p ==> final(self).edges == old(self).edges,
            !(1 <= vertex_cell_count(old(self).grid, old(self).puzzle.vertex_clues@[k as int].vertex as int)
                < old(self).puzzle.vertex_clues@[k as int].value) || r is Err,
    {
        let ghost s0 = *self;
        proof {
            lemma_decided_refl(self);
            crate::solver::edge_state::lemma_decided_len(&base, self);
        }
        let clue = self.puzzle.vertex_clues[k];
        proof {
            assert(clue.vertex < self.grid.n_vertices());
        }
        let value = clue.value;
        let (n, _cells, edge_ids) = self.vertex_info(clue.vertex);
        let ghost es = edge_ids@;
        let mut n_cut: usize = 0;
        let mut unk: Vec<EdgeId> = Vec::new();
        let mut t: usize = 0;
        while t < edge_ids.len()
            invariant
                self.wf(),
                *self == s0,
                es == edge_ids@,
                t <= edge_ids@.len() <= 4,
                n_cut <= t,
                unk@.len() <= t,
                forall|u: int| 0 <= u < edge_ids@.len() ==> #[trigger] edge_ids@[u] < self.grid.n_edges(),
                forall|u: int| 0 <= u < unk@.len() ==> #[trigger] unk@[u] < self.grid.n_edges(),
                n_cut == count_state(self.edges@, es.take(t as int), EdgeState::Cut),
                unk@ == unknowns_of(self.edges@, es.take(t as int)),
            decreases edge_ids@.len() - t,
        {
            let e = edge_ids[t];
            proof {
                assert(es.take(t + 1).drop_last() =~= es.take(t as int));
                assert(es.take(t + 1).last() == e);
            }
            if self.edges[e] == EdgeState::Cut {
                n_cut = n_cut + 1;
            } else if self.edges[e] == EdgeState::Unknown {
                unk.push(e);
            }
            t = t + 1;
        }
        proof {
            assert(es.take(es.len() as int) =~= es);
            lemma_unknowns_props(self.edges@, es);
        }
        let is_cycle = n == 4 && edge_ids.len() == 4;
        // The state to give every undecided edge, if one count is left.
        let mut fill: Option<EdgeState> = None;
        if n == 0 || (n == 1 && value == 1) {
            return Ok(false);
        }
        if value > n || n == 1 || edge_ids.len() == 0 {
            if value > 1 {
                return Err(());
            }
            return Ok(false);
        }
        if is_cycle && value == 1 {
            if n_cut >= 2 {
                return Err(());
            }
            if n_cut == 1 && unk.len() > 0 {
                fill = Some(EdgeState::Uncut);
            }
        } else {
            let need = if is_cycle {
                value
            } else if value > 0 {
                value - 1
            } else {
                0
            };
            if n_cut > need {
                return Err(());
            }
            if n_cut == need && unk.len() > 0 {
                fill = Some(EdgeState::Uncut);
            } else if n_cut + unk.len() < need {
                return Err(());
            } else if n_cut + unk.len() == need && unk.len() > 0 {
                fill = Some(EdgeState::Cut);
            }
        }
        match fill {
            None => Ok(false),
            Some(st) => {
                let ghost ops = fill_ops(unk@, st);
                proof {
                    assert forall|w: int| 0 <= w < ops.len() implies (#[trigger] ops[w]).0 < s0.edges@.len() by {
                    }
                }
                let mut u: usize = 0;
                while u < unk.len()
                    invariant
                        self.wf(),
                        self.decided_from(&base),
                        self.same_tables(&s0),
                        s0.edges@.len() == self.grid.n_edges(),
                        u <= unk@.len(),
                        ops == fill_ops(unk@, st),
                        ops_in_range(ops, s0.edges@.len() as int),
                        forall|w: int| 0 <= w < unk@.len() ==> #[trigger] unk@[w] < self.grid.n_edges(),
                        forall|w: int| 0 <= w < unk@.len() ==> s0.edges@[#[trigger] unk@[w] as int] == EdgeState::Unknown,
                        (self.edges@, self.changed@) == set_all(s0.edges@, s0.changed@, ops.take(u as int)),
                    decreases unk@.len() - u,
                {
                    proof {
                        let pre = ops.take(u as int);
                        assert forall|w: int| 0 <= w < pre.len() implies (#[trigger] pre[w]).1 == st by {
                        }
                        assert forall|w: int| 0 <= w < pre.len() implies (#[trigger] pre[w]).0 < s0.edges@.len() by {
                        }
                        lemma_fill_uniform(s0.edges@, s0.changed@, pre, st, unk@[u as int] as int);
                        assert(ops.take(u + 1).drop_last() =~= pre);
                        assert(ops.take(u + 1).last() == (unk@[u as int], st));
                    }
                    let ok = self.decide_edge(unk[u], st, Ghost(base));
                    if !ok {
                        return Err(());
                    }
                    u = u + 1;
                }
                proof {
                    assert(ops.take(unk@.len() as int) =~= ops);
                }
                Ok(true)
            },
        }
    }

    /// Watchtower propagation. A watchtower clue gives the number of pieces
    /// that meet at its grid point. With `k` cut edges between the existing
    /// cells around it, a 2 x 2 block makes max(1, k) pieces and two or three
    /// cells make 1 + k; the clue then bounds `k` and forces the undecided
    /// edges when only one count is left. When the components of the cells
    /// are known, sealed components are separate pieces, and a count that
    /// needs every component apart cuts the edges between them.
    pub fn propagate_watchtower(&mut self) -> (r: Result<bool, ()>)
        requires
            old(self).wf(),
            old(self).comp_tables_ok(),
        ensures
            final(self).wf(),
            final(self).decided_from(old(self)),
            r == Ok::<bool, ()>(false) ==> final(self).edges == old(self).edges,
            (exists|k: int|
                0 <= k < old(self).puzzle.vertex_clues@.len() && 1 <= vertex_cell_count(
                    old(self).grid,
                    (#[trigger] old(self).puzzle.vertex_clues@[k]).vertex as int,
                ) < old(self).puzzle.vertex_clues@[k].value) ==> r is Err,
            old(self).curr_comp_id@.len() == 0 ==> {
                let run = tower_run(
                    old(self).grid,
                    old(self).edges@,
                    old(self).changed@,
                    old(self).puzzle.vertex_clues@,
                    old(self).puzzle.vertex_clues@.len() as int,
                );
                &&& final(self).edges@ == run.0
                &&& final(self).changed@ == run.1
                &&& r == if run.2 {
                    Err::<bool, ()>(())
                } else {
                    Ok::<bool, ()>(run.3)
                }
            },
    {
        let ghost base = *self;
        proof {
            lemma_decided_refl(&base);
        }
        let mut progress = false;
        let nclues = self.puzzle.vertex_clues.len();
        if self.curr_comp_id.len() > 0 {
            let mut any_err = false;
            let mut forced: Vec<EdgeId> = Vec::new();
            let mut k: usize = 0;
            while k < nclues
                invariant
                    self.wf(),
                    *self == base,
                    base == *old(self),
                    base.decided_from(&base),
                    base.comp_tables_ok(),
                    self.curr_comp_id@.len() > 0,
                    nclues == self.puzzle.vertex_clues@.len(),
                    k <= nclues,
                    forall|j: int| 0 <= j < forced@.len() ==> #[trigger] forced@[j] < self.grid.n_edges(),
                decreases nclues - k,
            {
                let clue = self.puzzle.vertex_clues[k];
                let value = clue.value;
                let (n, cells, _edge_ids) = self.vertex_info(clue.vertex);
                if n == 0 || value > n || (n == 1 && value > 1) {
                    k = k + 1;
                    continue;
                }
                // The distinct components of the existing cells.
                let mut comps: Vec<usize> = Vec::new();
                let mut q: usize = 0;
                while q < 4
                    invariant
                        self.wf(),
                        base.comp_tables_ok(),
                        *self == base,
                        base == *old(self),
                        base.decided_from(&base),
                        self.curr_comp_id@.len() > 0,
                        q <= 4,
                        comps@.len() <= q,
                        forall|t: int| 0 <= t < 4 ==> (#[trigger] cells@[t] matches Some(x) ==> x < self.grid.n_cells()),
                        forall|t: int| 0 <= t < comps@.len() ==> #[trigger] comps@[t] < self.can_grow_buf@.len(),
                    decreases 4 - q,
                {
                    if let Some(c) = cells[q] {
                        if self.grid.cell_exists[c] {
                            let ci = self.curr_comp_id[c];
                            let mut seen = false;
                            let mut t: usize = 0;
                            while t < comps.len()
                                invariant
                                    t <= comps@.len(),
                                decreases comps@.len() - t,
                            {
                                if comps[t] == ci {
                                    seen = true;
                                }
                                t = t + 1;
                            }
                            if !seen {
                                comps.push(ci);
                            }
                        }
                    }
                    q = q + 1;
                }
                let mut num_sealed: usize = 0;
                let mut t: usize = 0;
                while t < comps.len()
                    invariant
                        t <= comps@.len(),
                        num_sealed <= t,
                        forall|u: int| 0 <= u < comps@.len() ==> #[trigger] comps@[u] < self.can_grow_buf@.len(),
                    decreases comps@.len() - t,
                {
                    if !self.can_grow_buf[comps[t]] {
                        num_sealed = num_sealed + 1;
                    }
                    t = t + 1;
                }
                let num_growing = comps.len() - num_sealed;
                let min_distinct = num_sealed + if num_growing > 0 { 1 } else { 0 };
                let max_distinct = comps.len();
                if value < min_distinct || value > max_distinct {
                    any_err = true;
                }
                if max_distinct == value && comps.len() > 1 {
                    let mut q: usize = 0;
                    while q < 4
                        invariant
                            self.wf(),
                            base.comp_tables_ok(),
                            *self == base,
                            base == *old(self),
                            base.decided_from(&base),
                            self.curr_comp_id@.len() > 0,
                            q <= 4,
                            forall|t: int| 0 <= t < 4 ==> (#[trigger] cells@[t] matches Some(x) ==> x < self.grid.n_cells()),
                            forall|j: int| 0 <= j < forced@.len() ==> #[trigger] forced@[j] < self.grid.n_edges(),
                        decreases 4 - q,
                    {
                        let (a, b) = pair_exec(q);
                        if let (Some(ca), Some(cb)) = (cells[a], cells[b]) {
                            if self.grid.cell_exists[ca] && self.grid.cell_exists[cb] && self.curr_comp_id[ca]
                                != self.curr_comp_id[cb] {
                                if let Some(e) = self.grid.edge_between(ca, cb) {
                                    if self.edges[e] == EdgeState::Unknown {
                                        forced.push(e);
                                    }
                                }
                            }
                        }
                        q = q + 1;
                    }
                }
                k = k + 1;
            }
            if any_err {
                return Err(());
            }
            let mut j: usize = 0;
            while j < forced.len()
                invariant
                    self.wf(),
                    self.decided_from(&base),
                    base == *old(self),
                    self.puzzle == base.puzzle,
                    self.grid == base.grid,
                    self.curr_comp_id == base.curr_comp_id,
                    base.curr_comp_id@.len() > 0,
                    j <= forced@.len(),
                    forall|t: int| 0 <= t < forced@.len() ==> #[trigger] forced@[t] < self.grid.n_edges(),
                    !progress ==> self.edges == base.edges,
                decreases forced@.len() - j,
            {
                if !self.decide_edge(forced[j], EdgeState::Cut, Ghost(base)) {
                    return Err(());
                }
                progress = true;
                j = j + 1;
            }
        }
        let ghost mid = *self;
        let ghost g = self.grid;
        let ghost clues = self.puzzle.vertex_clues@;
        let mut k: usize = 0;
        while k < nclues
            invariant
                self.wf(),
                self.decided_from(&base),
                base == *old(self),
                self.puzzle == base.puzzle,
                self.grid == base.grid,
                g == base.grid,
                clues == base.puzzle.vertex_clues@,
                nclues == self.puzzle.vertex_clues@.len(),
                k <= nclues,
                forall|t: int|
                    0 <= t < k ==> !(1 <= vertex_cell_count(self.grid, (#[trigger] self.puzzle.vertex_clues@[t]).vertex as int)
                        < self.puzzle.vertex_clues@[t].value),
                !progress ==> self.edges == base.edges,
                base.curr_comp_id@.len() == 0 ==> {
                    let run = tower_run(g, base.edges@, base.changed@, clues, k as int);
                    &&& !run.2
                    &&& self.edges@ == run.0
                    &&& self.changed@ == run.1
                    &&& progress == run.3
                },
            decreases nclues - k,
        {
            let ghost before = *self;
            let res = self.tower_local_step(k, Ghost(base));
            match res {
                Err(()) => {
                    proof {
                        if base.curr_comp_id@.len() == 0 {
                            assert(tower_run(g, base.edges@, base.changed@, clues, k + 1).2);
                            lemma_tower_stopped(g, base.edges@, base.changed@, clues, k + 1, nclues as int);
                        }
                    }
                    return Err(());
                },
                Ok(p) => {
                    if p {
                        progress = true;
                    }
                },
            }
            k = k + 1;
        }
        Ok(progress)
    }
}


/// Edge value for parity reasoning: 0 uncut, 1 cut, 2 undecided.
pub open spec fn edge_value(s: EdgeState) -> u8 {
    match s {
        EdgeState::Cut => 1,
        EdgeState::Uncut => 0,
        EdgeState::Unknown => 2,
    }
}

proof fn lemma_xor01(a: u8, b: u8)
    requires
        a <= 1,
        b <= 1,
    ensures
        a ^ b <= 1,
{
    assert(a ^ b <= 1) by (bit_vector)
        requires
            a <= 1,
            b <= 1,
    ;
}

fn state_of_value(v: u8) -> (s: EdgeState)
    ensures
        s == state_for(v),
{
    if v == 1 {
        EdgeState::Cut
    } else {
        EdgeState::Uncut
    }
}

/// The xor of the values at `ids` that are 0 or 1.
pub open spec fn xor_known(ev: Seq<u8>, ids: Seq<EdgeId>) -> u8
    decreases ids.len(),
{
    if ids.len() == 0 {
        0
    } else if ev[ids.last() as int] <= 1 {
        xor_known(ev, ids.drop_last()) ^ ev[ids.last() as int]
    } else {
        xor_known(ev, ids.drop_last())
    }
}

/// The ids whose value is not 0 or 1, in order.
pub open spec fn unknown_ids(ev: Seq<u8>, ids: Seq<EdgeId>) -> Seq<EdgeId>
    decreases ids.len(),
{
    if ids.len() == 0 {
        seq![]
    } else if ev[ids.last() as int] <= 1 {
        unknown_ids(ev, ids.drop_last())
    } else {
        unknown_ids(ev, ids.drop_last()).push(ids.last())
    }
}

/// The xor of the decided values among `ids` (0 or 1 each), and the undecided ids.
fn known_xor(ev: &Vec<u8>, ids: &Vec<EdgeId>) -> (r: (u8, Vec<EdgeId>))
    requires
        forall|k: int| 0 <= k < ids@.len() ==> #[trigger] ids@[k] < ev@.len(),
        forall|k: int| 0 <= k < ev@.len() ==> #[trigger] ev@[k] <= 2,
    ensures
        r.0 == xor_known(ev@, ids@),
        r.1@ == unknown_ids(ev@, ids@),
        r.0 <= 1,
        r.1@.len() <= ids@.len(),
        forall|k: int| 0 <= k < r.1@.len() ==> #[trigger] r.1@[k] < ev@.len(),
{
    let mut kx: u8 = 0;
    let mut unks: Vec<EdgeId> = Vec::new();
    let mut t: usize = 0;
    while t < ids.len()
        invariant
            t <= ids@.len(),
            kx <= 1,
            unks@.len() <= t,
            forall|k: int| 0 <= k < ids@.len() ==> #[trigger] ids@[k] < ev@.len(),
            forall|k: int| 0 <= k < ev@.len() ==> #[trigger] ev@[k] <= 2,
            forall|k: int| 0 <= k < unks@.len() ==> #[trigger] unks@[k] < ev@.len(),
            kx == xor_known(ev@, ids@.take(t as int)),
            unks@ == unknown_ids(ev@, ids@.take(t as int)),
        decreases ids@.len() - t,
    {
        let e = ids[t];
        proof {
            assert(ids@.take(t + 1).drop_last() =~= ids@.take(t as int));
            assert(ids@.take(t + 1).last() == e);
        }
        if ev[e] <= 1 {
            proof {
                lemma_xor01(kx, ev@[e as int]);
            }
            kx = kx ^ ev[e];
        } else {
            unks.push(e);
        }
        t = t + 1;
    }
    proof {
        assert(ids@.take(ids@.len() as int) =~= ids@);
    }
    (kx, unks)
}

/// Whether every id in `ids` has a decided value (0 or 1).
pub open spec fn all_known(ev: Seq<u8>, ids: Seq<EdgeId>) -> bool {
    forall|i: int| 0 <= i < ids.len() ==> #[trigger] ev[ids[i] as int] <= 1
}

/// The values of edge states: 0 uncut, 1 cut, 2 undecided.
pub open spec fn values(edges: Seq<EdgeState>) -> Seq<u8> {
    edges.map_values(|s: EdgeState| edge_value(s))
}

/// The parity of the number of cut edges that a watchtower clue of `value`
/// fixes at a grid point with `n` existing cells and `nedges` edges between
/// them, where it fixes one: with four cells the pieces number max(1, k) for
/// `k` cuts, so a value of at least two gives `k`; with two or three cells
/// they number 1 + k.
pub open spec fn clue_parity(n: int, value: int, nedges: int) -> Option<u8> {
    if n < 2 || (n == 4 && value <= 1) || nedges < 2 {
        None
    } else {
        let k = if n == 4 {
            value
        } else if value > 0 {
            value - 1
        } else {
            0
        };
        Some((k % 2) as u8)
    }
}

proof fn lemma_xor_frame(a: Seq<u8>, b: Seq<u8>, ids: Seq<EdgeId>)
    requires
        forall|i: int| 0 <= i < ids.len() ==> a[#[trigger] ids[i] as int] == b[ids[i] as int],
    ensures
        xor_known(a, ids) == xor_known(b, ids),
        unknown_ids(a, ids) == unknown_ids(b, ids),
    decreases ids.len(),
{
    if ids.len() > 0 {
        let p = ids.drop_last();
        assert forall|i: int| 0 <= i < p.len() implies a[#[trigger] p[i] as int] == b[p[i] as int] by {
            assert(p[i] == ids[i]);
        }
        lemma_xor_frame(a, b, p);
        assert(ids.last() == ids[ids.len() - 1]);
    }
}

proof fn lemma_unknown_ids_props(ev: Seq<u8>, ids: Seq<EdgeId>)
    ensures
        forall|q: int| 0 <= q < unknown_ids(ev, ids).len() ==> ev[#[trigger] unknown_ids(ev, ids)[q] as int] > 1,
        unknown_ids(ev, ids).len() == 0 ==> all_known(ev, ids),
    decreases ids.len(),
{
    if ids.len() > 0 {
        let p = ids.drop_last();
        lemma_unknown_ids_props(ev, p);
        if unknown_ids(ev, ids).len() == 0 {
            assert forall|i: int| 0 <= i < ids.len() implies #[trigger] ev[ids[i] as int] <= 1 by {
                if i < ids.len() - 1 {
                    assert(p[i] == ids[i]);
                }
            }
        }
    }
}

proof fn lemma_unknown_count(ev: Seq<u8>, edges: Seq<EdgeState>, ids: Seq<EdgeId>)
    requires
        forall|i: int| 0 <= i < ids.len() ==> (ev[#[trigger] ids[i] as int] > 1 ==> edges[ids[i] as int] == EdgeState::Unknown),
    ensures
        unknown_ids(ev, ids).len() <= count_state(edges, ids, EdgeState::Unknown),
    decreases ids.len(),
{
    if ids.len() > 0 {
        let p = ids.drop_last();
        assert forall|i: int| 0 <= i < p.len() && ev[#[trigger] p[i] as int] > 1 implies edges[p[i] as int] == EdgeState::Unknown by {
            assert(p[i] == ids[i]);
        }
        lemma_unknown_count(ev, edges, p);
        assert(ids.last() == ids[ids.len() - 1]);
    }
}

proof fn lemma_xor_swap(x: u8, v: u8, l: u8)
    ensures
        (x ^ v) ^ l == (x ^ l) ^ v,
        x ^ (x ^ v) == v,
{
    assert((x ^ v) ^ l == (x ^ l) ^ v) by (bit_vector);
    assert(x ^ (x ^ v) == v) by (bit_vector);
}

proof fn lemma_fill_one(ev: Seq<u8>, ids: Seq<EdgeId>, u: EdgeId, v: u8)
    requires
        unknown_ids(ev, ids) == seq![u],
        u < ev.len(),
        v <= 1,
        forall|i: int| 0 <= i < ids.len() ==> #[trigger] ids[i] < ev.len(),
    ensures
        all_known(ev.update(u as int, v), ids),
        xor_known(ev.update(u as int, v), ids) == xor_known(ev, ids) ^ v,
    decreases ids.len(),
{
    let ev2 = ev.update(u as int, v);
    let p = ids.drop_last();
    assert(unknown_ids(ev, ids).len() == 1);
    assert(ids.len() > 0);
    let l = ids.last();
    assert(l == ids[ids.len() - 1]);
    lemma_unknown_ids_props(ev, ids);
    assert(ev[u as int] > 1) by {
        assert(unknown_ids(ev, ids)[0] == u);
    }
    if ev[l as int] > 1 {
        // The last id is the undecided one.
        assert(unknown_ids(ev, ids) == unknown_ids(ev, p).push(l));
        assert(unknown_ids(ev, p).len() == 0);
        assert(unknown_ids(ev, ids)[0] == l);
        lemma_unknown_ids_props(ev, p);
        assert(l == u);
        assert forall|i: int| 0 <= i < p.len() implies ev2[#[trigger] p[i] as int] == ev[p[i] as int] by {
            assert(p[i] == ids[i]);
            assert(ev[p[i] as int] <= 1);
        }
        lemma_xor_frame(ev2, ev, p);
        assert forall|i: int| 0 <= i < ids.len() implies #[trigger] ev2[ids[i] as int] <= 1 by {
            if i < ids.len() - 1 {
                assert(p[i] == ids[i]);
            }
        }
    } else {
        assert(unknown_ids(ev, p) == seq![u]);
        assert forall|i: int| 0 <= i < p.len() implies #[trigger] p[i] < ev.len() by {
            assert(p[i] == ids[i]);
        }
        lemma_fill_one(ev, p, u, v);
        assert(l != u);
        lemma_xor_swap(xor_known(ev, p), v, ev[l as int]);
        assert forall|i: int| 0 <= i < ids.len() implies #[trigger] ev2[ids[i] as int] <= 1 by {
            if i < ids.len() - 1 {
                assert(p[i] == ids[i]);
            }
        }
    }
}

proof fn lemma_values_known(edges: Seq<EdgeState>, ids: Seq<EdgeId>)
    requires
        forall|i: int| 0 <= i < ids.len() ==> #[trigger] ids[i] < edges.len(),
        all_known(values(edges), ids),
    ensures
        count_state(edges, ids, EdgeState::Unknown) == 0,
    decreases ids.len(),
{
    if ids.len() > 0 {
        let p = ids.drop_last();
        assert forall|i: int| 0 <= i < p.len() implies #[trigger] p[i] < edges.len() by {
            assert(p[i] == ids[i]);
        }
        assert forall|i: int| 0 <= i < p.len() implies #[trigger] values(edges)[p[i] as int] <= 1 by {
            assert(p[i] == ids[i]);
            assert(values(edges)[ids[i] as int] <= 1);
        }
        lemma_values_known(edges, p);
        let l = ids[ids.len() - 1];
        assert(values(edges)[l as int] <= 1);
        assert(edges[l as int] != EdgeState::Unknown);
    }
}

/// The parity that a watchtower clue fixes at its grid point, if any.
pub open spec fn parity_at(g: Grid, clue: crate::types::VertexClue) -> Option<u8> {
    clue_parity(
        vertex_cell_count(g, clue.vertex as int) as int,
        clue.value as int,
        tower_edges(g, clue.vertex as int).len() as int,
    )
}

/// The state that a decided parity value stands for.
pub open spec fn state_for(v: u8) -> EdgeState {
    if v == 1 {
        EdgeState::Cut
    } else {
        EdgeState::Uncut
    }
}

/// How the working values `ev` relate to the edges before the pass: decided
/// edges keep their value, and every undecided edge that got a value is in
/// `forced`, once, at the index that `fidx` gives.
pub open spec fn values_tracked(
    base: Seq<EdgeState>,
    ev: Seq<u8>,
    forced: Seq<(EdgeId, EdgeState)>,
    fidx: Seq<int>,
) -> bool {
    &&& ev.len() == base.len()
    &&& fidx.len() == base.len()
    &&& forall|t: int| 0 <= t < ev.len() ==> #[trigger] ev[t] <= 2
    &&& forall|t: int|
        0 <= t < base.len() && base[t] != EdgeState::Unknown ==> #[trigger] ev[t] == edge_value(base[t])
    &&& forall|t: int|
        0 <= t < base.len() && base[t] == EdgeState::Unknown && #[trigger] ev[t] <= 1 ==> {
            &&& 0 <= fidx[t] < forced.len()
            &&& forced[fidx[t]].0 == t
            &&& forced[fidx[t]].1 == state_for(ev[t])
        }
    &&& forall|q: int|
        0 <= q < forced.len() ==> {
            &&& (#[trigger] forced[q]).0 < base.len()
            &&& base[forced[q].0 as int] == EdgeState::Unknown
            &&& fidx[forced[q].0 as int] == q
            &&& ev[forced[q].0 as int] <= 1
        }
}

proof fn lemma_force_value(
    base: Seq<EdgeState>,
    ev: Seq<u8>,
    forced: Seq<(EdgeId, EdgeState)>,
    fidx: Seq<int>,
    u: EdgeId,
    v: u8,
)
    requires
        values_tracked(base, ev, forced, fidx),
        u < ev.len(),
        ev[u as int] > 1,
        v <= 1,
    ensures
        values_tracked(
            base,
            ev.update(u as int, v),
            forced.push((u, state_for(v))),
            fidx.update(u as int, forced.len() as int),
        ),
        forall|t: int| 0 <= t < ev.len() && ev[t] <= 1 ==> #[trigger] ev.update(u as int, v)[t] == ev[t],
{
    let ev2 = ev.update(u as int, v);
    let f2 = forced.push((u, state_for(v)));
    let x2 = fidx.update(u as int, forced.len() as int);
    assert(base[u as int] == EdgeState::Unknown);
    assert forall|t: int|
        0 <= t < base.len() && base[t] == EdgeState::Unknown && #[trigger] ev2[t] <= 1 implies {
            &&& 0 <= x2[t] < f2.len()
            &&& f2[x2[t]].0 == t
            &&& f2[x2[t]].1 == state_for(ev2[t])
        } by {
        if t != u {
            assert(ev[t] <= 1);
        }
    }
    assert forall|q: int| 0 <= q < f2.len() implies {
        &&& (#[trigger] f2[q]).0 < base.len()
        &&& base[f2[q].0 as int] == EdgeState::Unknown
        &&& x2[f2[q].0 as int] == q
        &&& ev2[f2[q].0 as int] <= 1
    } by {
        if q < forced.len() {
            assert(f2[q] == forced[q]);
            assert(ev[forced[q].0 as int] <= 1);
            assert(forced[q].0 != u);
        }
    }
}

impl Solver {
    /// Parity propagation for watchtower clues whose count fixes the parity
    /// of the number of cut edges at their grid point: the edges there must
    /// xor to that parity. Two undecided edges at a point are tied together
    /// in a parity union-find, ties from other points can reduce a point with
    /// more undecided edges, and decided edges then fix the undecided edges
    /// tied to them. Fails on a parity conflict; in particular, on success
    /// every such point with at most one undecided edge before the pass has
    /// all its edges decided, with the cut ones of the fixed parity.
    #[verifier::loop_isolation(false)]
    #[verifier::spinoff_prover]
    #[verifier::rlimit(80)]
    pub fn propagate_vertex_edge_parity(&mut self) -> (r: Result<bool, ()>)
        requires
            old(self).wf(),
        ensures
            final(self).wf(),
            final(self).decided_from(old(self)),
            r == Ok::<bool, ()>(false) ==> final(self).edges == old(self).edges,
            r is Ok ==> forall|k: int|
                0 <= k < old(self).puzzle.vertex_clues@.len() && (parity_at(
                    old(self).grid,
                    #[trigger] old(self).puzzle.vertex_clues@[k],
                ) is Some) && count_state(
                    old(self).edges@,
                    tower_edges(old(self).grid, old(self).puzzle.vertex_clues@[k].vertex as int),
                    EdgeState::Unknown,
                ) <= 1 ==> {
                    let es = tower_edges(old(self).grid, old(self).puzzle.vertex_clues@[k].vertex as int);
                    &&& count_state(final(self).edges@, es, EdgeState::Unknown) == 0
                    &&& parity_at(old(self).grid, old(self).puzzle.vertex_clues@[k]) == Some(
                        xor_known(values(final(self).edges@), es),
                    )
                },
    {
        let ghost base = *self;
        let ghost g = self.grid;
        let ghost clues = self.puzzle.vertex_clues@;
        proof {
            lemma_decided_refl(&base);
        }
        if self.puzzle.vertex_clues.len() == 0 {
            return Ok(false);
        }
        let ne = self.grid.num_edges();
        let nclues = self.puzzle.vertex_clues.len();
        let mut cons_edges: Vec<Vec<EdgeId>> = Vec::new();
        let mut cons_parity: Vec<u8> = Vec::new();
        let ghost mut cmap: Seq<int> = Seq::empty();
        let mut k: usize = 0;
        while k < nclues
            invariant
                self.wf(),
                *self == base,
                base == *old(self),
                base.decided_from(&base),
                g == base.grid,
                clues == base.puzzle.vertex_clues@,
                ne == self.grid.n_edges(),
                nclues == self.puzzle.vertex_clues@.len(),
                k <= nclues,
                cons_edges@.len() == cons_parity@.len(),
                forall|j: int| 0 <= j < cons_parity@.len() ==> #[trigger] cons_parity@[j] <= 1,
                forall|j: int, t: int|
                    0 <= j < cons_edges@.len() && 0 <= t < cons_edges@[j]@.len() ==> #[trigger] cons_edges@[j]@[t] < ne,
                cmap.len() == k,
                forall|q: int|
                    0 <= q < k && (parity_at(g, #[trigger] clues[q]) is Some) ==> {
                        &&& 0 <= cmap[q] < cons_edges@.len()
                        &&& cons_edges@[cmap[q]]@ == tower_edges(g, clues[q].vertex as int)
                        &&& parity_at(g, clues[q]) == Some(cons_parity@[cmap[q]])
                    },
            decreases nclues - k,
        {
            let clue = self.puzzle.vertex_clues[k];
            let (n, _cells, edge_ids) = self.vertex_info(clue.vertex);
            proof {
                cmap = cmap.push(cons_edges@.len() as int);
            }
            k = k + 1;
            if n < 2 {
                continue;
            }
            let required_k = if n == 4 {
                if clue.value <= 1 {
                    continue;
                }
                clue.value
            } else if clue.value > 0 {
                clue.value - 1
            } else {
                0
            };
            if edge_ids.len() < 2 {
                continue;
            }
            let parity = (required_k % 2) as u8;
            cons_edges.push(edge_ids);
            cons_parity.push(parity);
        }
        let mut uf = ParityUF::new(ne);
        let mut ev: Vec<u8> = Vec::new();
        let mut e: usize = 0;
        while e < ne
            invariant
                self.wf(),
                *self == base,
                ne == self.grid.n_edges(),
                ne == base.edges@.len(),
                e <= ne,
                ev@.len() == e,
                forall|t: int| 0 <= t < e ==> #[trigger] ev@[t] == edge_value(base.edges@[t]),
            decreases ne - e,
        {
            let v: u8 = match self.edges[e] {
                EdgeState::Cut => 1,
                EdgeState::Uncut => 0,
                EdgeState::Unknown => 2,
            };
            ev.push(v);
            e = e + 1;
        }
        let mut forced: Vec<(EdgeId, EdgeState)> = Vec::new();
        let ghost mut fidx: Seq<int> = Seq::new(ne as nat, |t: int| -1int);
        proof {
            assert(values_tracked(base.edges@, ev@, forced@, fidx));
        }
        // Phase 1: constraints with no, one or two undecided edges.
        let mut c: usize = 0;
        while c < cons_edges.len()
            invariant
                self.wf(),
                *self == base,
                ne == self.grid.n_edges(),
                ne == base.edges@.len(),
                uf.wf(),
                uf.len() == ne,
                values_tracked(base.edges@, ev@, forced@, fidx),
                c <= cons_edges@.len(),
                forall|j: int|
                    0 <= j < c && count_state(base.edges@, (#[trigger] cons_edges@[j])@, EdgeState::Unknown) <= 1 ==> {
                        &&& all_known(ev@, cons_edges@[j]@)
                        &&& xor_known(ev@, cons_edges@[j]@) == cons_parity@[j]
                    },
            decreases cons_edges@.len() - c,
        {
            let parity = cons_parity[c];
            let ghost ids = cons_edges@[c as int]@;
            let ghost ev0 = ev@;
            let (kx, unks) = known_xor(&ev, &cons_edges[c]);
            proof {
                lemma_xor01(kx, parity);
                lemma_unknown_ids_props(ev@, ids);
                lemma_unknown_count(ev@, base.edges@, ids);
            }
            if unks.len() == 0 {
                if kx != parity {
                    return Err(());
                }
            } else if unks.len() == 1 {
                let v = kx ^ parity;
                let u = unks[0];
                proof {
                    assert(unks@ =~= seq![u]);
                    lemma_force_value(base.edges@, ev@, forced@, fidx, u, v);
                    lemma_fill_one(ev@, ids, u, v);
                    lemma_xor_swap(kx, parity, 0);
                    fidx = fidx.update(u as int, forced@.len() as int);
                }
                ev.set(u, v);
                forced.push((u, state_of_value(v)));
                proof {
                    assert forall|j: int|
                        0 <= j < c && count_state(base.edges@, (#[trigger] cons_edges@[j])@, EdgeState::Unknown) <= 1 implies {
                            &&& all_known(ev@, cons_edges@[j]@)
                            &&& xor_known(ev@, cons_edges@[j]@) == cons_parity@[j]
                        } by {
                        let idj = cons_edges@[j]@;
                        assert forall|i: int| 0 <= i < idj.len() implies ev@[#[trigger] idj[i] as int] == ev0[idj[i] as int] by {
                            assert(ev0[idj[i] as int] <= 1);
                        }
                        lemma_xor_frame(ev@, ev0, idj);
                    }
                }
            } else if unks.len() == 2 {
                match uf.union(unks[0], unks[1], kx ^ parity) {
                    Ok(_) => {},
                    Err(()) => {
                        return Err(());
                    },
                }
            }
            c = c + 1;
        }
        let ghost ev1 = ev@;
        proof {
            assert forall|q: int|
                0 <= q < clues.len() && (parity_at(g, #[trigger] clues[q]) is Some) && count_state(
                    base.edges@,
                    tower_edges(g, clues[q].vertex as int),
                    EdgeState::Unknown,
                ) <= 1 implies {
                    &&& all_known(ev1, tower_edges(g, clues[q].vertex as int))
                    &&& parity_at(g, clues[q]) == Some(xor_known(ev1, tower_edges(g, clues[q].vertex as int)))
                } by {
                let j = cmap[q];
                assert(cons_edges@[j]@ == tower_edges(g, clues[q].vertex as int));
            }
        }
        // Phase 2: ties from other points reduce points with three or more undecided edges.
        let mut c: usize = 0;
        while c < cons_edges.len()
            invariant
                self.wf(),
                *self == base,
                ne == self.grid.n_edges(),
                ne == base.edges@.len(),
                uf.wf(),
                uf.len() == ne,
                values_tracked(base.edges@, ev@, forced@, fidx),
                forall|t: int| 0 <= t < ne && ev1[t] <= 1 ==> #[trigger] ev@[t] == ev1[t],
                c <= cons_edges@.len(),
            decreases cons_edges@.len() - c,
        {
            let parity = cons_parity[c];
            let ghost ids = cons_edges@[c as int]@;
            let (kx, unks) = known_xor(&ev, &cons_edges[c]);
            proof {
                lemma_xor01(kx, parity);
                lemma_unknown_ids_props(ev@, ids);
            }
            if unks.len() >= 3 {
                let target = kx ^ parity;
                let mut done = false;
                let mut i: usize = 0;
                while i < unks.len() && !done
                    invariant
                        self.wf(),
                        *self == base,
                        uf.wf(),
                        uf.len() == ne,
                        values_tracked(base.edges@, ev@, forced@, fidx),
                        forall|t: int| 0 <= t < ne && ev1[t] <= 1 ==> #[trigger] ev@[t] == ev1[t],
                        forall|t: int| 0 <= t < unks@.len() ==> #[trigger] unks@[t] < ne,
                        !done ==> forall|t: int| 0 <= t < unks@.len() ==> ev@[#[trigger] unks@[t] as int] > 1,
                        target <= 1,
                        i <= unks@.len(),
                    decreases unks@.len() - i,
                {
                    let mut j = i + 1;
                    while j < unks.len() && !done
                        invariant
                            self.wf(),
                            *self == base,
                            uf.wf(),
                            uf.len() == ne,
                            values_tracked(base.edges@, ev@, forced@, fidx),
                            forall|t: int| 0 <= t < ne && ev1[t] <= 1 ==> #[trigger] ev@[t] == ev1[t],
                            forall|t: int| 0 <= t < unks@.len() ==> #[trigger] unks@[t] < ne,
                            !done ==> forall|t: int| 0 <= t < unks@.len() ==> ev@[#[trigger] unks@[t] as int] > 1,
                            target <= 1,
                            i < unks@.len(),
                            j <= unks@.len(),
                        decreases unks@.len() - j,
                    {
                        let (r1, p1) = uf.find(unks[i]);
                        let (r2, p2) = uf.find(unks[j]);
                        if r1 == r2 {
                            proof {
                                lemma_xor01(p1, p2);
                            }
                            let xij = p1 ^ p2;
                            let mut rem: Vec<EdgeId> = Vec::new();
                            let mut t: usize = 0;
                            while t < unks.len()
                                invariant
                                    t <= unks@.len(),
                                    rem@.len() <= t,
                                    forall|q: int| 0 <= q < unks@.len() ==> #[trigger] unks@[q] < ne,
                                    forall|q: int| 0 <= q < rem@.len() ==> #[trigger] rem@[q] < ne,
                                    forall|q: int| 0 <= q < rem@.len() ==> ev@[#[trigger] rem@[q] as int] > 1,
                                decreases unks@.len() - t,
                            {
                                if t != i && t != j {
                                    rem.push(unks[t]);
                                }
                                t = t + 1;
                            }
                            proof {
                                lemma_xor01(target, xij);
                            }
                            if rem.len() == 1 {
                                let v = target ^ xij;
                                let u = rem[0];
                                proof {
                                    lemma_force_value(base.edges@, ev@, forced@, fidx, u, v);
                                    fidx = fidx.update(u as int, forced@.len() as int);
                                }
                                ev.set(u, v);
                                forced.push((u, state_of_value(v)));
                            } else if rem.len() == 2 {
                                match uf.union(rem[0], rem[1], target ^ xij) {
                                    Ok(_) => {},
                                    Err(()) => {
                                        return Err(());
                                    },
                                }
                            }
                            done = true;
                        }
                        j = j + 1;
                    }
                    i = i + 1;
                }
            }
            c = c + 1;
        }
        // Phase 3: decided values fix the values of their union-find classes.
        let mut rv: Vec<Option<u8>> = Vec::new();
        let mut e: usize = 0;
        while e < ne
            invariant
                e <= ne,
                rv@.len() == e,
            decreases ne - e,
        {
            rv.push(None);
            e = e + 1;
        }
        let mut e: usize = 0;
        while e < ne
            invariant
                rv@.len() == ne,
                e <= ne,
            decreases ne - e,
        {
            if ev[e] <= 1 {
                let (root, p) = uf.find(e);
                proof {
                    lemma_xor01(p, ev@[e as int]);
                }
                let rr = p ^ ev[e];
                match rv[root] {
                    Some(ex) => {
                        if ex != rr {
                            return Err(());
                        }
                    },
                    None => {
                        rv.set(root, Some(rr));
                    },
                }
            }
            e = e + 1;
        }
        let mut e: usize = 0;
        while e < ne
            invariant
                self.wf(),
                *self == base,
                uf.wf(),
                uf.len() == ne,
                rv@.len() == ne,
                values_tracked(base.edges@, ev@, forced@, fidx),
                forall|t: int| 0 <= t < ne && ev1[t] <= 1 ==> #[trigger] ev@[t] == ev1[t],
                e <= ne,
            decreases ne - e,
        {
            if ev[e] > 1 {
                let (root, p) = uf.find(e);
                if let Some(rr) = rv[root] {
                    let w: u8 = if p ^ rr == 1 {
                        1
                    } else {
                        0
                    };
                    proof {
                        lemma_force_value(base.edges@, ev@, forced@, fidx, e, w);
                        fidx = fidx.update(e as int, forced@.len() as int);
                    }
                    ev.set(e, w);
                    forced.push((e, state_of_value(w)));
                }
            }
            e = e + 1;
        }
        let mut progress = false;
        let mut j: usize = 0;
        while j < forced.len()
            invariant
                self.wf(),
                self.decided_from(&base),
                self.grid == base.grid,
                self.edges@.len() == ne,
                j <= forced@.len(),
                values_tracked(base.edges@, ev@, forced@, fidx),
                forall|t: int|
                    0 <= t < ne ==> #[trigger] self.edges@[t] == if base.edges@[t] != EdgeState::Unknown {
                        base.edges@[t]
                    } else if ev@[t] <= 1 && fidx[t] < j {
                        forced@[fidx[t]].1
                    } else {
                        EdgeState::Unknown
                    },
                !progress ==> self.edges == base.edges,
            decreases forced@.len() - j,
        {
            let (e, st) = forced[j];
            proof {
                assert(fidx[e as int] == j);
            }
            if self.edges[e] == EdgeState::Unknown {
                if !self.decide_edge(e, st, Ghost(base)) {
                    return Err(());
                }
                progress = true;
            }
            j = j + 1;
        }
        proof {
            let fin = self.edges@;
            assert forall|t: int| 0 <= t < ne && ev@[t] <= 1 implies #[trigger] values(fin)[t] == ev@[t] by {
                if base.edges@[t] == EdgeState::Unknown {
                    assert(forced@[fidx[t]].1 == state_for(ev@[t]));
                }
            }
            assert forall|q: int|
                0 <= q < clues.len() && (parity_at(g, #[trigger] clues[q]) is Some) && count_state(
                    base.edges@,
                    tower_edges(g, clues[q].vertex as int),
                    EdgeState::Unknown,
                ) <= 1 implies {
                    &&& count_state(fin, tower_edges(g, clues[q].vertex as int), EdgeState::Unknown) == 0
                    &&& parity_at(g, clues[q]) == Some(xor_known(values(fin), tower_edges(g, clues[q].vertex as int)))
                } by {
                let es = tower_edges(g, clues[q].vertex as int);
                let jq = cmap[q];
                assert(cons_edges@[jq]@ == es);
                assert forall|i: int| 0 <= i < es.len() implies #[trigger] es[i] < ne by {
                    assert(cons_edges@[jq]@[i] < ne);
                }
                assert forall|i: int| 0 <= i < es.len() implies ev@[#[trigger] es[i] as int] == ev1[es[i] as int] by {
                    assert(ev1[es[i] as int] <= 1);
                }
                lemma_xor_frame(ev@, ev1, es);
                assert forall|i: int| 0 <= i < es.len() implies values(fin)[#[trigger] es[i] as int] == ev@[es[i] as int] by {
                    assert(ev@[es[i] as int] <= 1);
                }
                lemma_xor_frame(values(fin), ev@, es);
                lemma_values_known(fin, es);
            }
        }
        Ok(progress)
    }
}

} // verus!
