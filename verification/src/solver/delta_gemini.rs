//! A gemini clue and a delta clue in one straight line through a grid point.
//! The two edges across that line cannot both be uncut: the pieces on the two
//! sides would then be one piece on each side of both clues, equal in shape
//! and unequal at once. Under the bricky rule they cannot both be cut either,
//! since the clue edges themselves are cut.
use vstd::prelude::*;
use super::Solver;
use super::bricky_loopy::{lemma_vertex_edges_range, vedge};
use super::edge_state::{lemma_decided_refl, set_step};
use crate::grid::Grid;
use crate::types::{EdgeClue, EdgeClueKind, EdgeId, EdgeState};

verus! {

/// The kind of the last clue given for edge `e`: a later clue for the same
/// edge replaces an earlier one.
pub open spec fn kind_on(clues: Seq<EdgeClue>, e: int) -> Option<EdgeClueKind>
    decreases clues.len(),
{
    if clues.len() == 0 {
        None
    } else if clues.last().edge == e {
        Some(clues.last().kind)
    } else {
        kind_on(clues.drop_last(), e)
    }
}

/// One of the two edges carries a gemini clue and the other a delta clue.
pub open spec fn gemini_delta(clues: Seq<EdgeClue>, a: int, b: int) -> bool {
    ||| kind_on(clues, a) == Some(EdgeClueKind::Gemini) && kind_on(clues, b) == Some(EdgeClueKind::Delta)
    ||| kind_on(clues, a) == Some(EdgeClueKind::Delta) && kind_on(clues, b) == Some(EdgeClueKind::Gemini)
}

/// The pair (x, y) when edges `a` and `b` form a gemini/delta line.
pub open spec fn line_pair(clues: Seq<EdgeClue>, a: int, b: int, x: int, y: int) -> Seq<(int, int)> {
    if gemini_delta(clues, a, b) {
        seq![(x, y)]
    } else {
        seq![]
    }
}

/// The pairs of edges across a straight gemini/delta line through grid point
/// (i, j), when all four edges there exist: first the (north, south) pair
/// across a west-east line, then the (west, east) pair across a north-south line.
pub open spec fn point_pairs(g: Grid, clues: Seq<EdgeClue>, i: int, j: int) -> Seq<(int, int)> {
    let t = g.vertex_edges_spec(i, j);
    if t.0 is Some && t.1 is Some && t.2 is Some && t.3 is Some {
        line_pair(clues, t.0->0, t.1->0, t.2->0, t.3->0) + line_pair(clues, t.2->0, t.3->0, t.0->0, t.1->0)
    } else {
        seq![]
    }
}

/// The pairs at the first `j` points of row `i` of grid points.
pub open spec fn row_pairs(g: Grid, clues: Seq<EdgeClue>, i: int, j: int) -> Seq<(int, int)>
    decreases j,
{
    if j <= 0 {
        seq![]
    } else {
        row_pairs(g, clues, i, j - 1) + point_pairs(g, clues, i, j - 1)
    }
}

/// The pairs at every point of the first `i` rows of grid points, row by row.
pub open spec fn grid_pairs(g: Grid, clues: Seq<EdgeClue>, i: int) -> Seq<(int, int)>
    decreases i,
{
    if i <= 0 {
        seq![]
    } else {
        grid_pairs(g, clues, i - 1) + row_pairs(g, clues, i - 1, g.cols + 1)
    }
}

/// Both edges across the line are uncut, or, under the bricky rule, both cut.
pub open spec fn cross_conflict(a: EdgeState, b: EdgeState, bricky: bool) -> bool {
    ||| a == EdgeState::Uncut && b == EdgeState::Uncut
    ||| bricky && a == EdgeState::Cut && b == EdgeState::Cut
}

/// The decision forced on the pair (x, y) whose states are (a, b): the
/// undecided edge becomes cut when the other is uncut, and, under the bricky
/// rule, uncut when the other is cut.
pub open spec fn cross_forced(x: int, y: int, a: EdgeState, b: EdgeState, bricky: bool) -> Option<(int, EdgeState)> {
    if a == EdgeState::Uncut && b == EdgeState::Unknown {
        Some((y, EdgeState::Cut))
    } else if b == EdgeState::Uncut && a == EdgeState::Unknown {
        Some((x, EdgeState::Cut))
    } else if bricky && a == EdgeState::Cut && b == EdgeState::Unknown {
        Some((y, EdgeState::Uncut))
    } else if bricky && b == EdgeState::Cut && a == EdgeState::Unknown {
        Some((x, EdgeState::Uncut))
    } else {
        None
    }
}

/// Checking the pairs in order: the edge states and log afterwards, whether
/// a conflict stopped the checks (nothing changes after it), and whether some
/// edge was decided.
pub open spec fn cross_run(
    edges: Seq<EdgeState>,
    log: Seq<(EdgeId, EdgeState)>,
    pairs: Seq<(int, int)>,
    bricky: bool,
) -> (Seq<EdgeState>, Seq<(EdgeId, EdgeState)>, bool, bool)
    decreases pairs.len(),
{
    if pairs.len() == 0 {
        (edges, log, false, false)
    } else {
        let prev = cross_run(edges, log, pairs.drop_last(), bricky);
        let x = pairs.last().0;
        let y = pairs.last().1;
        if prev.2 || cross_conflict(prev.0[x], prev.0[y], bricky) {
            (prev.0, prev.1, true, prev.3)
        } else {
            match cross_forced(x, y, prev.0[x], prev.0[y], bricky) {
                Some(d) => {
                    let next = set_step(prev.0, prev.1, d.0 as usize, d.1);
                    (next.0, next.1, false, true)
                },
                None => prev,
            }
        }
    }
}

/// Once a conflict has stopped the checks, more pairs change nothing.
proof fn lemma_run_stopped(
    edges: Seq<EdgeState>,
    log: Seq<(EdgeId, EdgeState)>,
    p: Seq<(int, int)>,
    q: Seq<(int, int)>,
    bricky: bool,
)
    requires
        cross_run(edges, log, p, bricky).2,
    ensures
        cross_run(edges, log, p + q, bricky) == cross_run(edges, log, p, bricky),
    decreases q.len(),
{
    if q.len() == 0 {
        assert(p + q =~= p);
    } else {
        lemma_run_stopped(edges, log, p, q.drop_last(), bricky);
        assert((p + q).drop_last() =~= p + q.drop_last());
    }
}

/// The pairs of the first `j1` points of a row come first among those of the
/// first `j2`.
proof fn lemma_row_prefix(g: Grid, clues: Seq<EdgeClue>, i: int, j1: int, j2: int)
    requires
        0 <= j1 <= j2,
    ensures
        row_pairs(g, clues, i, j1).is_prefix_of(row_pairs(g, clues, i, j2)),
    decreases j2,
{
    if j1 < j2 {
        lemma_row_prefix(g, clues, i, j1, j2 - 1);
        let a = row_pairs(g, clues, i, j1);
        let b = row_pairs(g, clues, i, j2 - 1);
        let c = point_pairs(g, clues, i, j2 - 1);
        assert((b + c).subrange(0, a.len() as int) =~= b.subrange(0, a.len() as int));
    }
}

/// The pairs of the first `i1` rows come first among those of the first `i2`.
proof fn lemma_grid_prefix(g: Grid, clues: Seq<EdgeClue>, i1: int, i2: int)
    requires
        0 <= i1 <= i2,
    ensures
        grid_pairs(g, clues, i1).is_prefix_of(grid_pairs(g, clues, i2)),
    decreases i2,
{
    if i1 < i2 {
        lemma_grid_prefix(g, clues, i1, i2 - 1);
        let a = grid_pairs(g, clues, i1);
        let b = grid_pairs(g, clues, i2 - 1);
        let c = row_pairs(g, clues, i2 - 1, g.cols + 1);
        assert((b + c).subrange(0, a.len() as int) =~= b.subrange(0, a.len() as int));
    }
}

/// What has been checked up to point (i, j), plus `extra`, a prefix of the
/// pairs at that point, comes first among all the pairs of the grid.
proof fn lemma_done_prefix(g: Grid, clues: Seq<EdgeClue>, i: int, j: int, extra: Seq<(int, int)>)
    requires
        0 <= i <= g.rows,
        0 <= j <= g.cols,
        extra.is_prefix_of(point_pairs(g, clues, i, j)),
    ensures
        (grid_pairs(g, clues, i) + row_pairs(g, clues, i, j) + extra).is_prefix_of(
            grid_pairs(g, clues, g.rows + 1),
        ),
{
    let a = grid_pairs(g, clues, i);
    let r = row_pairs(g, clues, i, j);
    let p = point_pairs(g, clues, i, j);
    let r1 = row_pairs(g, clues, i, j + 1);
    let rf = row_pairs(g, clues, i, g.cols + 1);
    let full = grid_pairs(g, clues, g.rows + 1);
    lemma_row_prefix(g, clues, i, j + 1, g.cols + 1);
    lemma_grid_prefix(g, clues, i + 1, g.rows + 1);
    assert(r1 == r + p);
    let d = a + r + extra;
    assert(grid_pairs(g, clues, i + 1) == a + rf);
    assert(d.len() <= full.len());
    assert forall|k: int| 0 <= k < d.len() implies #[trigger] d[k] == full[k] by {
        assert(full[k] == (a + rf)[k]);
        if k < a.len() {
        } else if k < a.len() + r.len() {
            assert(rf[k - a.len()] == r1[k - a.len()]);
            assert(r1[k - a.len()] == r[k - a.len()]);
        } else {
            assert(rf[k - a.len()] == r1[k - a.len()]);
            assert(r1[k - a.len()] == p[k - a.len() - r.len()]);
            assert(p[k - a.len() - r.len()] == extra[k - a.len() - r.len()]);
        }
    }
    assert(d =~= full.subrange(0, d.len() as int));
}

/// The whole run over the grid is the run over a prefix followed by the rest.
proof fn lemma_stopped_at_prefix(
    edges: Seq<EdgeState>,
    log: Seq<(EdgeId, EdgeState)>,
    p: Seq<(int, int)>,
    full: Seq<(int, int)>,
    bricky: bool,
)
    requires
        p.is_prefix_of(full),
        cross_run(edges, log, p, bricky).2,
    ensures
        cross_run(edges, log, full, bricky) == cross_run(edges, log, p, bricky),
{
    let q = full.subrange(p.len() as int, full.len() as int);
    assert(p + q =~= full);
    lemma_run_stopped(edges, log, p, q, bricky);
}

/// At grid point (i, j), where all four edges meet, one straight line through
/// the point carries a gemini clue and a delta clue, and both edges across
/// that line are in state `s`.
pub open spec fn crossed_line_at(
    g: Grid,
    clues: Seq<EdgeClue>,
    edges: Seq<EdgeState>,
    i: int,
    j: int,
    s: EdgeState,
) -> bool {
    let t = g.vertex_edges_spec(i, j);
    &&& 0 <= i <= g.rows
    &&& 0 <= j <= g.cols
    &&& t.0 is Some && t.1 is Some && t.2 is Some && t.3 is Some
    &&& ((gemini_delta(clues, t.0->0, t.1->0) && edges[t.2->0] == s && edges[t.3->0] == s) || (gemini_delta(
        clues,
        t.2->0,
        t.3->0,
    ) && edges[t.0->0] == s && edges[t.1->0] == s))
}

/// Both ends of every pair are edges.
pub open spec fn pairs_in(p: Seq<(int, int)>, n: int) -> bool {
    forall|k: int| 0 <= k < p.len() ==> 0 <= (#[trigger] p[k]).0 < n && 0 <= p[k].1 < n
}

proof fn lemma_point_pairs_in(g: Grid, clues: Seq<EdgeClue>, i: int, j: int)
    requires
        g.wf(),
        0 <= i <= g.rows,
        0 <= j <= g.cols,
    ensures
        pairs_in(point_pairs(g, clues, i, j), g.n_edges() as int),
{
    lemma_vertex_edges_range(g, i, j);
    assert(vedge(g, i, j, 0) == g.vertex_edges_spec(i, j).0);
    assert(vedge(g, i, j, 1) == g.vertex_edges_spec(i, j).1);
    assert(vedge(g, i, j, 2) == g.vertex_edges_spec(i, j).2);
    assert(vedge(g, i, j, 3) == g.vertex_edges_spec(i, j).3);
}

proof fn lemma_row_pairs_in(g: Grid, clues: Seq<EdgeClue>, i: int, j: int)
    requires
        g.wf(),
        0 <= i <= g.rows,
        0 <= j <= g.cols + 1,
    ensures
        pairs_in(row_pairs(g, clues, i, j), g.n_edges() as int),
    decreases j,
{
    if j > 0 {
        lemma_row_pairs_in(g, clues, i, j - 1);
        lemma_point_pairs_in(g, clues, i, j - 1);
        let a = row_pairs(g, clues, i, j - 1);
        let b = point_pairs(g, clues, i, j - 1);
        assert forall|k: int| 0 <= k < (a + b).len() implies 0 <= (#[trigger] (a + b)[k]).0 < g.n_edges() && 0 <= (a
            + b)[k].1 < g.n_edges() by {
            if k < a.len() {
                assert((a + b)[k] == a[k]);
            } else {
                assert((a + b)[k] == b[k - a.len()]);
            }
        }
    }
}

proof fn lemma_grid_pairs_in(g: Grid, clues: Seq<EdgeClue>, i: int)
    requires
        g.wf(),
        0 <= i <= g.rows + 1,
    ensures
        pairs_in(grid_pairs(g, clues, i), g.n_edges() as int),
    decreases i,
{
    if i > 0 {
        lemma_grid_pairs_in(g, clues, i - 1);
        lemma_row_pairs_in(g, clues, i - 1, g.cols + 1);
        let a = grid_pairs(g, clues, i - 1);
        let b = row_pairs(g, clues, i - 1, g.cols + 1);
        assert forall|k: int| 0 <= k < (a + b).len() implies 0 <= (#[trigger] (a + b)[k]).0 < g.n_edges() && 0 <= (a
            + b)[k].1 < g.n_edges() by {
            if k < a.len() {
                assert((a + b)[k] == a[k]);
            } else {
                assert((a + b)[k] == b[k - a.len()]);
            }
        }
    }
}

/// The checks never change a decided edge.
proof fn lemma_run_keeps_decided(
    edges: Seq<EdgeState>,
    log: Seq<(EdgeId, EdgeState)>,
    pairs: Seq<(int, int)>,
    bricky: bool,
)
    requires
        pairs_in(pairs, edges.len() as int),
    ensures
        cross_run(edges, log, pairs, bricky).0.len() == edges.len(),
        forall|t: int|
            0 <= t < edges.len() && edges[t] != EdgeState::Unknown ==> #[trigger] cross_run(
                edges,
                log,
                pairs,
                bricky,
            ).0[t] == edges[t],
    decreases pairs.len(),
{
    if pairs.len() > 0 {
        let p = pairs.drop_last();
        assert forall|k: int| 0 <= k < p.len() implies 0 <= (#[trigger] p[k]).0 < edges.len() && 0 <= p[k].1
            < edges.len() by {
            assert(p[k] == pairs[k]);
        }
        lemma_run_keeps_decided(edges, log, p, bricky);
        assert(pairs.last() == pairs[pairs.len() - 1]);
    }
}

/// A pair whose edges conflict stops the checks, at its turn or before.
proof fn lemma_conflict_stops(
    edges: Seq<EdgeState>,
    log: Seq<(EdgeId, EdgeState)>,
    pairs: Seq<(int, int)>,
    bricky: bool,
    k: int,
)
    requires
        pairs_in(pairs, edges.len() as int),
        0 <= k < pairs.len(),
        cross_conflict(edges[pairs[k].0], edges[pairs[k].1], bricky),
    ensures
        cross_run(edges, log, pairs, bricky).2,
    decreases pairs.len(),
{
    let p = pairs.drop_last();
    assert forall|q: int| 0 <= q < p.len() implies 0 <= (#[trigger] p[q]).0 < edges.len() && 0 <= p[q].1
        < edges.len() by {
        assert(p[q] == pairs[q]);
    }
    if k < pairs.len() - 1 {
        assert(p[k] == pairs[k]);
        lemma_conflict_stops(edges, log, p, bricky, k);
    } else {
        lemma_run_keeps_decided(edges, log, p, bricky);
        assert(pairs.last() == pairs[k]);
        let x = pairs[k].0;
        let y = pairs[k].1;
        assert(edges[x] != EdgeState::Unknown && edges[y] != EdgeState::Unknown);
        assert(cross_run(edges, log, p, bricky).0[x] == edges[x]);
        assert(cross_run(edges, log, p, bricky).0[y] == edges[y]);
    }
}

/// Both edges across a gemini/delta line uncut, or both cut under the bricky
/// rule, stop the checks over the whole grid with a conflict.
proof fn lemma_crossed_line_stops(
    g: Grid,
    clues: Seq<EdgeClue>,
    edges: Seq<EdgeState>,
    log: Seq<(EdgeId, EdgeState)>,
    bricky: bool,
    i: int,
    j: int,
    s: EdgeState,
)
    requires
        g.wf(),
        edges.len() == g.n_edges(),
        crossed_line_at(g, clues, edges, i, j, s),
        s == EdgeState::Uncut || (bricky && s == EdgeState::Cut),
    ensures
        cross_run(edges, log, grid_pairs(g, clues, g.rows + 1), bricky).2,
{
    let t = g.vertex_edges_spec(i, j);
    let a = grid_pairs(g, clues, i);
    let r = row_pairs(g, clues, i, j);
    let pts = point_pairs(g, clues, i, j);
    let p = a + r + pts;
    assert(pts.is_prefix_of(pts));
    lemma_done_prefix(g, clues, i, j, pts);
    lemma_grid_pairs_in(g, clues, i);
    lemma_row_pairs_in(g, clues, i, j);
    lemma_point_pairs_in(g, clues, i, j);
    assert forall|q: int| 0 <= q < p.len() implies 0 <= (#[trigger] p[q]).0 < edges.len() && 0 <= p[q].1
        < edges.len() by {
        if q < a.len() {
            assert(p[q] == a[q]);
        } else if q < a.len() + r.len() {
            assert(p[q] == r[q - a.len()]);
        } else {
            assert(p[q] == pts[q - a.len() - r.len()]);
        }
    }
    let l1 = line_pair(clues, t.0->0, t.1->0, t.2->0, t.3->0);
    let l2 = line_pair(clues, t.2->0, t.3->0, t.0->0, t.1->0);
    assert(pts == l1 + l2);
    let k: int = if gemini_delta(clues, t.0->0, t.1->0) && edges[t.2->0] == s && edges[t.3->0] == s {
        assert(pts[0] == (t.2->0, t.3->0));
        0
    } else {
        assert(pts[pts.len() - 1] == (t.0->0, t.1->0));
        pts.len() - 1
    };
    let kk = a.len() + r.len() + k;
    assert(p[kk] == pts[k]);
    lemma_conflict_stops(edges, log, p, bricky, kk);
    lemma_stopped_at_prefix(edges, log, p, grid_pairs(g, clues, g.rows + 1), bricky);
}

/// One of the kinds is gemini and the other delta.
fn gemini_delta_exec(a: Option<EdgeClueKind>, b: Option<EdgeClueKind>) -> (r: bool)
    ensures
        r == ((a == Some(EdgeClueKind::Gemini) && b == Some(EdgeClueKind::Delta)) || (a == Some(
            EdgeClueKind::Delta,
        ) && b == Some(EdgeClueKind::Gemini))),
{
    match (a, b) {
        (Some(EdgeClueKind::Gemini), Some(EdgeClueKind::Delta)) => true,
        (Some(EdgeClueKind::Delta), Some(EdgeClueKind::Gemini)) => true,
        _ => false,
    }
}

impl Solver {
    /// The kind of the last clue for each edge.
    fn edge_kinds(&self) -> (kinds: Vec<Option<EdgeClueKind>>)
        requires
            self.wf(),
        ensures
            kinds@.len() == self.grid.n_edges(),
            forall|e: int| 0 <= e < kinds@.len() ==> #[trigger] kinds@[e] == kind_on(self.puzzle.edge_clues@, e),
    {
        let n = self.grid.num_edges();
        let mut kinds: Vec<Option<EdgeClueKind>> = Vec::new();
        let mut k: usize = 0;
        while k < n
            invariant
                k <= n,
                kinds@.len() == k,
                forall|e: int| 0 <= e < k ==> #[trigger] kinds@[e] == None::<EdgeClueKind>,
            decreases n - k,
        {
            kinds.push(None);
            k = k + 1;
        }
        let clues = &self.puzzle.edge_clues;
        let mut t: usize = 0;
        proof {
            assert forall|e: int| 0 <= e < n implies #[trigger] kinds@[e] == kind_on(clues@.take(0), e) by {
                assert(clues@.take(0).len() == 0);
            }
        }
        while t < clues.len()
            invariant
                self.wf(),
                clues == &self.puzzle.edge_clues,
                n == self.grid.n_edges(),
                t <= clues@.len(),
                kinds@.len() == n,
                forall|e: int| 0 <= e < n ==> #[trigger] kinds@[e] == kind_on(clues@.take(t as int), e),
            decreases clues@.len() - t,
        {
            let clue = clues[t];
            proof {
                assert(clues@[t as int].edge < self.grid.n_edges());
            }
            kinds.set(clue.edge, Some(clue.kind));
            proof {
                let pre = clues@.take(t as int);
                let post = clues@.take(t + 1);
                assert(post.drop_last() =~= pre);
                assert(post.last() == clue);
                assert forall|e: int| 0 <= e < n implies #[trigger] kinds@[e] == kind_on(post, e) by {
                    if e != clue.edge as int {
                        assert(kinds@[e] == kind_on(pre, e));
                    }
                }
            }
            t = t + 1;
        }
        proof {
            assert(clues@.take(clues@.len() as int) =~= clues@);
        }
        kinds
    }

    /// The two edges across a gemini/delta line: a conflict is an error with
    /// nothing changed; otherwise the forced decision, if any, is made.
    fn propagate_transverse_pair(&mut self, e1: EdgeId, e2: EdgeId, Ghost(base): Ghost<Solver>) -> (r: Result<
        bool,
        (),
    >)
        requires
            old(self).wf(),
            old(self).decided_from(&base),
            e1 < old(self).grid.n_edges(),
            e2 < old(self).grid.n_edges(),
        ensures
            final(self).wf(),
            final(self).decided_from(&base),
            final(self).same_tables(old(self)),
            ({
                let a = old(self).edges@[e1 as int];
                let b = old(self).edges@[e2 as int];
                let bricky = old(self).puzzle.rules.bricky;
                if cross_conflict(a, b, bricky) {
                    &&& r is Err
                    &&& final(self).edges@ == old(self).edges@
                    &&& final(self).changed@ == old(self).changed@
                } else {
                    match cross_forced(e1 as int, e2 as int, a, b, bricky) {
                        Some(d) => {
                            &&& (final(self).edges@, final(self).changed@) == set_step(
                                old(self).edges@,
                                old(self).changed@,
                                d.0 as usize,
                                d.1,
                            )
                            &&& r == Ok::<bool, ()>(true)
                        },
                        None => {
                            &&& final(self).edges@ == old(self).edges@
                            &&& final(self).changed@ == old(self).changed@
                            &&& r == Ok::<bool, ()>(false)
                        },
                    }
                }
            }),
    {
        let mut progress = false;
        let s1 = self.edges[e1];
        let s2 = self.edges[e2];
        if s1 == EdgeState::Uncut && s2 == EdgeState::Uncut {
            return Err(());
        }
        if s1 == EdgeState::Uncut && s2 == EdgeState::Unknown && self.decide_edge(e2, EdgeState::Cut, Ghost(base)) {
            progress = true;
        }
        if s2 == EdgeState::Uncut && s1 == EdgeState::Unknown && self.decide_edge(e1, EdgeState::Cut, Ghost(base)) {
            progress = true;
        }
        if self.puzzle.rules.bricky {
            if s1 == EdgeState::Cut && s2 == EdgeState::Cut {
                return Err(());
            }
            if s1 == EdgeState::Cut && s2 == EdgeState::Unknown && self.decide_edge(
                e2,
                EdgeState::Uncut,
                Ghost(base),
            ) {
                progress = true;
            }
            if s2 == EdgeState::Cut && s1 == EdgeState::Unknown && self.decide_edge(
                e1,
                EdgeState::Uncut,
                Ghost(base),
            ) {
                progress = true;
            }
        }
        Ok(progress)
    }

    /// Checks the pair (x, y) when edges `a` and `b` form a gemini/delta
    /// line, continuing the run over `done`.
    fn check_line(
        &mut self,
        a: EdgeId,
        b: EdgeId,
        x: EdgeId,
        y: EdgeId,
        kinds: &Vec<Option<EdgeClueKind>>,
        Ghost(base): Ghost<Solver>,
        Ghost(done): Ghost<Seq<(int, int)>>,
    ) -> (res: Result<bool, ()>)
        requires
            old(self).wf(),
            old(self).decided_from(&base),
            a < old(self).grid.n_edges(),
            b < old(self).grid.n_edges(),
            x < old(self).grid.n_edges(),
            y < old(self).grid.n_edges(),
            kinds@.len() == old(self).grid.n_edges(),
            forall|e: int| 0 <= e < kinds@.len() ==> #[trigger] kinds@[e] == kind_on(old(self).puzzle.edge_clues@, e),
            !cross_run(base.edges@, base.changed@, done, old(self).puzzle.rules.bricky).2,
            old(self).edges@ == cross_run(base.edges@, base.changed@, done, old(self).puzzle.rules.bricky).0,
            old(self).changed@ == cross_run(base.edges@, base.changed@, done, old(self).puzzle.rules.bricky).1,
        ensures
            final(self).wf(),
            final(self).decided_from(&base),
            final(self).same_tables(old(self)),
            ({
                let run0 = cross_run(base.edges@, base.changed@, done, old(self).puzzle.rules.bricky);
                let run = cross_run(
                    base.edges@,
                    base.changed@,
                    done + line_pair(old(self).puzzle.edge_clues@, a as int, b as int, x as int, y as int),
                    old(self).puzzle.rules.bricky,
                );
                &&& final(self).edges@ == run.0
                &&& final(self).changed@ == run.1
                &&& (res is Err <==> run.2)
                &&& (res matches Ok(p) ==> run.3 == (run0.3 || p))
            }),
    {
        let ghost clues = self.puzzle.edge_clues@;
        let ghost bricky = self.puzzle.rules.bricky;
        let ghost lp = line_pair(clues, a as int, b as int, x as int, y as int);
        if gemini_delta_exec(kinds[a], kinds[b]) {
            proof {
                assert(lp == seq![(x as int, y as int)]);
                assert(done + lp =~= done.push((x as int, y as int)));
                assert(done.push((x as int, y as int)).drop_last() =~= done);
            }
            self.propagate_transverse_pair(x, y, Ghost(base))
        } else {
            proof {
                lemma_decided_refl(self);
                assert(done + lp =~= done);
            }
            Ok(false)
        }
    }

    /// Checks the pairs at grid point (r, c), continuing the run over `done`.
    fn check_point(
        &mut self,
        r: usize,
        c: usize,
        kinds: &Vec<Option<EdgeClueKind>>,
        Ghost(base): Ghost<Solver>,
        Ghost(done): Ghost<Seq<(int, int)>>,
    ) -> (res: Result<bool, ()>)
        requires
            old(self).wf(),
            old(self).decided_from(&base),
            r <= old(self).grid.rows,
            c <= old(self).grid.cols,
            kinds@.len() == old(self).grid.n_edges(),
            forall|e: int| 0 <= e < kinds@.len() ==> #[trigger] kinds@[e] == kind_on(old(self).puzzle.edge_clues@, e),
            !cross_run(base.edges@, base.changed@, done, old(self).puzzle.rules.bricky).2,
            old(self).edges@ == cross_run(base.edges@, base.changed@, done, old(self).puzzle.rules.bricky).0,
            old(self).changed@ == cross_run(base.edges@, base.changed@, done, old(self).puzzle.rules.bricky).1,
        ensures
            final(self).wf(),
            final(self).decided_from(&base),
            final(self).same_tables(old(self)),
            ({
                let run0 = cross_run(base.edges@, base.changed@, done, old(self).puzzle.rules.bricky);
                let run = cross_run(
                    base.edges@,
                    base.changed@,
                    done + point_pairs(old(self).grid, old(self).puzzle.edge_clues@, r as int, c as int),
                    old(self).puzzle.rules.bricky,
                );
                &&& final(self).edges@ == run.0
                &&& final(self).changed@ == run.1
                &&& (res is Err <==> run.2)
                &&& (res matches Ok(p) ==> run.3 == (run0.3 || p))
            }),
    {
        let ghost g = self.grid;
        let ghost clues = self.puzzle.edge_clues@;
        let ghost bricky = self.puzzle.rules.bricky;
        let ghost t = g.vertex_edges_spec(r as int, c as int);
        proof {
            lemma_vertex_edges_range(g, r as int, c as int);
            assert(vedge(g, r as int, c as int, 0) == t.0);
            assert(vedge(g, r as int, c as int, 1) == t.1);
            assert(vedge(g, r as int, c as int, 2) == t.2);
            assert(vedge(g, r as int, c as int, 3) == t.3);
        }
        let ve = self.grid.vertex_edges(r, c);
        let (h_west, h_east) = ve.horiz;
        let (v_north, v_south) = ve.vert;
        if h_west.is_some() && h_east.is_some() && v_north.is_some() && v_south.is_some() {
            let w = h_west.unwrap();
            let e = h_east.unwrap();
            let n = v_north.unwrap();
            let s = v_south.unwrap();
            let ghost l1 = line_pair(clues, w as int, e as int, n as int, s as int);
            let ghost l2 = line_pair(clues, n as int, s as int, w as int, e as int);
            proof {
                g.lemma_sizes();
                assert(t.0 == Some(w as int));
                assert(t.1 == Some(e as int));
                assert(t.2 == Some(n as int));
                assert(t.3 == Some(s as int));
                assert(point_pairs(g, clues, r as int, c as int) == l1 + l2);
            }
            // Across a west-east line: the north and south edges.
            let first = self.check_line(w, e, n, s, kinds, Ghost(base), Ghost(done));
            let p1 = match first {
                Err(()) => {
                    proof {
                        assert(done + (l1 + l2) =~= (done + l1) + l2);
                        lemma_run_stopped(base.edges@, base.changed@, done + l1, l2, bricky);
                    }
                    return Err(());
                },
                Ok(p) => p,
            };
            // Across a north-south line: the west and east edges.
            let second = self.check_line(n, s, w, e, kinds, Ghost(base), Ghost(done + l1));
            proof {
                assert(done + (l1 + l2) =~= (done + l1) + l2);
            }
            match second {
                Err(()) => Err(()),
                Ok(p2) => Ok(p1 || p2),
            }
        } else {
            proof {
                lemma_decided_refl(self);
                assert(done + point_pairs(g, clues, r as int, c as int) =~= done);
            }
            Ok(false)
        }
    }

    /// Gemini and delta clues meeting in a straight line at a grid point:
    /// the pairs of edges across such lines are checked point by point in
    /// row-major order (see `grid_pairs` and `cross_run`). A pair whose edges
    /// are both uncut, or both cut under the bricky rule, is a contradiction
    /// and stops the checks; otherwise the undecided edge of a pair becomes
    /// cut when the other is uncut, and uncut when the other is cut under the
    /// bricky rule. The flag says whether some edge was decided.
    pub fn propagate_delta_gemini_interaction(&mut self) -> (r: Result<bool, ()>)
        requires
            old(self).wf(),
        ensures
            final(self).wf(),
            final(self).decided_from(old(self)),
            ({
                let run = cross_run(
                    old(self).edges@,
                    old(self).changed@,
                    grid_pairs(old(self).grid, old(self).puzzle.edge_clues@, old(self).grid.rows + 1),
                    old(self).puzzle.rules.bricky,
                );
                &&& final(self).edges@ == run.0
                &&& final(self).changed@ == run.1
                &&& r == if run.2 {
                    Err::<bool, ()>(())
                } else {
                    Ok::<bool, ()>(run.3)
                }
            }),
            (exists|i: int, j: int|
                crossed_line_at(
                    old(self).grid,
                    old(self).puzzle.edge_clues@,
                    old(self).edges@,
                    i,
                    j,
                    EdgeState::Uncut,
                )) ==> r is Err,
            old(self).puzzle.rules.bricky && (exists|i: int, j: int|
                crossed_line_at(
                    old(self).grid,
                    old(self).puzzle.edge_clues@,
                    old(self).edges@,
                    i,
                    j,
                    EdgeState::Cut,
                )) ==> r is Err,
    {
        proof {
            let g0 = self.grid;
            let c0 = self.puzzle.edge_clues@;
            let e0 = self.edges@;
            if exists|i: int, j: int| crossed_line_at(g0, c0, e0, i, j, EdgeState::Uncut) {
                let (i, j) = choose|i: int, j: int| crossed_line_at(g0, c0, e0, i, j, EdgeState::Uncut);
                lemma_crossed_line_stops(g0, c0, e0, self.changed@, self.puzzle.rules.bricky, i, j, EdgeState::Uncut);
            }
            if self.puzzle.rules.bricky && exists|i: int, j: int| crossed_line_at(g0, c0, e0, i, j, EdgeState::Cut) {
                let (i, j) = choose|i: int, j: int| crossed_line_at(g0, c0, e0, i, j, EdgeState::Cut);
                lemma_crossed_line_stops(g0, c0, e0, self.changed@, self.puzzle.rules.bricky, i, j, EdgeState::Cut);
            }
        }
        let ghost base = *self;
        let ghost g = self.grid;
        let ghost clues = self.puzzle.edge_clues@;
        let ghost bricky = self.puzzle.rules.bricky;
        let ghost full = grid_pairs(g, clues, g.rows + 1);
        proof {
            lemma_decided_refl(self);
            g.lemma_sizes();
        }
        let mut progress = false;
        let kinds = self.edge_kinds();
        let rows = self.grid.rows;
        let cols = self.grid.cols;
        let ghost mut done: Seq<(int, int)> = seq![];
        let mut r: usize = 0;
        while r <= rows
            invariant
                self.wf(),
                self.decided_from(&base),
                base == *old(self),
                g == self.grid,
                g == base.grid,
                clues == self.puzzle.edge_clues@,
                clues == base.puzzle.edge_clues@,
                bricky == self.puzzle.rules.bricky,
                full == grid_pairs(g, clues, g.rows + 1),
                rows == g.rows,
                cols == g.cols,
                rows + 1 <= usize::MAX,
                cols + 1 <= usize::MAX,
                r <= rows + 1,
                kinds@.len() == g.n_edges(),
                forall|e: int| 0 <= e < kinds@.len() ==> #[trigger] kinds@[e] == kind_on(clues, e),
                done == grid_pairs(g, clues, r as int),
                !cross_run(base.edges@, base.changed@, done, bricky).2,
                self.edges@ == cross_run(base.edges@, base.changed@, done, bricky).0,
                self.changed@ == cross_run(base.edges@, base.changed@, done, bricky).1,
                progress == cross_run(base.edges@, base.changed@, done, bricky).3,
            decreases rows + 1 - r,
        {
            let mut c: usize = 0;
            proof {
                assert(grid_pairs(g, clues, r as int) + row_pairs(g, clues, r as int, 0) =~= done);
            }
            while c <= cols
                invariant
                    self.wf(),
                    self.decided_from(&base),
                    base == *old(self),
                    g == self.grid,
                    clues == self.puzzle.edge_clues@,
                    bricky == self.puzzle.rules.bricky,
                    full == grid_pairs(g, clues, g.rows + 1),
                    rows == g.rows,
                    cols == g.cols,
                    rows + 1 <= usize::MAX,
                    cols + 1 <= usize::MAX,
                    r <= rows,
                    c <= cols + 1,
                    kinds@.len() == g.n_edges(),
                    forall|e: int| 0 <= e < kinds@.len() ==> #[trigger] kinds@[e] == kind_on(clues, e),
                    done == grid_pairs(g, clues, r as int) + row_pairs(g, clues, r as int, c as int),
                    !cross_run(base.edges@, base.changed@, done, bricky).2,
                    self.edges@ == cross_run(base.edges@, base.changed@, done, bricky).0,
                    self.changed@ == cross_run(base.edges@, base.changed@, done, bricky).1,
                    progress == cross_run(base.edges@, base.changed@, done, bricky).3,
                decreases cols + 1 - c,
            {
                let ghost pts = point_pairs(g, clues, r as int, c as int);
                let res = self.check_point(r, c, &kinds, Ghost(base), Ghost(done));
                proof {
                    done = done + pts;
                }
                match res {
                    Err(()) => {
                        proof {
                            assert(pts.is_prefix_of(pts));
                            lemma_done_prefix(g, clues, r as int, c as int, pts);
                            lemma_stopped_at_prefix(base.edges@, base.changed@, done, full, bricky);
                        }
                        return Err(());
                    },
                    Ok(p) => {
                        progress = progress || p;
                    },
                }
                proof {
                    assert(row_pairs(g, clues, r as int, c + 1) == row_pairs(g, clues, r as int, c as int) + pts);
                    assert(done =~= grid_pairs(g, clues, r as int) + row_pairs(g, clues, r as int, c + 1));
                }
                c = c + 1;
            }
            proof {
                assert(grid_pairs(g, clues, r + 1) == grid_pairs(g, clues, r as int) + row_pairs(
                    g,
                    clues,
                    r as int,
                    g.cols + 1,
                ));
            }
            r = r + 1;
        }
        Ok(progress)
    }
}

} // verus!
