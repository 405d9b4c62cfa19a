//! The cells that can be reached from given cells by crossing edges that are
//! uncut (or, more loosely, not cut), entering only existing cells that are
//! not blocked.
use vstd::prelude::*;
use super::Solver;
use super::components::{lemma_distinct_bound, lemma_side_has_cell};
use super::diff_clues::area_tables_ok;
use crate::grid::{law_edge_is_side, opt_usize};
use crate::types::EdgeState;

verus! {

/// Edge `e` can be crossed: it is uncut, or, when `uncut_only` is false, not cut.
pub open spec fn passable(s: &Solver, uncut_only: bool, e: int) -> bool {
    &&& 0 <= e < s.grid.n_edges()
    &&& if uncut_only {
        s.edges@[e] == EdgeState::Uncut
    } else {
        s.edges@[e] != EdgeState::Cut
    }
}

/// One step from cell `a` to cell `b`: a passable edge between them, and `b`
/// an existing cell that is not blocked.
pub open spec fn step_to(s: &Solver, uncut_only: bool, blocked: Seq<bool>, a: int, b: int) -> bool {
    &&& exists|e: int|
        #[trigger] passable(s, uncut_only, e) && (s.grid.edge_cells_of(e) == (a, b) || s.grid.edge_cells_of(e) == (
            b,
            a,
        ))
    &&& s.grid.cell_exists@[b]
    &&& !blocked[b]
}

/// `w` starts at one of the sources and each cell is a step from the one before.
pub open spec fn reach_path(s: &Solver, uncut_only: bool, blocked: Seq<bool>, sources: Seq<usize>, w: Seq<int>) -> bool {
    &&& w.len() >= 1
    &&& exists|k: int| 0 <= k < sources.len() && sources[k] as int == w[0]
    &&& forall|i: int| 0 <= i < w.len() - 1 ==> #[trigger] step_to(s, uncut_only, blocked, w[i], w[i + 1])
}

/// Cell `x` can be reached from the sources.
pub open spec fn reaches(s: &Solver, uncut_only: bool, blocked: Seq<bool>, sources: Seq<usize>, x: int) -> bool {
    exists|w: Seq<int>| #[trigger] reach_path(s, uncut_only, blocked, sources, w) && w.last() == x
}

/// Side `k` of cell `cur`, when it is a passable edge, leads to a marked cell,
/// or to one that cannot be entered.
pub open spec fn side_seen(s: &Solver, uncut_only: bool, blocked: Seq<bool>, marks: Seq<bool>, cur: int, k: int) -> bool {
    match s.grid.cell_edges_spec(cur)[k] {
        Some(e) => {
            let other = if s.grid.edge_cells_of(e).0 == cur {
                s.grid.edge_cells_of(e).1
            } else {
                s.grid.edge_cells_of(e).0
            };
            passable(s, uncut_only, e) && s.grid.cell_exists@[other] && !blocked[other] ==> marks[other]
        },
        None => true,
    }
}

/// A source is reached.
pub proof fn lemma_source_reached(s: &Solver, u: bool, blocked: Seq<bool>, sources: Seq<usize>, k: int)
    requires
        0 <= k < sources.len(),
    ensures
        reaches(s, u, blocked, sources, sources[k] as int),
{
    let w = seq![sources[k] as int];
    assert(reach_path(s, u, blocked, sources, w));
}

/// One more step from a reached cell reaches the next.
pub proof fn lemma_reach_step(s: &Solver, u: bool, blocked: Seq<bool>, sources: Seq<usize>, x: int, y: int)
    requires
        reaches(s, u, blocked, sources, x),
        step_to(s, u, blocked, x, y),
    ensures
        reaches(s, u, blocked, sources, y),
{
    let w = choose|w: Seq<int>| #[trigger] reach_path(s, u, blocked, sources, w) && w.last() == x;
    let w2 = w.push(y);
    assert forall|i: int| 0 <= i < w2.len() - 1 implies #[trigger] step_to(s, u, blocked, w2[i], w2[i + 1]) by {
        if i < w.len() - 1 {
            assert(w2[i] == w[i]);
            assert(w2[i + 1] == w[i + 1]);
            assert(step_to(s, u, blocked, w[i], w[i + 1]));
        } else {
            assert(w2[i] == x);
            assert(w2[i + 1] == y);
        }
    }
    let k = choose|k: int| 0 <= k < sources.len() && sources[k] as int == w[0];
    assert(w2[0] == w[0]);
    assert(reach_path(s, u, blocked, sources, w2));
    assert(w2.last() == y);
}

/// With every source marked and every step from a marked cell leading to a
/// marked cell, every cell on a path is marked.
proof fn lemma_path_marked(
    s: &Solver,
    u: bool,
    blocked: Seq<bool>,
    sources: Seq<usize>,
    marks: Seq<bool>,
    w: Seq<int>,
    j: int,
)
    requires
        reach_path(s, u, blocked, sources, w),
        0 <= j < w.len(),
        forall|k: int| 0 <= k < sources.len() ==> #[trigger] marks[sources[k] as int],
        forall|a: int, b: int| 0 <= a < marks.len() && marks[a] && #[trigger] step_to(s, u, blocked, a, b) ==> marks[b],
        forall|i: int| 0 <= i < w.len() ==> 0 <= #[trigger] w[i] < marks.len(),
    ensures
        marks[w[j]],
    decreases j,
{
    if j == 0 {
        let k = choose|k: int| 0 <= k < sources.len() && sources[k] as int == w[0];
        assert(marks[sources[k] as int]);
    } else {
        lemma_path_marked(s, u, blocked, sources, marks, w, j - 1);
        let i = j - 1;
        assert(step_to(s, u, blocked, w[i], w[i + 1]));
    }
}

/// Every cell of a path from in-range sources through existing cells is a cell of the grid.
proof fn lemma_path_in_grid(s: &Solver, u: bool, blocked: Seq<bool>, sources: Seq<usize>, w: Seq<int>)
    requires
        s.wf(),
        reach_path(s, u, blocked, sources, w),
        forall|k: int| 0 <= k < sources.len() ==> #[trigger] sources[k] < s.grid.n_cells(),
    ensures
        forall|i: int| 0 <= i < w.len() ==> 0 <= #[trigger] w[i] < s.grid.n_cells(),
{
    assert forall|i: int| 0 <= i < w.len() implies 0 <= #[trigger] w[i] < s.grid.n_cells() by {
        if i == 0 {
            let k = choose|k: int| 0 <= k < sources.len() && sources[k] as int == w[0];
            assert(sources[k] < s.grid.n_cells());
        } else {
            let h = i - 1;
            assert(step_to(s, u, blocked, w[h], w[h + 1]));
            let e = choose|e: int|
                #[trigger] passable(s, u, e) && (s.grid.edge_cells_of(e) == (w[i - 1], w[i]) || s.grid.edge_cells_of(e) == (
                    w[i],
                    w[i - 1],
                ));
            crate::grid::lemma_edge_cells_range(s.grid, e);
        }
    }
}

/// The cells below `m` that are reached.
pub open spec fn reach_count(s: &Solver, uncut_only: bool, blocked: Seq<bool>, sources: Seq<usize>, m: int) -> nat
    decreases m,
{
    if m <= 0 {
        0
    } else {
        reach_count(s, uncut_only, blocked, sources, m - 1) + if reaches(s, uncut_only, blocked, sources, m - 1) {
            1nat
        } else {
            0nat
        }
    }
}

/// The cells that already carry a label block a flood fill.
pub open spec fn labelled(labels: Seq<usize>) -> Seq<bool> {
    Seq::new(labels.len(), |x: int| labels[x] != usize::MAX)
}

/// The labels after a flood fill from `start` through uncut edges: every
/// cell that it reaches, `start` itself included, gets the label `start`;
/// it enters only existing cells without a label.
pub open spec fn flood_labels(s: &Solver, labels: Seq<usize>, start: int) -> Seq<usize> {
    Seq::new(
        labels.len(),
        |x: int|
            if reaches(s, true, labelled(labels), seq![start as usize], x) {
                start as usize
            } else {
                labels[x]
            },
    )
}

/// The cells of component `ci` are cells of the grid, each listed once.
pub open spec fn comp_cells_ok(s: &Solver, ci: int) -> bool {
    &&& 0 <= ci < s.comp_cells@.len()
    &&& s.comp_cells@[ci]@.no_duplicates()
    &&& forall|k: int| 0 <= k < s.comp_cells@[ci]@.len() ==> #[trigger] s.comp_cells@[ci]@[k] < s.grid.n_cells()
}

/// The most cells that component `ci` can end with: its target area when it
/// has one; otherwise the number of cells reached from its cells through
/// edges that are not cut, but no more than its greatest area.
pub open spec fn growth_bound(s: &Solver, ci: int) -> int {
    match s.curr_target_area@[ci] {
        Some(t) => t as int,
        None => {
            let reached = reach_count(
                s,
                false,
                Seq::new(s.grid.n_cells() as nat, |x: int| false),
                s.comp_cells@[ci]@,
                s.grid.n_cells(),
            ) as int;
            if reached <= s.curr_max_area@[ci] {
                reached
            } else {
                s.curr_max_area@[ci] as int
            }
        },
    }
}

impl Solver {
    /// Flood fill from `start` through uncut edges (see `flood_labels`).
    pub fn flood_fill_decided(&mut self, start: usize)
        requires
            old(self).wf(),
            start < old(self).grid.n_cells(),
            old(self).comp_buf@.len() == old(self).grid.n_cells(),
        ensures
            final(self).wf(),
            final(self).same_tables(old(self)),
            final(self).edges == old(self).edges,
            final(self).changed == old(self).changed,
            final(self).is_pre_cut == old(self).is_pre_cut,
            final(self).manual_diffs == old(self).manual_diffs,
            final(self).manual_sames == old(self).manual_sames,
            final(self).comp_buf@ == flood_labels(old(self), old(self).comp_buf@, start as int),
    {
        let ghost s0 = *self;
        let n = self.comp_buf.len();
        let mut blocked: Vec<bool> = Vec::new();
        let mut i: usize = 0;
        while i < n
            invariant
                i <= n,
                n == self.comp_buf@.len(),
                blocked@.len() == i,
                forall|x: int| 0 <= x < i ==> #[trigger] blocked@[x] == (self.comp_buf@[x] != usize::MAX),
            decreases n - i,
        {
            blocked.push(self.comp_buf[i] != usize::MAX);
            i = i + 1;
        }
        proof {
            assert(blocked@ =~= labelled(self.comp_buf@));
        }
        let mut sources: Vec<usize> = Vec::new();
        sources.push(start);
        proof {
            assert(sources@ =~= seq![start]);
        }
        let marks = self.reach_marks(&sources, &blocked, true);
        let ghost target = flood_labels(&s0, s0.comp_buf@, start as int);
        let mut x: usize = 0;
        while x < n
            invariant
                s0 == *old(self),
                self.wf(),
                self.same_tables(&s0),
                self.edges == s0.edges,
                self.changed == s0.changed,
                self.is_pre_cut == s0.is_pre_cut,
                self.manual_diffs == s0.manual_diffs,
                self.manual_sames == s0.manual_sames,
                x <= n,
                n == s0.comp_buf@.len(),
                n == s0.grid.n_cells(),
                marks@.len() == n,
                self.comp_buf@.len() == n,
                target == flood_labels(&s0, s0.comp_buf@, start as int),
                forall|y: int| 0 <= y < n ==> (#[trigger] marks@[y] <==> reaches(
                    &s0,
                    true,
                    labelled(s0.comp_buf@),
                    seq![start],
                    y,
                )),
                forall|y: int| 0 <= y < x ==> #[trigger] self.comp_buf@[y] == target[y],
                forall|y: int| x <= y < n ==> #[trigger] self.comp_buf@[y] == s0.comp_buf@[y],
            decreases n - x,
        {
            if marks[x] {
                self.comp_buf.set(x, start);
            }
            x = x + 1;
        }
        proof {
            assert(self.comp_buf@ =~= target);
        }
    }

    /// The most cells that component `ci` can end with (see `growth_bound`).
    pub fn growth_potential(&mut self, ci: usize) -> (r: usize)
        requires
            old(self).wf(),
            area_tables_ok(old(self)),
            ci < old(self).curr_comp_sz@.len(),
            comp_cells_ok(old(self), ci as int),
        ensures
            *final(self) == *old(self),
            r as int == growth_bound(old(self), ci as int),
    {
        if let Some(target) = self.curr_target_area[ci] {
            return target;
        }
        proof {
            self.grid.lemma_sizes();
        }
        let n = self.grid.num_cells();
        let mut blocked: Vec<bool> = Vec::new();
        let mut i: usize = 0;
        while i < n
            invariant
                i <= n,
                blocked@.len() == i,
                forall|x: int| 0 <= x < i ==> !#[trigger] blocked@[x],
            decreases n - i,
        {
            blocked.push(false);
            i = i + 1;
        }
        let ghost none = Seq::new(n as nat, |x: int| false);
        proof {
            assert(blocked@ =~= none);
        }
        let marks = self.reach_marks(&self.comp_cells[ci], &blocked, false);
        let ghost src = self.comp_cells@[ci as int]@;
        let mut reachable: usize = 0;
        let mut x: usize = 0;
        while x < n
            invariant
                self.wf(),
                n == self.grid.n_cells(),
                x <= n,
                marks@.len() == n,
                none == Seq::new(n as nat, |y: int| false),
                src == self.comp_cells@[ci as int]@,
                forall|y: int| 0 <= y < n ==> (#[trigger] marks@[y] <==> reaches(self, false, none, src, y)),
                reachable == reach_count(self, false, none, src, x as int),
                reachable <= x,
            decreases n - x,
        {
            if marks[x] {
                reachable = reachable + 1;
            }
            x = x + 1;
        }
        let max_area = self.curr_max_area[ci];
        if reachable <= max_area {
            reachable
        } else {
            max_area
        }
    }

    /// Marks the cells reached from the sources (breadth first): a cell is
    /// marked exactly when some path of steps (see `step_to`) leads to it
    /// from a source.
    pub fn reach_marks(&self, sources: &Vec<usize>, blocked: &Vec<bool>, uncut_only: bool) -> (marks: Vec<bool>)
        requires
            self.wf(),
            blocked@.len() == self.grid.n_cells(),
            forall|k: int| 0 <= k < sources@.len() ==> #[trigger] sources@[k] < self.grid.n_cells(),
        ensures
            marks@.len() == self.grid.n_cells(),
            forall|x: int|
                0 <= x < self.grid.n_cells() ==> (#[trigger] marks@[x] <==> reaches(
                    self,
                    uncut_only,
                    blocked@,
                    sources@,
                    x,
                )),
    {
        let ghost g = self.grid;
        let ghost blk = blocked@;
        let ghost src = sources@;
        proof {
            g.lemma_sizes();
        }
        let n = self.grid.num_cells();
        let mut marks: Vec<bool> = Vec::new();
        let mut i: usize = 0;
        while i < n
            invariant
                i <= n,
                marks@.len() == i,
                forall|x: int| 0 <= x < i ==> !#[trigger] marks@[x],
            decreases n - i,
        {
            marks.push(false);
            i = i + 1;
        }
        let mut q: Vec<usize> = Vec::new();
        let mut k: usize = 0;
        while k < sources.len()
            invariant
                self.wf(),
                g == self.grid,
                n == g.n_cells(),
                blk == blocked@,
                src == sources@,
                k <= src.len(),
                forall|j: int| 0 <= j < src.len() ==> #[trigger] src[j] < n,
                marks@.len() == n,
                q@.no_duplicates(),
                forall|j: int| 0 <= j < q@.len() ==> #[trigger] q@[j] < n && marks@[q@[j] as int],
                forall|x: int| 0 <= x < n && #[trigger] marks@[x] ==> q@.contains(x as usize),
                forall|x: int| 0 <= x < n && #[trigger] marks@[x] ==> reaches(self, uncut_only, blk, src, x),
                forall|j: int| 0 <= j < k ==> #[trigger] marks@[src[j] as int],
            decreases src.len() - k,
        {
            let c = sources[k];
            proof {
                lemma_source_reached(self, uncut_only, blk, src, k as int);
            }
            if !marks[c] {
                let ghost qb = q@;
                marks.set(c, true);
                q.push(c);
                proof {
                    assert forall|a: int, b: int| 0 <= a < q@.len() && 0 <= b < q@.len() && a != b implies q@[a]
                        != q@[b] by {
                        if a < qb.len() && b < qb.len() {
                            assert(qb[a] != qb[b]);
                        } else if a == qb.len() {
                            assert(q@[b] == qb[b]);
                        } else {
                            assert(q@[a] == qb[a]);
                        }
                    }
                    assert forall|x: int| 0 <= x < n && #[trigger] marks@[x] implies q@.contains(x as usize) by {
                        if x != c as int {
                            let j = choose|j: int| 0 <= j < qb.len() && qb[j] == x as usize;
                            assert(q@[j] == x as usize);
                        } else {
                            assert(q@[qb.len() as int] == c);
                        }
                    }
                    assert forall|j: int| 0 <= j < q@.len() implies #[trigger] q@[j] < n && marks@[q@[j] as int] by {
                        if j < qb.len() {
                            assert(q@[j] == qb[j]);
                        }
                    }
                }
            }
            k = k + 1;
        }
        proof {
            lemma_distinct_bound(q@, n as int);
        }
        let mut head: usize = 0;
        while head < q.len()
            invariant
                self.wf(),
                g == self.grid,
                n == g.n_cells(),
                blk == blocked@,
                src == sources@,
                blk.len() == n,
                forall|j: int| 0 <= j < src.len() ==> #[trigger] src[j] < n,
                forall|j: int| 0 <= j < src.len() ==> #[trigger] marks@[src[j] as int],
                marks@.len() == n,
                q@.len() <= n,
                head <= q@.len(),
                q@.no_duplicates(),
                forall|j: int| 0 <= j < q@.len() ==> #[trigger] q@[j] < n && marks@[q@[j] as int],
                forall|x: int| 0 <= x < n && #[trigger] marks@[x] ==> q@.contains(x as usize),
                forall|x: int| 0 <= x < n && #[trigger] marks@[x] ==> reaches(self, uncut_only, blk, src, x),
                forall|j: int, b: int|
                    0 <= j < head && #[trigger] step_to(self, uncut_only, blk, q@[j] as int, b) ==> marks@[b],
            decreases n - head,
        {
            let cur = q[head];
            let ne = self.grid.cell_edges(cur).into_array();
            let mut t: usize = 0;
            while t < 4
                invariant
                    self.wf(),
                    g == self.grid,
                    n == g.n_cells(),
                    blk == blocked@,
                    src == sources@,
                    blk.len() == n,
                    forall|j: int| 0 <= j < src.len() ==> #[trigger] src[j] < n,
                    forall|j: int| 0 <= j < src.len() ==> #[trigger] marks@[src[j] as int],
                    marks@.len() == n,
                    q@.len() <= n,
                    head < q@.len(),
                    q@[head as int] == cur,
                    cur < n,
                    t <= 4,
                    forall|j: int| 0 <= j < 4 ==> #[trigger] ne@[j] == opt_usize(g.cell_edges_spec(cur as int)[j]),
                    q@.no_duplicates(),
                    forall|j: int| 0 <= j < q@.len() ==> #[trigger] q@[j] < n && marks@[q@[j] as int],
                    forall|x: int| 0 <= x < n && #[trigger] marks@[x] ==> q@.contains(x as usize),
                    forall|x: int| 0 <= x < n && #[trigger] marks@[x] ==> reaches(self, uncut_only, blk, src, x),
                    forall|j: int, b: int|
                        0 <= j < head && #[trigger] step_to(self, uncut_only, blk, q@[j] as int, b) ==> marks@[b],
                    forall|j: int| 0 <= j < t ==> #[trigger] side_seen(self, uncut_only, blk, marks@, cur as int, j),
                decreases 4 - t,
            {
                let entry = ne[t];
                let ghost marks_t = marks@;
                if let Some(eid) = entry {
                    let ghost e = g.cell_edges_spec(cur as int)[t as int]->0;
                    proof {
                        g.lemma_sizes();
                        lemma_side_has_cell(g, cur as int, t as int);
                        assert(eid as int == e);
                    }
                    let (c1, c2) = self.grid.edge_cells(eid);
                    let other = if c1 == cur {
                        c2
                    } else {
                        c1
                    };
                    let open = if uncut_only {
                        self.edges[eid] == EdgeState::Uncut
                    } else {
                        self.edges[eid] != EdgeState::Cut
                    };
                    if self.grid.cell_exists[other] && !blocked[other] && !marks[other] && open {
                        let ghost qb = q@;
                        let ghost mb = marks@;
                        proof {
                            assert(passable(self, uncut_only, e));
                            assert(step_to(self, uncut_only, blk, cur as int, other as int));
                            assert(marks@[cur as int]);
                            lemma_reach_step(self, uncut_only, blk, src, cur as int, other as int);
                            assert(!q@.contains(other));
                        }
                        marks.set(other, true);
                        q.push(other);
                        proof {
                            assert forall|a: int, b: int| 0 <= a < q@.len() && 0 <= b < q@.len() && a != b implies q@[a]
                                != q@[b] by {
                                if a < qb.len() && b < qb.len() {
                                    assert(qb[a] != qb[b]);
                                } else if a == qb.len() {
                                    assert(q@[b] == qb[b]);
                                } else {
                                    assert(q@[a] == qb[a]);
                                }
                            }
                            lemma_distinct_bound(q@, n as int);
                            assert forall|x: int| 0 <= x < n && #[trigger] marks@[x] implies q@.contains(x as usize) by {
                                if x != other as int {
                                    let j = choose|j: int| 0 <= j < qb.len() && qb[j] == x as usize;
                                    assert(q@[j] == x as usize);
                                } else {
                                    assert(q@[qb.len() as int] == other);
                                }
                            }
                            assert forall|j: int| 0 <= j < q@.len() implies #[trigger] q@[j] < n && marks@[q@[j] as int] by {
                                if j < qb.len() {
                                    assert(q@[j] == qb[j]);
                                }
                            }
                            assert forall|j: int, b: int|
                                0 <= j < head && #[trigger] step_to(self, uncut_only, blk, q@[j] as int, b) implies marks@[b] by {
                                assert(q@[j] == qb[j]);
                                assert(step_to(self, uncut_only, blk, qb[j] as int, b));
                                let e2 = choose|e2: int|
                                    #[trigger] passable(self, uncut_only, e2) && (g.edge_cells_of(e2) == (qb[j] as int, b)
                                        || g.edge_cells_of(e2) == (b, qb[j] as int));
                                crate::grid::lemma_edge_cells_range(g, e2);
                                assert(mb[b]);
                            }
                        }
                    }
                    proof {
                        assert(side_seen(self, uncut_only, blk, marks@, cur as int, t as int));
                    }
                }
                proof {
                    assert forall|j: int| 0 <= j < t + 1 implies #[trigger] side_seen(
                        self,
                        uncut_only,
                        blk,
                        marks@,
                        cur as int,
                        j,
                    ) by {
                        if j < t {
                            assert(side_seen(self, uncut_only, blk, marks_t, cur as int, j));
                            if let Some(e) = g.cell_edges_spec(cur as int)[j] {
                                lemma_side_has_cell(g, cur as int, j);
                                crate::grid::lemma_edge_cells_range(g, e);
                            }
                        } else if entry is None {
                            assert(g.cell_edges_spec(cur as int)[j] is None);
                        }
                    }
                }
                t = t + 1;
            }
            proof {
                assert forall|j: int, b: int|
                    0 <= j < head + 1 && #[trigger] step_to(self, uncut_only, blk, q@[j] as int, b) implies marks@[b] by {
                    if j == head {
                        let e = choose|e: int|
                            #[trigger] passable(self, uncut_only, e) && (g.edge_cells_of(e) == (cur as int, b)
                                || g.edge_cells_of(e) == (b, cur as int));
                        law_edge_is_side(g, e);
                        crate::grid::lemma_edge_cells_range(g, e);
                        assert(side_seen(self, uncut_only, blk, marks@, cur as int, 0));
                        assert(side_seen(self, uncut_only, blk, marks@, cur as int, 1));
                        assert(side_seen(self, uncut_only, blk, marks@, cur as int, 2));
                        assert(side_seen(self, uncut_only, blk, marks@, cur as int, 3));
                        if g.edge_decoded(e).0 {
                            if g.edge_cells_of(e).0 == cur {
                                assert(g.cell_edges_spec(cur as int)[1] == Some(e));
                            } else {
                                assert(g.cell_edges_spec(cur as int)[0] == Some(e));
                            }
                        } else {
                            if g.edge_cells_of(e).0 == cur {
                                assert(g.cell_edges_spec(cur as int)[3] == Some(e));
                            } else {
                                assert(g.cell_edges_spec(cur as int)[2] == Some(e));
                            }
                        }
                    }
                }
            }
            head = head + 1;
        }
        proof {
            assert forall|a: int, b: int|
                0 <= a < marks@.len() && marks@[a] && #[trigger] step_to(self, uncut_only, blk, a, b) implies marks@[b] by {
                let j = choose|j: int| 0 <= j < q@.len() && q@[j] == a as usize;
                assert(step_to(self, uncut_only, blk, q@[j] as int, b));
            }
            assert forall|x: int| 0 <= x < n implies (#[trigger] marks@[x] <==> reaches(
                self,
                uncut_only,
                blk,
                src,
                x,
            )) by {
                if reaches(self, uncut_only, blk, src, x) {
                    let w = choose|w: Seq<int>| #[trigger] reach_path(self, uncut_only, blk, src, w) && w.last() == x;
                    lemma_path_in_grid(self, uncut_only, blk, src, w);
                    lemma_path_marked(self, uncut_only, blk, src, marks@, w, w.len() - 1);
                }
            }
        }
        marks
    }
}

} // verus!
