//! The pieces into which the cut edges divide the grid: the connected
//! components of the existing cells, joined through edges that are not cut.
use vstd::prelude::*;
use vstd::set_lib::{lemma_int_range, lemma_len_subset, set_int_range};
use super::Solver;
use super::palisade::lemma_cell_edges_range;
use super::validation::{both_exist, cp, piece_of};
use crate::grid::{law_decode_h_edge, law_decode_v_edge, law_edge_is_side, lemma_div_mod_in_box, opt_usize, Grid};
use crate::polyomino::{self, canonical_spec, shape_of, shape_ok};
use crate::types::{EdgeState, Piece};

verus! {

/// Edge `e` is an edge of the grid that is not cut, between two existing cells.
pub open spec fn open_edge(s: &Solver, e: int) -> bool {
    &&& 0 <= e < s.grid.n_edges()
    &&& s.edges@[e] != EdgeState::Cut
    &&& both_exist(s.grid, e)
}

/// Cells `a` and `b` are the two cells of an open edge.
pub open spec fn linked(s: &Solver, a: int, b: int) -> bool {
    exists|e: int|
        #[trigger] open_edge(s, e) && (s.grid.edge_cells_of(e) == (a, b) || s.grid.edge_cells_of(e) == (b, a))
}

/// `w` is a walk of existing cells, each linked to the next.
pub open spec fn is_walk(s: &Solver, w: Seq<int>) -> bool
    decreases w.len(),
{
    if w.len() == 0 {
        false
    } else if w.len() == 1 {
        0 <= w[0] < s.grid.n_cells() && s.grid.cell_exists@[w[0]]
    } else {
        is_walk(s, w.drop_last()) && linked(s, w[w.len() - 2], w.last())
    }
}

/// Some walk leads from cell `a` to cell `b`.
pub open spec fn joined(s: &Solver, a: int, b: int) -> bool {
    exists|w: Seq<int>| #[trigger] is_walk(s, w) && w[0] == a && w.last() == b
}

/// The (row, column) of each cell.
pub open spec fn positions(g: Grid, cells: Seq<usize>) -> Seq<(i32, i32)> {
    Seq::new(cells.len(), |k: int| ((cells[k] / g.cols) as i32, (cells[k] % g.cols) as i32))
}

/// The piece is made of its cells: cells of the grid, listed once each in
/// increasing order; its area is their number and its shape the canonical
/// form of their positions.
pub open spec fn piece_of_cells(g: Grid, p: Piece) -> bool {
    &&& p.cells@.len() > 0
    &&& forall|i: int, j: int| 0 <= i < j < p.cells@.len() ==> #[trigger] p.cells@[i] < #[trigger] p.cells@[j]
    &&& forall|i: int| 0 <= i < p.cells@.len() ==> #[trigger] p.cells@[i] < g.n_cells()
    &&& p.area == p.cells@.len()
    &&& p.canonical@ == canonical_spec(shape_of(positions(g, p.cells@)))
    &&& shape_ok(p.canonical)
}

/// `ps` is the division of the grid into the connected components of its
/// existing cells through open edges: each piece is made of its cells (see
/// `piece_of_cells`), every existing cell lies in exactly one piece and no
/// other cell in any, an open edge never separates two pieces, every cell of
/// a piece is joined to the piece's first cell, and the pieces come in the
/// order of their first cells.
pub open spec fn divides(s: &Solver, ps: Seq<Piece>) -> bool {
    let g = s.grid;
    &&& forall|p: int| 0 <= p < ps.len() ==> piece_of_cells(g, #[trigger] ps[p])
    &&& forall|c: int| 0 <= c < g.n_cells() ==> (g.cell_exists@[c] <==> #[trigger] cp(ps, c) != usize::MAX)
    &&& forall|p: int, k: int| 0 <= p < ps.len() && 0 <= k < ps[p].cells@.len() ==> cp(ps, #[trigger] ps[p].cells@[k] as int) == p
    &&& forall|e: int| #[trigger] open_edge(s, e) ==> cp(ps, g.edge_cells_of(e).0) == cp(ps, g.edge_cells_of(e).1)
    &&& forall|c: int|
        0 <= c < g.n_cells() && #[trigger] cp(ps, c) != usize::MAX ==> joined(s, ps[cp(ps, c) as int].cells@[0] as int, c)
    &&& forall|p: int, q: int| 0 <= p < q < ps.len() ==> (#[trigger] ps[p]).cells@[0] < (#[trigger] ps[q]).cells@[0]
}

/// Side `j` of cell `cur`, when it is an open edge, has both its cells labelled.
pub open spec fn side_done(s: &Solver, comp: Seq<usize>, cur: int, j: int) -> bool {
    let g = s.grid;
    match g.cell_edges_spec(cur)[j] {
        Some(e) => open_edge(s, e) ==> comp[g.edge_cells_of(e).0] != usize::MAX && comp[g.edge_cells_of(e).1]
            != usize::MAX,
        None => true,
    }
}

/// A walk to `x` followed by a link to `y` is a walk to `y`.
proof fn lemma_walk_extend(s: &Solver, a: int, x: int, y: int)
    requires
        joined(s, a, x),
        linked(s, x, y),
    ensures
        joined(s, a, y),
{
    let w = choose|w: Seq<int>| #[trigger] is_walk(s, w) && w[0] == a && w.last() == x;
    let w2 = w.push(y);
    assert(w2.drop_last() =~= w);
    assert(w2[w2.len() - 2] == x);
    assert(is_walk(s, w2));
    assert(w2[0] == a);
}

/// An existing cell is joined to itself.
proof fn lemma_walk_single(s: &Solver, a: int)
    requires
        0 <= a < s.grid.n_cells(),
        s.grid.cell_exists@[a],
    ensures
        joined(s, a, a),
{
    let w = seq![a];
    assert(is_walk(s, w));
}

/// Side `k` of cell `c` is an edge of the grid that has `c` as one of its cells.
pub proof fn lemma_side_has_cell(g: Grid, c: int, k: int)
    requires
        g.wf(),
        0 <= c < g.n_cells(),
        0 <= k < 4,
        g.cell_edges_spec(c)[k] is Some,
    ensures
        0 <= g.cell_edges_spec(c)[k]->0 < g.n_edges(),
        g.edge_cells_of(g.cell_edges_spec(c)[k]->0).0 == c || g.edge_cells_of(g.cell_edges_spec(c)[k]->0).1 == c,
{
    lemma_cell_edges_range(g, c);
    let cols = g.cols as int;
    if cols == 0 {
        assert(g.rows * g.cols == 0) by (nonlinear_arith)
            requires
                g.cols == 0,
        ;
    }
    lemma_div_mod_in_box(c, g.rows as int, cols);
    let r = c / cols;
    let col = c % cols;
    if k == 0 {
        law_decode_h_edge(g, r - 1, col);
        assert((r - 1) * cols + cols == r * cols) by (nonlinear_arith);
    } else if k == 1 {
        law_decode_h_edge(g, r, col);
    } else if k == 2 {
        law_decode_v_edge(g, r, col - 1);
    } else {
        law_decode_v_edge(g, r, col);
    }
}

/// A sequence of distinct numbers below `n` has at most `n` entries.
pub proof fn lemma_distinct_bound(s: Seq<usize>, n: int)
    requires
        0 <= n,
        s.no_duplicates(),
        forall|i: int| 0 <= i < s.len() ==> #[trigger] s[i] < n,
    ensures
        s.len() <= n,
{
    let t = Seq::new(s.len(), |i: int| s[i] as int);
    assert forall|i: int, j: int| 0 <= i < t.len() && 0 <= j < t.len() && i != j implies t[i] != t[j] by {
        assert(s[i] != s[j]);
    }
    assert(t.no_duplicates());
    t.unique_seq_to_set();
    lemma_int_range(0, n);
    assert forall|x: int| #[trigger] t.to_set().contains(x) implies set_int_range(0, n).contains(x) by {
        let i = choose|i: int| 0 <= i < t.len() && t[i] == x;
        assert(s[i] < n);
    }
    lemma_len_subset(t.to_set(), set_int_range(0, n));
}

/// When each cell's label names the one piece that lists it, the piece of a
/// cell is its label.
proof fn lemma_cp_is_label(ps: Seq<Piece>, comp: Seq<usize>, x: int, k: int)
    requires
        0 <= x < comp.len(),
        comp.len() <= usize::MAX,
        0 <= k <= ps.len(),
        forall|p: int, j: int| 0 <= p < ps.len() && 0 <= j < ps[p].cells@.len() ==> #[trigger] ps[p].cells@[j] < comp.len() && comp[ps[p].cells@[j] as int] == p,
        comp[x] != usize::MAX ==> comp[x] < ps.len() && ps[comp[x] as int].cells@.contains(x as usize),
    ensures
        piece_of(ps, x, k) == if comp[x] != usize::MAX && comp[x] < k {
            comp[x]
        } else {
            usize::MAX
        },
    decreases k,
{
    if k > 0 {
        lemma_cp_is_label(ps, comp, x, k - 1);
        let cells = ps[k - 1].cells@;
        if cells.contains(x as usize) {
            let j = choose|j: int| 0 <= j < cells.len() && #[trigger] cells[j] == x as usize;
            assert(comp[ps[k - 1].cells@[j] as int] == k - 1);
        }
    }
}

impl Solver {
    /// Labels `np` the cells that can be reached from the existing, unlabelled
    /// cell `c` through open edges (breadth first). The labels below `np`
    /// mark components that are closed under open edges.
    fn label_component(&self, comp: &mut Vec<usize>, c: usize, np: usize)
        requires
            self.wf(),
            old(comp)@.len() == self.grid.n_cells(),
            0 <= c < self.grid.n_cells(),
            self.grid.cell_exists@[c as int],
            old(comp)@[c as int] == usize::MAX,
            np < usize::MAX,
            forall|x: int| 0 <= x < old(comp)@.len() ==> #[trigger] old(comp)@[x] == usize::MAX || old(comp)@[x] < np,
            forall|x: int| 0 <= x < old(comp)@.len() && #[trigger] old(comp)@[x] != usize::MAX ==> self.grid.cell_exists@[x],
            forall|x: int| 0 <= x < c && #[trigger] self.grid.cell_exists@[x] ==> old(comp)@[x] != usize::MAX,
            forall|e: int|
                #[trigger] open_edge(self, e) && (old(comp)@[self.grid.edge_cells_of(e).0] != usize::MAX || old(comp)@[self.grid.edge_cells_of(e).1] != usize::MAX) ==> old(comp)@[self.grid.edge_cells_of(e).0] == old(comp)@[self.grid.edge_cells_of(e).1],
        ensures
            final(comp)@.len() == old(comp)@.len(),
            forall|x: int| 0 <= x < old(comp)@.len() && #[trigger] old(comp)@[x] != usize::MAX ==> final(comp)@[x] == old(comp)@[x],
            forall|x: int|
                0 <= x < old(comp)@.len() && old(comp)@[x] == usize::MAX ==> #[trigger] final(comp)@[x] == usize::MAX
                    || final(comp)@[x] == np,
            final(comp)@[c as int] == np,
            forall|x: int|
                0 <= x < old(comp)@.len() && #[trigger] final(comp)@[x] == np ==> joined(self, c as int, x) && x >= c
                    && self.grid.cell_exists@[x],
            forall|e: int|
                #[trigger] open_edge(self, e) && (final(comp)@[self.grid.edge_cells_of(e).0] != usize::MAX || final(comp)@[self.grid.edge_cells_of(e).1] != usize::MAX) ==> final(comp)@[self.grid.edge_cells_of(e).0] == final(comp)@[self.grid.edge_cells_of(e).1],
    {
        let ghost g = self.grid;
        let ghost n = g.n_cells();
        let ghost comp0 = comp@;
        proof {
            g.lemma_sizes();
            lemma_walk_single(self, c as int);
        }
        comp.set(c, np);
        let mut q: Vec<usize> = Vec::new();
        q.push(c);
        let mut head: usize = 0;
        proof {
            assert forall|x: int| 0 <= x < n && #[trigger] comp@[x] == np implies q@.contains(x as usize) && x == c by {
                if x != c {
                    assert(comp0[x] == comp@[x]);
                }
                assert(q@[0] == c);
            }
        }
        while head < q.len()
            invariant
                self.wf(),
                g == self.grid,
                n == g.n_cells(),
                comp@.len() == n,
                comp0.len() == n,
                0 <= c < n,
                np < usize::MAX,
                comp@[c as int] == np,
                forall|x: int| 0 <= x < n && #[trigger] comp0[x] != usize::MAX ==> comp@[x] == comp0[x],
                forall|x: int| 0 <= x < n && comp0[x] == usize::MAX ==> #[trigger] comp@[x] == usize::MAX || comp@[x] == np,
                forall|x: int| 0 <= x < n ==> #[trigger] comp0[x] == usize::MAX || comp0[x] < np,
                forall|x: int| 0 <= x < n && #[trigger] comp0[x] != usize::MAX ==> g.cell_exists@[x],
                forall|x: int| 0 <= x < c && #[trigger] g.cell_exists@[x] ==> comp0[x] != usize::MAX,
                forall|e: int|
                    #[trigger] open_edge(self, e) && (comp0[g.edge_cells_of(e).0] != usize::MAX || comp0[g.edge_cells_of(e).1] != usize::MAX) ==> comp0[g.edge_cells_of(e).0] == comp0[g.edge_cells_of(e).1],
                1 <= q@.len() <= n,
                head <= q@.len(),
                q@.no_duplicates(),
                forall|i: int| 0 <= i < q@.len() ==> #[trigger] q@[i] < n && comp@[q@[i] as int] == np,
                forall|x: int| 0 <= x < n && #[trigger] comp@[x] == np ==> q@.contains(x as usize),
                forall|x: int|
                    0 <= x < n && #[trigger] comp@[x] == np ==> joined(self, c as int, x) && x >= c && g.cell_exists@[x],
                forall|i: int, e: int|
                    0 <= i < head && #[trigger] open_edge(self, e) && (g.edge_cells_of(e).0 == #[trigger] q@[i]
                        || g.edge_cells_of(e).1 == q@[i]) ==> comp@[g.edge_cells_of(e).0] != usize::MAX
                        && comp@[g.edge_cells_of(e).1] != usize::MAX,
            decreases n - head,
        {
            let cur = q[head];
            proof {
                assert(comp@[cur as int] == np);
            }
            let ne = self.grid.cell_edges(cur).into_array();
            let mut k: usize = 0;
            while k < 4
                invariant
                    self.wf(),
                    g == self.grid,
                    n == g.n_cells(),
                    comp@.len() == n,
                    comp0.len() == n,
                    0 <= c < n,
                    np < usize::MAX,
                    cur < n,
                    comp@[cur as int] == np,
                    comp@[c as int] == np,
                    k <= 4,
                    forall|j: int| 0 <= j < 4 ==> #[trigger] ne@[j] == opt_usize(g.cell_edges_spec(cur as int)[j]),
                    forall|x: int| 0 <= x < n && #[trigger] comp0[x] != usize::MAX ==> comp@[x] == comp0[x],
                    forall|x: int|
                        0 <= x < n && comp0[x] == usize::MAX ==> #[trigger] comp@[x] == usize::MAX || comp@[x] == np,
                    forall|x: int| 0 <= x < n ==> #[trigger] comp0[x] == usize::MAX || comp0[x] < np,
                    forall|x: int| 0 <= x < n && #[trigger] comp0[x] != usize::MAX ==> g.cell_exists@[x],
                    forall|x: int| 0 <= x < c && #[trigger] g.cell_exists@[x] ==> comp0[x] != usize::MAX,
                    forall|e: int|
                        #[trigger] open_edge(self, e) && (comp0[g.edge_cells_of(e).0] != usize::MAX || comp0[g.edge_cells_of(e).1] != usize::MAX) ==> comp0[g.edge_cells_of(e).0] == comp0[g.edge_cells_of(e).1],
                    1 <= q@.len() <= n,
                    head < q@.len(),
                    q@[head as int] == cur,
                    q@.no_duplicates(),
                    forall|i: int| 0 <= i < q@.len() ==> #[trigger] q@[i] < n && comp@[q@[i] as int] == np,
                    forall|x: int| 0 <= x < n && #[trigger] comp@[x] == np ==> q@.contains(x as usize),
                    forall|x: int|
                        0 <= x < n && #[trigger] comp@[x] == np ==> joined(self, c as int, x) && x >= c
                            && g.cell_exists@[x],
                    forall|i: int, e: int|
                        0 <= i < head && #[trigger] open_edge(self, e) && (g.edge_cells_of(e).0 == #[trigger] q@[i]
                            || g.edge_cells_of(e).1 == q@[i]) ==> comp@[g.edge_cells_of(e).0] != usize::MAX
                            && comp@[g.edge_cells_of(e).1] != usize::MAX,
                    forall|j: int| 0 <= j < k ==> #[trigger] side_done(self, comp@, cur as int, j),
                decreases 4 - k,
            {
                let entry = ne[k];
                let ghost comp_k = comp@;
                proof {
                    assert(entry == ne@[k as int]);
                }
                if let Some(eid) = entry {
                    let ghost e = g.cell_edges_spec(cur as int)[k as int]->0;
                    proof {
                        g.lemma_sizes();
                        lemma_side_has_cell(g, cur as int, k as int);
                        assert(eid as int == e);
                    }
                    let (c1, c2) = self.grid.edge_cells(eid);
                    let other = if c1 == cur {
                        c2
                    } else {
                        c1
                    };
                    if self.grid.cell_exists[other] && comp[other] == usize::MAX && self.edges[eid] != EdgeState::Cut {
                        let ghost before = comp@;
                        let ghost qb = q@;
                        proof {
                            assert(open_edge(self, e));
                            assert(linked(self, cur as int, other as int));
                            lemma_walk_extend(self, c as int, cur as int, other as int);
                            if other < c {
                                assert(comp0[other as int] != usize::MAX);
                            }
                            assert(!q@.contains(other));
                        }
                        comp.set(other, np);
                        q.push(other);
                        proof {
                            assert(q@.no_duplicates()) by {
                                assert forall|i: int, j: int| 0 <= i < q@.len() && 0 <= j < q@.len() && i != j implies q@[i]
                                    != q@[j] by {
                                    if i < qb.len() && j < qb.len() {
                                        assert(qb[i] != qb[j]);
                                    } else if i == qb.len() {
                                        assert(q@[j] == qb[j]);
                                        assert(before[qb[j] as int] == np);
                                    } else {
                                        assert(q@[i] == qb[i]);
                                        assert(before[qb[i] as int] == np);
                                    }
                                }
                            }
                            lemma_distinct_bound(q@, n);
                            assert forall|x: int| 0 <= x < n && #[trigger] comp@[x] == np implies q@.contains(x as usize) by {
                                if x != other as int {
                                    assert(before[x] == np);
                                    assert(qb.contains(x as usize));
                                    let i = choose|i: int| 0 <= i < qb.len() && qb[i] == x as usize;
                                    assert(q@[i] == x as usize);
                                } else {
                                    assert(q@[qb.len() as int] == other);
                                }
                            }
                            assert forall|i: int| 0 <= i < q@.len() implies #[trigger] q@[i] < n && comp@[q@[i] as int] == np by {
                                if i < qb.len() {
                                    assert(qb[i] == q@[i]);
                                }
                            }
                            assert forall|i: int, e2: int|
                                0 <= i < head && #[trigger] open_edge(self, e2) && (g.edge_cells_of(e2).0 == #[trigger] q@[i]
                                    || g.edge_cells_of(e2).1 == q@[i]) implies comp@[g.edge_cells_of(e2).0] != usize::MAX
                                && comp@[g.edge_cells_of(e2).1] != usize::MAX by {
                                assert(qb[i] == q@[i]);
                                crate::grid::lemma_edge_cells_range(g, e2);
                                assert(before[g.edge_cells_of(e2).0] != usize::MAX);
                                assert(before[g.edge_cells_of(e2).1] != usize::MAX);
                            }
                        }
                    }
                    proof {
                        assert(comp@[c1 as int] != usize::MAX || !open_edge(self, e));
                        assert(comp@[c2 as int] != usize::MAX || !open_edge(self, e));
                        assert(side_done(self, comp@, cur as int, k as int));
                    }
                }
                proof {
                    assert forall|j: int| 0 <= j < k + 1 implies #[trigger] side_done(self, comp@, cur as int, j) by {
                        if j < k {
                            assert(side_done(self, comp_k, cur as int, j));
                            if let Some(e) = g.cell_edges_spec(cur as int)[j] {
                                if open_edge(self, e) {
                                    crate::grid::lemma_edge_cells_range(g, e);
                                    assert(comp_k[g.edge_cells_of(e).0] != usize::MAX);
                                    assert(comp_k[g.edge_cells_of(e).1] != usize::MAX);
                                    assert(comp0[g.edge_cells_of(e).0] != usize::MAX ==> comp@[g.edge_cells_of(e).0] != usize::MAX);
                                }
                            }
                        } else if entry is None {
                            assert(g.cell_edges_spec(cur as int)[j] is None);
                        }
                    }
                }
                k = k + 1;
            }
            proof {
                assert forall|i: int, e: int|
                    0 <= i < head + 1 && #[trigger] open_edge(self, e) && (g.edge_cells_of(e).0 == #[trigger] q@[i]
                        || g.edge_cells_of(e).1 == q@[i]) implies comp@[g.edge_cells_of(e).0] != usize::MAX
                    && comp@[g.edge_cells_of(e).1] != usize::MAX by {
                    if i == head {
                        law_edge_is_side(g, e);
                        assert(side_done(self, comp@, cur as int, 0));
                        assert(side_done(self, comp@, cur as int, 1));
                        assert(side_done(self, comp@, cur as int, 2));
                        assert(side_done(self, comp@, cur as int, 3));
                        if g.edge_decoded(e).0 {
                            if g.edge_cells_of(e).0 == cur {
                                assert(g.cell_edges_spec(cur as int)[1] == Some(e));
                            } else {
                                assert(g.cell_edges_spec(cur as int)[0] == Some(e));
                            }
                        } else {
                            if g.edge_cells_of(e).0 == cur {
                                assert(g.cell_edges_spec(cur as int)[3] == Some(e));
                            } else {
                                assert(g.cell_edges_spec(cur as int)[2] == Some(e));
                            }
                        }
                    }
                }
            }
            head = head + 1;
        }
        proof {
            assert forall|e: int|
                #[trigger] open_edge(self, e) && (comp@[g.edge_cells_of(e).0] != usize::MAX || comp@[g.edge_cells_of(e).1]
                    != usize::MAX) implies comp@[g.edge_cells_of(e).0] == comp@[g.edge_cells_of(e).1] by {
                let a = g.edge_cells_of(e).0;
                let b = g.edge_cells_of(e).1;
                crate::grid::lemma_edge_cells_range(g, e);
                if comp0[a] != usize::MAX || comp0[b] != usize::MAX {
                    assert(comp0[a] == comp0[b]);
                } else if comp@[a] == np {
                    let i = choose|i: int| 0 <= i < q@.len() && q@[i] == a as usize;
                    assert(comp@[b] != usize::MAX);
                } else {
                    assert(comp@[b] == np);
                    let i = choose|i: int| 0 <= i < q@.len() && q@[i] == b as usize;
                    assert(comp@[a] != usize::MAX);
                }
            }
        }
    }
}

/// A piece made of the given cells (see `piece_of_cells`).
fn make_piece(g: &Grid, cells: Vec<usize>) -> (p: Piece)
    requires
        g.wf(),
        g.rows < i32::MAX,
        g.cols < i32::MAX,
        cells@.len() > 0,
        forall|i: int, j: int| 0 <= i < j < cells@.len() ==> #[trigger] cells@[i] < #[trigger] cells@[j],
        forall|i: int| 0 <= i < cells@.len() ==> #[trigger] cells@[i] < g.n_cells(),
    ensures
        piece_of_cells(*g, p),
        p.cells@ == cells@,
{
    proof {
        if g.cols == 0 {
            assert(g.rows * g.cols == 0) by (nonlinear_arith)
                requires
                    g.cols == 0,
            ;
            assert(cells@[0] < g.n_cells());
        }
    }
    let mut pos: Vec<(i32, i32)> = Vec::new();
    let mut k: usize = 0;
    while k < cells.len()
        invariant
            g.wf(),
            g.rows < i32::MAX,
            g.cols < i32::MAX,
            g.cols > 0,
            k <= cells@.len(),
            forall|i: int| 0 <= i < cells@.len() ==> #[trigger] cells@[i] < g.n_cells(),
            pos@ =~= positions(*g, cells@.take(k as int)),
            forall|i: int| 0 <= i < pos@.len() ==> 0 <= #[trigger] pos@[i].0 < i32::MAX && 0 <= pos@[i].1 < i32::MAX,
        decreases cells@.len() - k,
    {
        let x = cells[k];
        proof {
            lemma_div_mod_in_box(x as int, g.rows as int, g.cols as int);
        }
        let (r, c) = g.cell_pos(x);
        pos.push((r as i32, c as i32));
        k = k + 1;
    }
    proof {
        assert(cells@.take(cells@.len() as int) =~= cells@);
        polyomino::lemma_nonneg_cells_ok(pos@);
    }
    let shape = polyomino::make_shape(&pos);
    let canonical = polyomino::canonical(&shape);
    proof {
        polyomino::lemma_canonical_ok(shape@, 8);
    }
    let area = cells.len();
    Piece { cells, area, canonical }
}

impl Solver {
    /// The cells labelled `np`, in increasing order; `c` is the first.
    fn collect_component(&self, comp: &Vec<usize>, c: usize, np: usize) -> (cells: Vec<usize>)
        requires
            comp@.len() == self.grid.n_cells(),
            c < comp@.len(),
            comp@[c as int] == np,
            forall|x: int| 0 <= x < comp@.len() && #[trigger] comp@[x] == np ==> x >= c,
        ensures
            cells@.len() > 0,
            cells@[0] == c,
            forall|i: int, j: int| 0 <= i < j < cells@.len() ==> #[trigger] cells@[i] < #[trigger] cells@[j],
            forall|i: int| 0 <= i < cells@.len() ==> #[trigger] cells@[i] < comp@.len() && comp@[cells@[i] as int] == np,
            forall|x: int| 0 <= x < comp@.len() && #[trigger] comp@[x] == np ==> cells@.contains(x as usize),
    {
        let n = comp.len();
        let mut cells: Vec<usize> = Vec::new();
        cells.push(c);
        let mut x = c + 1;
        proof {
            assert(cells@[0] == c);
        }
        while x < n
            invariant
                n == comp@.len(),
                c < x <= n,
                comp@[c as int] == np,
                forall|y: int| 0 <= y < n && #[trigger] comp@[y] == np ==> y >= c,
                cells@.len() > 0,
                cells@[0] == c,
                forall|i: int, j: int| 0 <= i < j < cells@.len() ==> #[trigger] cells@[i] < #[trigger] cells@[j],
                forall|i: int| 0 <= i < cells@.len() ==> #[trigger] cells@[i] < x && comp@[cells@[i] as int] == np,
                forall|y: int| 0 <= y < x && #[trigger] comp@[y] == np ==> cells@.contains(y as usize),
            decreases n - x,
        {
            if comp[x] == np {
                let ghost before = cells@;
                cells.push(x);
                proof {
                    assert forall|y: int| 0 <= y < x + 1 && #[trigger] comp@[y] == np implies cells@.contains(y as usize) by {
                        if y < x {
                            let i = choose|i: int| 0 <= i < before.len() && before[i] == y as usize;
                            assert(cells@[i] == y as usize);
                        } else {
                            assert(cells@[before.len() as int] == x);
                        }
                    }
                    assert forall|i: int, j: int| 0 <= i < j < cells@.len() implies #[trigger] cells@[i] < #[trigger] cells@[j] by {
                        if j < before.len() {
                            assert(before[i] < before[j]);
                        } else {
                            assert(before[i] < x);
                        }
                    }
                }
            }
            x = x + 1;
        }
        cells
    }

    /// The pieces into which the cut edges divide the grid: the connected
    /// components of the existing cells through open edges, in the order of
    /// their smallest cells, each listing its cells in increasing order (see
    /// `divides`).
    pub fn compute_pieces(&self) -> (ps: Vec<Piece>)
        requires
            self.wf(),
            self.grid.rows < i32::MAX,
            self.grid.cols < i32::MAX,
        ensures
            divides(self, ps@),
    {
        let ghost g = self.grid;
        proof {
            g.lemma_sizes();
        }
        let n = self.grid.num_cells();
        let mut comp: Vec<usize> = vec![usize::MAX; n];
        let mut pieces: Vec<Piece> = Vec::new();
        let mut c: usize = 0;
        proof {
            assert forall|e: int|
                #[trigger] open_edge(self, e) && (comp@[g.edge_cells_of(e).0] != usize::MAX || comp@[g.edge_cells_of(e).1]
                    != usize::MAX) implies comp@[g.edge_cells_of(e).0] == comp@[g.edge_cells_of(e).1] by {
                crate::grid::lemma_edge_cells_range(g, e);
            }
        }
        while c < n
            invariant
                self.wf(),
                g == self.grid,
                g.rows < i32::MAX,
                g.cols < i32::MAX,
                n == g.n_cells(),
                c <= n,
                comp@.len() == n,
                pieces@.len() <= c,
                forall|x: int| 0 <= x < n ==> #[trigger] comp@[x] == usize::MAX || comp@[x] < pieces@.len(),
                forall|x: int| 0 <= x < n && #[trigger] comp@[x] != usize::MAX ==> g.cell_exists@[x],
                forall|x: int| 0 <= x < c && #[trigger] g.cell_exists@[x] ==> comp@[x] != usize::MAX,
                forall|p: int| 0 <= p < pieces@.len() ==> piece_of_cells(g, #[trigger] pieces@[p]),
                forall|p: int, k: int|
                    0 <= p < pieces@.len() && 0 <= k < pieces@[p].cells@.len() ==> comp@[#[trigger] pieces@[p].cells@[k] as int]
                        == p,
                forall|x: int|
                    0 <= x < n && #[trigger] comp@[x] != usize::MAX ==> pieces@[comp@[x] as int].cells@.contains(x as usize),
                forall|e: int|
                    #[trigger] open_edge(self, e) && (comp@[g.edge_cells_of(e).0] != usize::MAX || comp@[g.edge_cells_of(e).1]
                        != usize::MAX) ==> comp@[g.edge_cells_of(e).0] == comp@[g.edge_cells_of(e).1],
                forall|x: int|
                    0 <= x < n && #[trigger] comp@[x] != usize::MAX ==> joined(
                        self,
                        pieces@[comp@[x] as int].cells@[0] as int,
                        x,
                    ),
                forall|p: int, q: int|
                    0 <= p < q < pieces@.len() ==> (#[trigger] pieces@[p]).cells@[0] < (#[trigger] pieces@[q]).cells@[0],
                forall|p: int| 0 <= p < pieces@.len() ==> (#[trigger] pieces@[p]).cells@[0] < c,
            decreases n - c,
        {
            if self.grid.cell_exists[c] && comp[c] == usize::MAX {
                let np = pieces.len();
                let ghost comp_before = comp@;
                let ghost pieces_before = pieces@;
                self.label_component(&mut comp, c, np);
                let cells = self.collect_component(&comp, c, np);
                let piece = make_piece(&self.grid, cells);
                pieces.push(piece);
                proof {
                    assert(pieces@[np as int] == piece);
                    assert forall|p: int| 0 <= p < np implies #[trigger] pieces@[p] == pieces_before[p] by {}
                    assert forall|x: int| 0 <= x < n implies #[trigger] comp@[x] == usize::MAX || comp@[x] < pieces@.len() by {
                        if comp_before[x] != usize::MAX {
                            assert(comp@[x] == comp_before[x]);
                        }
                    }
                    assert forall|x: int| 0 <= x < n && #[trigger] comp@[x] != usize::MAX implies g.cell_exists@[x] by {
                        if comp_before[x] != usize::MAX {
                            assert(comp@[x] == comp_before[x]);
                        }
                    }
                    assert forall|x: int| 0 <= x < c + 1 && #[trigger] g.cell_exists@[x] implies comp@[x] != usize::MAX by {
                        if x < c {
                            assert(comp_before[x] != usize::MAX);
                        }
                    }
                    assert forall|p: int, k: int|
                        0 <= p < pieces@.len() && 0 <= k < pieces@[p].cells@.len() implies comp@[#[trigger] pieces@[p].cells@[k] as int]
                        == p by {
                        if p < np {
                            let x = pieces_before[p].cells@[k];
                            assert(comp_before[x as int] == p);
                            assert(x < n);
                        }
                    }
                    assert forall|x: int|
                        0 <= x < n && #[trigger] comp@[x] != usize::MAX implies pieces@[comp@[x] as int].cells@.contains(
                        x as usize,
                    ) by {
                        if comp_before[x] != usize::MAX {
                            assert(comp@[x] == comp_before[x]);
                        }
                    }
                    assert forall|x: int|
                        0 <= x < n && #[trigger] comp@[x] != usize::MAX implies joined(
                        self,
                        pieces@[comp@[x] as int].cells@[0] as int,
                        x,
                    ) by {
                        if comp_before[x] != usize::MAX {
                            assert(comp@[x] == comp_before[x]);
                        }
                    }
                    assert forall|p: int| 0 <= p < pieces@.len() implies (#[trigger] pieces@[p]).cells@[0] < c + 1 by {}
                }
            }
            c = c + 1;
        }
        proof {
            assert forall|x: int| 0 <= x < n implies #[trigger] cp(pieces@, x) == comp@[x] by {
                lemma_cp_is_label(pieces@, comp@, x, pieces@.len() as int);
            }
            assert forall|p: int, k: int|
                0 <= p < pieces@.len() && 0 <= k < pieces@[p].cells@.len() implies cp(pieces@, #[trigger] pieces@[p].cells@[k] as int)
                == p by {
                let x = pieces@[p].cells@[k];
                assert(comp@[x as int] == p);
                assert(cp(pieces@, x as int) == comp@[x as int]);
            }
            assert forall|e: int| #[trigger] open_edge(self, e) implies cp(pieces@, g.edge_cells_of(e).0) == cp(
                pieces@,
                g.edge_cells_of(e).1,
            ) by {
                crate::grid::lemma_edge_cells_range(g, e);
                assert(cp(pieces@, g.edge_cells_of(e).0) == comp@[g.edge_cells_of(e).0]);
                assert(cp(pieces@, g.edge_cells_of(e).1) == comp@[g.edge_cells_of(e).1]);
            }
        }
        pieces
    }
}

} // verus!
