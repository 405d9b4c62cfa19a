//! Premature loop closure: the cut edges, seen as a graph on the grid
//! points, must not close more loops than the known number of pieces allows.
use vstd::prelude::*;
use super::Solver;
use crate::grid::{lemma_index_in_box, lemma_div_mod_in_box, Grid};
use crate::types::EdgeState;
use super::edge_state::{lemma_decided_refl, lemma_decided_step, lemma_set_all, lemma_set_all_effects};

verus! {

/// Edge `e` is cut.
pub open spec fn is_cut(s: &Solver, e: int) -> bool {
    s.edges@[e] == EdgeState::Cut
}

/// One of the first `k` edges is cut and has end points `a` and `b`.
pub open spec fn cut_link(s: &Solver, k: int, a: int, b: int) -> bool {
    exists|e: int|
        0 <= e < k && #[trigger] is_cut(s, e) && (s.grid.edge_vertices_of(e) == (a, b) || s.grid.edge_vertices_of(e) == (
        b,
        a,
    ))
}

/// `p` is a walk of grid points, each joined to the next by a cut edge
/// among the first `k`.
pub open spec fn cut_walk(s: &Solver, k: int, p: Seq<int>) -> bool {
    &&& p.len() > 0
    &&& forall|i: int| 0 <= i < p.len() ==> 0 <= #[trigger] p[i] < s.grid.n_vertices()
    &&& forall|i: int| 0 <= i < p.len() - 1 ==> #[trigger] cut_link(s, k, p[i], p[i + 1])
}

/// Grid points `a` and `b` are joined by a walk along cut edges among the first `k`.
pub open spec fn cut_conn(s: &Solver, k: int, a: int, b: int) -> bool {
    exists|p: Seq<int>| #[trigger] cut_walk(s, k, p) && p[0] == a && p.last() == b
}

/// Both end points of an edge are grid points, the smaller first.
#[verifier::spinoff_prover]
pub proof fn lemma_edge_vertices_range(g: Grid, e: int)
    requires
        g.wf(),
        0 <= e < g.n_edges(),
    ensures
        0 <= g.edge_vertices_of(e).0 < g.edge_vertices_of(e).1 < g.n_vertices(),
{
    let rows = g.rows as int;
    let cols = g.cols as int;
    if e < g.n_h_edges() {
        assert((rows - 1) * cols == cols * (rows - 1)) by (nonlinear_arith);
        lemma_div_mod_in_box(e, cols, rows - 1);
        let r = e % (rows - 1);
        let c = e / (rows - 1);
        lemma_index_in_box(r + 1, c + 1, rows + 1, cols + 1);
        lemma_index_in_box(r + 1, c, rows + 1, cols + 1);
    } else {
        let e2 = e - g.n_h_edges();
        lemma_div_mod_in_box(e2, rows, cols - 1);
        let r = e2 / (cols - 1);
        let c = e2 % (cols - 1);
        lemma_index_in_box(r + 1, c + 1, rows + 1, cols + 1);
        lemma_index_in_box(r, c + 1, rows + 1, cols + 1);
        assert((r + 1) * (cols + 1) == r * (cols + 1) + cols + 1) by (nonlinear_arith);
    }
}

/// A grid point is joined to itself.
#[verifier::spinoff_prover]
pub proof fn lemma_conn_refl(s: &Solver, k: int, a: int)
    requires
        0 <= a < s.grid.n_vertices(),
    ensures
        cut_conn(s, k, a, a),
{
    let p = seq![a];
    assert(cut_walk(s, k, p));
}

/// The end points of a cut edge among the first `k` are joined.
#[verifier::spinoff_prover]
pub proof fn lemma_link_conn(s: &Solver, k: int, a: int, b: int)
    requires
        cut_link(s, k, a, b),
        0 <= a < s.grid.n_vertices(),
        0 <= b < s.grid.n_vertices(),
    ensures
        cut_conn(s, k, a, b),
{
    let p = seq![a, b];
    assert(cut_link(s, k, p[0], p[1]));
    assert(cut_walk(s, k, p));
}

/// Joining is symmetric.
#[verifier::spinoff_prover]
pub proof fn lemma_conn_sym(s: &Solver, k: int, a: int, b: int)
    requires
        cut_conn(s, k, a, b),
    ensures
        cut_conn(s, k, b, a),
{
    let p = choose|p: Seq<int>| #[trigger] cut_walk(s, k, p) && p[0] == a && p.last() == b;
    let n = p.len() as int;
    let q = Seq::new(p.len(), |i: int| p[n - 1 - i]);
    assert forall|i: int| 0 <= i < q.len() - 1 implies #[trigger] cut_link(s, k, q[i], q[i + 1]) by {
        let j = n - 2 - i;
        assert(cut_link(s, k, p[j], p[j + 1]));
        let e = choose|e: int|
            0 <= e < k && #[trigger] is_cut(s, e) && (s.grid.edge_vertices_of(e) == (p[j], p[j + 1])
                || s.grid.edge_vertices_of(e) == (p[j + 1], p[j]));
        assert(is_cut(s, e));
    }
    assert forall|i: int| 0 <= i < q.len() implies 0 <= #[trigger] q[i] < s.grid.n_vertices() by {
        assert(0 <= p[n - 1 - i] < s.grid.n_vertices());
    }
    assert(cut_walk(s, k, q));
}

/// Joining is transitive.
#[verifier::spinoff_prover]
pub proof fn lemma_conn_trans(s: &Solver, k: int, a: int, b: int, c: int)
    requires
        cut_conn(s, k, a, b),
        cut_conn(s, k, b, c),
    ensures
        cut_conn(s, k, a, c),
{
    let p = choose|p: Seq<int>| #[trigger] cut_walk(s, k, p) && p[0] == a && p.last() == b;
    let q = choose|q: Seq<int>| #[trigger] cut_walk(s, k, q) && q[0] == b && q.last() == c;
    let w = p + q.skip(1);
    let np = p.len() as int;
    assert forall|i: int| 0 <= i < w.len() implies 0 <= #[trigger] w[i] < s.grid.n_vertices() by {
        if i < np {
            assert(w[i] == p[i]);
        } else {
            assert(w[i] == q[i - np + 1]);
        }
    }
    assert forall|i: int| 0 <= i < w.len() - 1 implies #[trigger] cut_link(s, k, w[i], w[i + 1]) by {
        if i < np - 1 {
            assert(w[i] == p[i] && w[i + 1] == p[i + 1]);
            assert(cut_link(s, k, p[i], p[i + 1]));
        } else if i == np - 1 {
            assert(w[i] == q[0] && w[i + 1] == q[1]);
            assert(cut_link(s, k, q[0], q[1]));
        } else {
            let j = i - np + 1;
            assert(w[i] == q[j] && w[i + 1] == q[j + 1]);
            assert(cut_link(s, k, q[j], q[j + 1]));
        }
    }
    assert(cut_walk(s, k, w));
    if q.len() == 1 {
        assert(w =~= p);
    } else {
        assert(w.last() == q.last());
    }
}

/// A walk along cut edges among the first `k` uses cut edges among any
/// more edges too.
#[verifier::spinoff_prover]
pub proof fn lemma_conn_mono(s: &Solver, k: int, k2: int, a: int, b: int)
    requires
        cut_conn(s, k, a, b),
        k <= k2,
    ensures
        cut_conn(s, k2, a, b),
{
    let p = choose|p: Seq<int>| #[trigger] cut_walk(s, k, p) && p[0] == a && p.last() == b;
    assert forall|i: int| 0 <= i < p.len() - 1 implies #[trigger] cut_link(s, k2, p[i], p[i + 1]) by {
        assert(cut_link(s, k, p[i], p[i + 1]));
        let e = choose|e: int|
            0 <= e < k && #[trigger] is_cut(s, e) && (s.grid.edge_vertices_of(e) == (p[i], p[i + 1])
                || s.grid.edge_vertices_of(e) == (p[i + 1], p[i]));
        assert(is_cut(s, e));
    }
    assert(cut_walk(s, k2, p));
}

/// What edge `k` adds to joining: the points joined using the first `k + 1`
/// edges are those joined using the first `k`, and, when edge `k` is cut,
/// those joined to its two end points.
pub open spec fn conn_after(s: &Solver, k: int, x: int, y: int) -> bool {
    let (a, b) = s.grid.edge_vertices_of(k);
    ||| cut_conn(s, k, x, y)
    ||| is_cut(s, k) && ((cut_conn(s, k, x, a) && cut_conn(s, k, b, y)) || (cut_conn(s, k, x, b) && cut_conn(s, k, a, y)))
}

/// Every walk along the first `k + 1` edges joins points that `conn_after` relates.
#[verifier::spinoff_prover]
proof fn lemma_walk_after(s: &Solver, k: int, p: Seq<int>)
    requires
        s.wf(),
        0 <= k < s.grid.n_edges(),
        cut_walk(s, k + 1, p),
    ensures
        conn_after(s, k, p[0], p.last()),
    decreases p.len(),
{
    let (a, b) = s.grid.edge_vertices_of(k);
    lemma_edge_vertices_range(s.grid, k);
    let x = p[0];
    if p.len() == 1 {
        lemma_conn_refl(s, k, x);
    } else {
        let q = p.drop_last();
        assert forall|i: int| 0 <= i < q.len() - 1 implies #[trigger] cut_link(s, k + 1, q[i], q[i + 1]) by {
            assert(cut_link(s, k + 1, p[i], p[i + 1]));
        }
        assert(cut_walk(s, k + 1, q));
        lemma_walk_after(s, k, q);
        let y1 = q.last();
        let y = p.last();
        let j = p.len() - 2;
        assert(y1 == p[j]);
        assert(cut_link(s, k + 1, p[j], p[j + 1]));
        assert(p[j + 1] == y);
        assert(0 <= y1 < s.grid.n_vertices() && 0 <= y < s.grid.n_vertices());
        let e = choose|e: int|
            0 <= e < k + 1 && #[trigger] is_cut(s, e) && (s.grid.edge_vertices_of(e) == (y1, y)
                || s.grid.edge_vertices_of(e) == (y, y1));
        if e < k {
            assert(is_cut(s, e));
            assert(cut_link(s, k, y1, y));
            lemma_link_conn(s, k, y1, y);
            if cut_conn(s, k, x, y1) {
                lemma_conn_trans(s, k, x, y1, y);
            } else if cut_conn(s, k, x, a) && cut_conn(s, k, b, y1) {
                lemma_conn_trans(s, k, b, y1, y);
            } else {
                lemma_conn_trans(s, k, a, y1, y);
            }
        } else {
            assert(e == k);
            lemma_conn_refl(s, k, a);
            lemma_conn_refl(s, k, b);
            if cut_conn(s, k, x, y1) {
            } else if cut_conn(s, k, x, a) && cut_conn(s, k, b, y1) {
                if y1 == a {
                    lemma_conn_sym(s, k, b, a);
                    lemma_conn_trans(s, k, x, a, b);
                }
            } else {
                if y1 == b {
                    lemma_conn_sym(s, k, a, b);
                    lemma_conn_trans(s, k, x, b, a);
                }
            }
        }
    }
}

/// Joining along the first `k + 1` edges is exactly `conn_after`.
#[verifier::spinoff_prover]
pub proof fn lemma_conn_step(s: &Solver, k: int, x: int, y: int)
    requires
        s.wf(),
        0 <= k < s.grid.n_edges(),
    ensures
        cut_conn(s, k + 1, x, y) <==> conn_after(s, k, x, y),
{
    let (a, b) = s.grid.edge_vertices_of(k);
    lemma_edge_vertices_range(s.grid, k);
    if cut_conn(s, k + 1, x, y) {
        let p = choose|p: Seq<int>| #[trigger] cut_walk(s, k + 1, p) && p[0] == x && p.last() == y;
        lemma_walk_after(s, k, p);
    }
    if conn_after(s, k, x, y) {
        if cut_conn(s, k, x, y) {
            lemma_conn_mono(s, k, k + 1, x, y);
        } else {
            assert(is_cut(s, k));
            assert(cut_link(s, k + 1, a, b));
            lemma_link_conn(s, k + 1, a, b);
            lemma_conn_sym(s, k + 1, a, b);
            if cut_conn(s, k, x, a) && cut_conn(s, k, b, y) {
                lemma_conn_mono(s, k, k + 1, x, a);
                lemma_conn_mono(s, k, k + 1, b, y);
                lemma_conn_trans(s, k + 1, x, a, b);
                lemma_conn_trans(s, k + 1, x, b, y);
            } else {
                lemma_conn_mono(s, k, k + 1, x, b);
                lemma_conn_mono(s, k, k + 1, a, y);
                lemma_conn_trans(s, k + 1, x, b, a);
                lemma_conn_trans(s, k + 1, x, a, y);
            }
        }
    }
}

/// Number of cut edges among the first `k` that have `v` as an end point.
pub open spec fn cut_deg(s: &Solver, v: int, k: int) -> nat
    decreases k,
{
    if k <= 0 {
        0
    } else {
        cut_deg(s, v, k - 1) + if is_cut(s, k - 1) && (s.grid.edge_vertices_of(k - 1).0 == v
            || s.grid.edge_vertices_of(k - 1).1 == v) {
            1nat
        } else {
            0nat
        }
    }
}

/// A union-find forest on `n` points: parents `vp`, ranks `vr` (at most
/// `bound`), and `rt` the root of each point; ranks grow towards the root.
pub open spec fn forest_ok(vp: Seq<usize>, vr: Seq<usize>, rt: Seq<int>, n: int, bound: int) -> bool {
    &&& vp.len() == n
    &&& vr.len() == n
    &&& rt.len() == n
    &&& forall|x: int| 0 <= x < n ==> #[trigger] vp[x] < n && 0 <= rt[x] < n && vr[x] <= bound
    &&& forall|x: int| 0 <= x < n && #[trigger] vp[x] != x ==> vr[vp[x] as int] > vr[x] && rt[vp[x] as int] == rt[x]
    &&& forall|x: int| 0 <= x < n ==> vp[#[trigger] rt[x]] == rt[x]
    &&& forall|x: int| 0 <= x < n && #[trigger] vp[x] == x ==> rt[x] == x
}

/// Follows parents from `x` up to its root.
#[verifier::spinoff_prover]
pub fn find_root(vp: &Vec<usize>, Ghost(vr): Ghost<Seq<usize>>, Ghost(rt): Ghost<Seq<int>>, Ghost(bound): Ghost<int>, x: usize) -> (r: usize)
    requires
        forest_ok(vp@, vr, rt, vp@.len() as int, bound),
        x < vp@.len(),
    ensures
        r == rt[x as int],
{
    let n = vp.len();
    let mut r = x;
    proof {
        assert(vp@[x as int] < n);
    }
    while vp[r] != r
        invariant
            forest_ok(vp@, vr, rt, n as int, bound),
            n == vp@.len(),
            r < n,
            x < n,
            rt[r as int] == rt[x as int],
        decreases bound - vr[r as int],
    {
        proof {
            assert(vp@[r as int] < n);
            assert(vr[r as int] <= bound);
            let pr = vp@[r as int] as int;
            assert(vp@[pr] < n);
            assert(vr[pr] <= bound);
        }
        r = vp[r];
    }
    r
}

/// Two points are in the same tree when the merged root map says so: the
/// classes `r1` and `r2` become one.
#[verifier::spinoff_prover]
proof fn lemma_merge_classes(rt: Seq<int>, rt2: Seq<int>, n: int, loser: int, winner: int, x: int, y: int)
    requires
        rt.len() == n,
        rt2 == Seq::new(n as nat, |z: int| if rt[z] == loser { winner } else { rt[z] }),
        loser != winner,
        0 <= x < n,
        0 <= y < n,
    ensures
        rt2[x] == rt2[y] <==> rt[x] == rt[y] || (rt[x] == loser && rt[y] == winner) || (rt[x] == winner && rt[y] == loser),
{
}

/// Links two different roots, the lower rank under the higher, or the
/// second under the first with its rank raised when the ranks are equal;
/// returns the new root map, which merges the two classes.
#[verifier::spinoff_prover]
fn union_roots(vp: &mut Vec<usize>, vr: &mut Vec<usize>, r1: usize, r2: usize, Ghost(rt): Ghost<Seq<int>>, Ghost(bound): Ghost<int>) -> (rt2: Ghost<Seq<int>>)
    requires
        forest_ok(old(vp)@, old(vr)@, rt, old(vp)@.len() as int, bound),
        bound < usize::MAX,
        r1 < old(vp)@.len(),
        r2 < old(vp)@.len(),
        r1 != r2,
        old(vp)@[r1 as int] == r1,
        old(vp)@[r2 as int] == r2,
    ensures
        forest_ok(final(vp)@, final(vr)@, rt2@, old(vp)@.len() as int, bound + 1),
        forall|x: int, y: int|
            0 <= x < old(vp)@.len() && 0 <= y < old(vp)@.len() ==> (#[trigger] rt2@[x] == #[trigger] rt2@[y] <==> rt[x] == rt[y] || (
            rt[x] == r1 && rt[y] == r2) || (rt[x] == r2 && rt[y] == r1)),
{
    let ghost n = vp@.len() as int;
    proof {
        assert(vp@[r1 as int] < n);
        assert(vp@[r2 as int] < n);
    }
    if vr[r1] < vr[r2] {
        vp.set(r1, r2);
        let ghost rt2 = Seq::new(n as nat, |z: int| if rt[z] == r1 { r2 as int } else { rt[z] });
        proof {
            assert(rt[r1 as int] == r1 && rt[r2 as int] == r2);
            assert forall|x: int, y: int|
                0 <= x < n && 0 <= y < n implies (#[trigger] rt2[x] == #[trigger] rt2[y] <==> rt[x] == rt[y] || (
                rt[x] == r1 && rt[y] == r2) || (rt[x] == r2 && rt[y] == r1)) by {
                lemma_merge_classes(rt, rt2, n, r1 as int, r2 as int, x, y);
            }
            assert forall|x: int| 0 <= x < n && #[trigger] vp@[x] != x implies vr@[vp@[x] as int] > vr@[x]
                && rt2[vp@[x] as int] == rt2[x] by {
                if x != r1 {
                    assert(old(vp)@[x] == vp@[x]);
                    assert(old(vp)@[x] < n);
                }
            }
            assert forall|x: int| 0 <= x < n implies vp@[#[trigger] rt2[x]] == rt2[x] by {
                assert(old(vp)@[x] < n);
                assert(0 <= rt[x] < n);
                assert(old(vp)@[rt[x]] == rt[x]);
            }
            assert forall|x: int| 0 <= x < n implies #[trigger] vp@[x] < n && 0 <= rt2[x] < n && vr@[x] <= bound + 1 by {
                assert(old(vp)@[x] < n);
            }
            assert forall|x: int| 0 <= x < n && #[trigger] vp@[x] == x implies rt2[x] == x by {
                assert(old(vp)@[x] < n);
            }
        }
        Ghost(rt2)
    } else if vr[r1] > vr[r2] {
        vp.set(r2, r1);
        let ghost rt2 = Seq::new(n as nat, |z: int| if rt[z] == r2 { r1 as int } else { rt[z] });
        proof {
            assert(rt[r1 as int] == r1 && rt[r2 as int] == r2);
            assert forall|x: int, y: int|
                0 <= x < n && 0 <= y < n implies (#[trigger] rt2[x] == #[trigger] rt2[y] <==> rt[x] == rt[y] || (
                rt[x] == r1 && rt[y] == r2) || (rt[x] == r2 && rt[y] == r1)) by {
                lemma_merge_classes(rt, rt2, n, r2 as int, r1 as int, x, y);
            }
            assert forall|x: int| 0 <= x < n && #[trigger] vp@[x] != x implies vr@[vp@[x] as int] > vr@[x]
                && rt2[vp@[x] as int] == rt2[x] by {
                if x != r2 {
                    assert(old(vp)@[x] == vp@[x]);
                    assert(old(vp)@[x] < n);
                }
            }
            assert forall|x: int| 0 <= x < n implies vp@[#[trigger] rt2[x]] == rt2[x] by {
                assert(old(vp)@[x] < n);
                assert(0 <= rt[x] < n);
                assert(old(vp)@[rt[x]] == rt[x]);
            }
            assert forall|x: int| 0 <= x < n implies #[trigger] vp@[x] < n && 0 <= rt2[x] < n && vr@[x] <= bound + 1 by {
                assert(old(vp)@[x] < n);
            }
            assert forall|x: int| 0 <= x < n && #[trigger] vp@[x] == x implies rt2[x] == x by {
                assert(old(vp)@[x] < n);
            }
        }
        Ghost(rt2)
    } else {
        vp.set(r2, r1);
        let k = vr[r1];
        proof {
            assert(vr@[r1 as int] <= bound);
        }
        vr.set(r1, k + 1);
        let ghost rt2 = Seq::new(n as nat, |z: int| if rt[z] == r2 { r1 as int } else { rt[z] });
        proof {
            assert(rt[r1 as int] == r1 && rt[r2 as int] == r2);
            assert forall|x: int, y: int|
                0 <= x < n && 0 <= y < n implies (#[trigger] rt2[x] == #[trigger] rt2[y] <==> rt[x] == rt[y] || (
                rt[x] == r1 && rt[y] == r2) || (rt[x] == r2 && rt[y] == r1)) by {
                lemma_merge_classes(rt, rt2, n, r2 as int, r1 as int, x, y);
            }
            assert forall|x: int| 0 <= x < n && #[trigger] vp@[x] != x implies vr@[vp@[x] as int] > vr@[x]
                && rt2[vp@[x] as int] == rt2[x] by {
                if x != r2 {
                    assert(old(vp)@[x] == vp@[x]);
                    assert(old(vp)@[x] < n);
                    assert(old(vp)@[x] != x);
                    assert(old(vr)@[old(vp)@[x] as int] > old(vr)@[x]);
                    assert(x != r1);
                }
            }
            assert forall|x: int| 0 <= x < n implies vp@[#[trigger] rt2[x]] == rt2[x] by {
                assert(old(vp)@[x] < n);
                assert(0 <= rt[x] < n);
                assert(old(vp)@[rt[x]] == rt[x]);
            }
            assert forall|x: int| 0 <= x < n implies #[trigger] vp@[x] < n && 0 <= rt2[x] < n && vr@[x] <= bound + 1 by {
                assert(old(vp)@[x] < n);
            }
            assert forall|x: int| 0 <= x < n && #[trigger] vp@[x] == x implies rt2[x] == x by {
                assert(old(vp)@[x] < n);
            }
        }
        Ghost(rt2)
    }
}

/// With no edges, a point is joined only to itself.
#[verifier::spinoff_prover]
proof fn lemma_conn_none(s: &Solver, x: int, y: int)
    requires
        0 <= x < s.grid.n_vertices(),
        0 <= y < s.grid.n_vertices(),
    ensures
        cut_conn(s, 0, x, y) <==> x == y,
{
    if cut_conn(s, 0, x, y) {
        let p = choose|p: Seq<int>| #[trigger] cut_walk(s, 0, p) && p[0] == x && p.last() == y;
        if p.len() > 1 {
            let z: int = 0;
            assert(cut_link(s, 0, p[z], p[z + 1]));
        }
    }
    if x == y {
        lemma_conn_refl(s, 0, x);
    }
}

/// After edge `e`, whose end points have roots `r1` and `r2`, the root map
/// `rt2` (which merges their classes when they differ) tells which points
/// are joined along the first `e + 1` edges.
#[verifier::spinoff_prover]
proof fn lemma_forest_step(s: &Solver, e: int, rt: Seq<int>, rt2: Seq<int>, r1: int, r2: int)
    requires
        s.wf(),
        0 <= e < s.grid.n_edges(),
        is_cut(s, e),
        rt.len() == s.grid.n_vertices(),
        rt2.len() == s.grid.n_vertices(),
        forall|x: int, y: int|
            0 <= x < s.grid.n_vertices() && 0 <= y < s.grid.n_vertices() ==> (#[trigger] rt[x] == #[trigger] rt[y]
                <==> cut_conn(s, e, x, y)),
        r1 == rt[s.grid.edge_vertices_of(e).0],
        r2 == rt[s.grid.edge_vertices_of(e).1],
        forall|x: int, y: int|
            0 <= x < s.grid.n_vertices() && 0 <= y < s.grid.n_vertices() ==> (#[trigger] rt2[x] == #[trigger] rt2[y]
                <==> rt[x] == rt[y] || (rt[x] == r1 && rt[y] == r2) || (rt[x] == r2 && rt[y] == r1)),
    ensures
        forall|x: int, y: int|
            0 <= x < s.grid.n_vertices() && 0 <= y < s.grid.n_vertices() ==> (#[trigger] rt2[x] == #[trigger] rt2[y]
                <==> cut_conn(s, e + 1, x, y)),
{
    let (a, b) = s.grid.edge_vertices_of(e);
    lemma_edge_vertices_range(s.grid, e);
    assert forall|x: int, y: int|
        0 <= x < s.grid.n_vertices() && 0 <= y < s.grid.n_vertices() implies (#[trigger] rt2[x] == #[trigger] rt2[y]
            <==> cut_conn(s, e + 1, x, y)) by {
        lemma_conn_step(s, e, x, y);
        assert(rt[x] == rt[a] <==> cut_conn(s, e, x, a));
        assert(rt[b] == rt[y] <==> cut_conn(s, e, b, y));
        assert(rt[x] == rt[b] <==> cut_conn(s, e, x, b));
        assert(rt[a] == rt[y] <==> cut_conn(s, e, a, y));
        assert(rt[x] == rt[y] <==> cut_conn(s, e, x, y));
    }
}

/// Joining along the first `e + 1` edges is joining along the first `e`
/// when edge `e` is not cut.
#[verifier::spinoff_prover]
proof fn lemma_forest_skip(s: &Solver, e: int, x: int, y: int)
    requires
        s.wf(),
        0 <= e < s.grid.n_edges(),
        !is_cut(s, e),
    ensures
        cut_conn(s, e + 1, x, y) <==> cut_conn(s, e, x, y),
{
    lemma_conn_step(s, e, x, y);
}

impl Solver {
    /// The forest of the cut edges over the grid points: parents, ranks,
    /// the number of cut edges at each point, and whether any edge is cut.
    /// Two points share a root exactly when a walk along cut edges joins them.
    #[verifier::spinoff_prover]
    fn cut_forest(&self) -> (res: (Vec<usize>, Vec<usize>, Vec<usize>, bool, Ghost<Seq<int>>))
        requires
            self.wf(),
        ensures
            forest_ok(res.0@, res.1@, res.4@, self.grid.n_vertices(), self.grid.n_edges()),
            forall|x: int, y: int|
                0 <= x < self.grid.n_vertices() && 0 <= y < self.grid.n_vertices() ==> (#[trigger] res.4@[x]
                    == #[trigger] res.4@[y] <==> cut_conn(self, self.grid.n_edges(), x, y)),
            res.2@.len() == self.grid.n_vertices(),
            forall|v: int| 0 <= v < self.grid.n_vertices() ==> #[trigger] res.2@[v] == cut_deg(self, v, self.grid.n_edges()),
            res.3 <==> exists|e: int| 0 <= e < self.grid.n_edges() && #[trigger] is_cut(self, e),
    {
        proof {
            self.grid.lemma_sizes();
        }
        let ne = self.grid.num_edges();
        let nv = (self.grid.rows + 1) * (self.grid.cols + 1);
        let mut vp: Vec<usize> = Vec::new();
        let mut vr: Vec<usize> = Vec::new();
        let mut cd: Vec<usize> = Vec::new();
        let mut i: usize = 0;
        while i < nv
            invariant
                nv == self.grid.n_vertices(),
                i <= nv,
                vp@.len() == i,
                vr@.len() == i,
                cd@.len() == i,
                forall|x: int| 0 <= x < i ==> #[trigger] vp@[x] == x,
                forall|x: int| 0 <= x < i ==> #[trigger] vr@[x] == 0,
                forall|x: int| 0 <= x < i ==> #[trigger] cd@[x] == 0,
            decreases nv - i,
        {
            vp.push(i);
            vr.push(0);
            cd.push(0);
            i = i + 1;
        }
        let ghost mut rt: Seq<int> = Seq::new(nv as nat, |x: int| x);
        let mut any_cut = false;
        proof {
            assert forall|x: int, y: int| 0 <= x < nv && 0 <= y < nv implies (#[trigger] rt[x] == #[trigger] rt[y]
                <==> cut_conn(self, 0, x, y)) by {
                lemma_conn_none(self, x, y);
            }
        }
        let mut e: usize = 0;
        while e < ne
            invariant
                self.wf(),
                ne == self.grid.n_edges(),
                nv == self.grid.n_vertices(),
                e <= ne,
                forest_ok(vp@, vr@, rt, nv as int, e as int),
                forall|x: int, y: int| 0 <= x < nv && 0 <= y < nv ==> (#[trigger] rt[x] == #[trigger] rt[y]
                    <==> cut_conn(self, e as int, x, y)),
                cd@.len() == nv,
                forall|v: int| 0 <= v < nv ==> #[trigger] cd@[v] == cut_deg(self, v, e as int) && cd@[v] <= e,
                any_cut <==> exists|e2: int| 0 <= e2 < e && #[trigger] is_cut(self, e2),
            decreases ne - e,
        {
            proof {
                lemma_edge_vertices_range(self.grid, e as int);
            }
            if self.edges[e] == EdgeState::Cut {
                proof {
                    assert(is_cut(self, e as int));
                }
                any_cut = true;
                let (v1, v2) = self.grid.edge_vertices(e);
                let d1 = cd[v1];
                cd.set(v1, d1 + 1);
                let d2 = cd[v2];
                cd.set(v2, d2 + 1);
                let r1 = find_root(&vp, Ghost(vr@), Ghost(rt), Ghost(e as int), v1);
                let r2 = find_root(&vp, Ghost(vr@), Ghost(rt), Ghost(e as int), v2);
                if r1 != r2 {
                    proof {
                        assert(vp@[v1 as int] < nv);
                        assert(vp@[v2 as int] < nv);
                    }
                    let ghost old_rt = rt;
                    let rt2 = union_roots(&mut vp, &mut vr, r1, r2, Ghost(rt), Ghost(e as int));
                    proof {
                        rt = rt2@;
                        lemma_forest_step(self, e as int, old_rt, rt, r1 as int, r2 as int);
                        assert(forest_ok(vp@, vr@, rt, nv as int, e + 1));
                    }
                } else {
                    proof {
                        assert forall|x: int, y: int| 0 <= x < nv && 0 <= y < nv implies (#[trigger] rt[x] == #[trigger] rt[y]
                            <==> rt[x] == rt[y] || (rt[x] == r1 && rt[y] == r2) || (rt[x] == r2 && rt[y] == r1)) by {
                        }
                        lemma_forest_step(self, e as int, rt, rt, r1 as int, r2 as int);
                        assert forall|x: int| 0 <= x < nv implies #[trigger] vp@[x] < nv && 0 <= rt[x] < nv && vr@[x] <= e + 1 by {
                            assert(vp@[x] < nv);
                        }
                        assert forall|x: int| 0 <= x < nv && #[trigger] vp@[x] != x implies vr@[vp@[x] as int] > vr@[x]
                            && rt[vp@[x] as int] == rt[x] by {
                        }
                        assert forall|x: int| 0 <= x < nv implies vp@[#[trigger] rt[x]] == rt[x] by {
                        }
                        assert forall|x: int| 0 <= x < nv && #[trigger] vp@[x] == x implies rt[x] == x by {
                        }
                        assert(forest_ok(vp@, vr@, rt, nv as int, e + 1));
                    }
                }
                proof {
                    assert forall|v: int| 0 <= v < nv implies #[trigger] cd@[v] == cut_deg(self, v, e + 1) && cd@[v] <= e + 1 by {
                    }
                }
            } else {
                proof {
                    assert forall|x: int, y: int| 0 <= x < nv && 0 <= y < nv implies (#[trigger] rt[x] == #[trigger] rt[y]
                        <==> cut_conn(self, e + 1, x, y)) by {
                        lemma_forest_skip(self, e as int, x, y);
                    }
                    assert forall|x: int| 0 <= x < nv implies #[trigger] vp@[x] < nv && 0 <= rt[x] < nv && vr@[x] <= e + 1 by {
                        assert(vp@[x] < nv);
                    }
                    assert(forest_ok(vp@, vr@, rt, nv as int, e + 1));
                }
            }
            proof {
                assert(any_cut <==> exists|e2: int| 0 <= e2 < e + 1 && #[trigger] is_cut(self, e2));
            }
            e = e + 1;
        }
        (vp, vr, cd, any_cut, Ghost(rt))
    }
}

/// Point `v` has a cut edge.
pub open spec fn touched(s: &Solver, v: int) -> bool {
    cut_deg(s, v, s.grid.n_edges()) > 0
}

/// Point `v` has an odd number of cut edges: a loose end of a path.
pub open spec fn odd_point(s: &Solver, v: int) -> bool {
    cut_deg(s, v, s.grid.n_edges()) % 2 == 1
}

/// Every point joined to `v` along cut edges has an even number of them:
/// the cut edges through `v` form closed loops.
pub open spec fn closed_class(s: &Solver, v: int) -> bool {
    forall|u: int| 0 <= u < s.grid.n_vertices() && #[trigger] cut_conn(s, s.grid.n_edges(), v, u) ==> !odd_point(s, u)
}

/// No smaller point is joined to `v` along cut edges.
pub open spec fn class_first(s: &Solver, v: int) -> bool {
    forall|u: int| 0 <= u < v ==> !#[trigger] cut_conn(s, s.grid.n_edges(), u, v)
}

/// Among the points below `n`, the number of groups of points joined by
/// cut edges that form closed loops (each group counted at its first point).
pub open spec fn loops_below(s: &Solver, n: int) -> nat
    decreases n,
{
    if n <= 0 {
        0
    } else {
        loops_below(s, n - 1) + if touched(s, n - 1) && class_first(s, n - 1) && closed_class(s, n - 1) {
            1nat
        } else {
            0nat
        }
    }
}

/// Among the points below `n`, the number of groups of points joined by
/// cut edges that have loose ends.
pub open spec fn open_below(s: &Solver, n: int) -> nat
    decreases n,
{
    if n <= 0 {
        0
    } else {
        open_below(s, n - 1) + if touched(s, n - 1) && class_first(s, n - 1) && !closed_class(s, n - 1) {
            1nat
        } else {
            0nat
        }
    }
}

/// A cut edge among the first `k` at point `u` counts towards its cut edges.
#[verifier::spinoff_prover]
proof fn lemma_deg_pos(s: &Solver, u: int, e: int, k: int)
    requires
        0 <= e < k,
        is_cut(s, e),
        s.grid.edge_vertices_of(e).0 == u || s.grid.edge_vertices_of(e).1 == u,
    ensures
        cut_deg(s, u, k) > 0,
    decreases k,
{
    if e < k - 1 {
        lemma_deg_pos(s, u, e, k - 1);
    }
}

/// A point joined to another point along cut edges has a cut edge.
#[verifier::spinoff_prover]
proof fn lemma_conn_touched(s: &Solver, u: int, v: int)
    requires
        cut_conn(s, s.grid.n_edges(), u, v),
        u != v,
    ensures
        touched(s, u),
{
    let k = s.grid.n_edges();
    let p = choose|p: Seq<int>| #[trigger] cut_walk(s, k, p) && p[0] == u && p.last() == v;
    let z: int = 0;
    assert(cut_link(s, k, p[z], p[z + 1]));
    let e = choose|e: int|
        0 <= e < k && #[trigger] is_cut(s, e) && (s.grid.edge_vertices_of(e) == (p[z], p[z + 1])
            || s.grid.edge_vertices_of(e) == (p[z + 1], p[z]));
    lemma_deg_pos(s, u, e, k);
}

impl Solver {
    /// Counts the groups of points joined by cut edges, given the forest of
    /// `cut_forest`: those whose cut edges close into loops and those with
    /// loose ends; also, for each root, how many points of its group are
    /// loose ends.
    #[verifier::spinoff_prover]
    fn count_loops(&self, vp: &Vec<usize>, Ghost(vr): Ghost<Seq<usize>>, cd: &Vec<usize>, Ghost(rt): Ghost<Seq<int>>) -> (res: (Vec<usize>, usize, usize))
        requires
            self.wf(),
            forest_ok(vp@, vr, rt, self.grid.n_vertices(), self.grid.n_edges()),
            forall|x: int, y: int|
                0 <= x < self.grid.n_vertices() && 0 <= y < self.grid.n_vertices() ==> (#[trigger] rt[x] == #[trigger] rt[y]
                    <==> cut_conn(self, self.grid.n_edges(), x, y)),
            cd@.len() == self.grid.n_vertices(),
            forall|v: int| 0 <= v < self.grid.n_vertices() ==> #[trigger] cd@[v] == cut_deg(self, v, self.grid.n_edges()),
        ensures
            res.0@.len() == self.grid.n_vertices(),
            forall|v: int| 0 <= v < self.grid.n_vertices() ==> (res.0@[#[trigger] rt[v]] == 0 <==> closed_class(self, v)),
            res.1 == loops_below(self, self.grid.n_vertices()),
            res.2 == open_below(self, self.grid.n_vertices()),
            res.1 + res.2 <= self.grid.n_vertices(),
    {
        proof {
            self.grid.lemma_sizes();
        }
        let nv = vp.len();
        let mut root_odd: Vec<usize> = Vec::new();
        let mut i: usize = 0;
        while i < nv
            invariant
                i <= nv,
                root_odd@.len() == i,
                forall|x: int| 0 <= x < i ==> #[trigger] root_odd@[x] == 0,
            decreases nv - i,
        {
            root_odd.push(0);
            i = i + 1;
        }
        let mut v: usize = 0;
        while v < nv
            invariant
                self.wf(),
                nv == self.grid.n_vertices(),
                forest_ok(vp@, vr, rt, nv as int, self.grid.n_edges()),
                cd@.len() == nv,
                forall|x: int| 0 <= x < nv ==> #[trigger] cd@[x] == cut_deg(self, x, self.grid.n_edges()),
                v <= nv,
                root_odd@.len() == nv,
                forall|r: int| 0 <= r < nv ==> #[trigger] root_odd@[r] <= v,
                forall|r: int| 0 <= r < nv ==> (#[trigger] root_odd@[r] == 0 <==> forall|u: int|
                    0 <= u < v ==> !(odd_point(self, u) && #[trigger] rt[u] == r)),
            decreases nv - v,
        {
            if cd[v] != 0 && cd[v] % 2 != 0 {
                let r = find_root(vp, Ghost(vr), Ghost(rt), Ghost(self.grid.n_edges()), v);
                proof {
                    assert(vp@[v as int] < nv);
                }
                let k = root_odd[r];
                root_odd.set(r, k + 1);
                proof {
                    assert forall|r2: int| 0 <= r2 < nv implies (#[trigger] root_odd@[r2] == 0 <==> forall|u: int|
                        0 <= u < v + 1 ==> !(odd_point(self, u) && #[trigger] rt[u] == r2)) by {
                        assert(odd_point(self, v as int) && rt[v as int] == r);
                    }
                }
            } else {
                proof {
                    assert forall|r2: int| 0 <= r2 < nv implies (#[trigger] root_odd@[r2] == 0 <==> forall|u: int|
                        0 <= u < v + 1 ==> !(odd_point(self, u) && #[trigger] rt[u] == r2)) by {
                        assert(!odd_point(self, v as int));
                    }
                }
            }
            v = v + 1;
        }
        proof {
            assert forall|x: int| 0 <= x < nv implies (root_odd@[#[trigger] rt[x]] == 0 <==> closed_class(self, x)) by {
                assert(vp@[x] < nv);
                let r = rt[x];
                if root_odd@[r] == 0 {
                    assert forall|u: int| 0 <= u < nv && #[trigger] cut_conn(self, self.grid.n_edges(), x, u) implies !odd_point(self, u) by {
                        assert(rt[x] == rt[u]);
                    }
                } else {
                    let u = choose|u: int| 0 <= u < nv && odd_point(self, u) && #[trigger] rt[u] == r;
                    assert(rt[x] == rt[u]);
                    assert(cut_conn(self, self.grid.n_edges(), x, u));
                }
            }
        }
        let mut seen: Vec<bool> = Vec::new();
        let mut i: usize = 0;
        while i < nv
            invariant
                i <= nv,
                seen@.len() == i,
                forall|x: int| 0 <= x < i ==> !#[trigger] seen@[x],
            decreases nv - i,
        {
            seen.push(false);
            i = i + 1;
        }
        let mut loops: usize = 0;
        let mut open: usize = 0;
        let mut v: usize = 0;
        while v < nv
            invariant
                self.wf(),
                nv == self.grid.n_vertices(),
                forest_ok(vp@, vr, rt, nv as int, self.grid.n_edges()),
                forall|x: int, y: int|
                    0 <= x < nv && 0 <= y < nv ==> (#[trigger] rt[x] == #[trigger] rt[y] <==> cut_conn(self, self.grid.n_edges(), x, y)),
                cd@.len() == nv,
                forall|x: int| 0 <= x < nv ==> #[trigger] cd@[x] == cut_deg(self, x, self.grid.n_edges()),
                root_odd@.len() == nv,
                forall|x: int| 0 <= x < nv ==> (root_odd@[#[trigger] rt[x]] == 0 <==> closed_class(self, x)),
                v <= nv,
                seen@.len() == nv,
                forall|r: int| 0 <= r < nv ==> (#[trigger] seen@[r] <==> exists|u: int| 0 <= u < v && touched(self, u) && #[trigger] rt[u] == r),
                loops == loops_below(self, v as int),
                open == open_below(self, v as int),
                loops + open <= v,
            decreases nv - v,
        {
            if cd[v] != 0 {
                let r = find_root(vp, Ghost(vr), Ghost(rt), Ghost(self.grid.n_edges()), v);
                proof {
                    assert(vp@[v as int] < nv);
                    assert(touched(self, v as int));
                    assert(seen@[r as int] <==> !class_first(self, v as int)) by {
                        if seen@[r as int] {
                            let u = choose|u: int| 0 <= u < v && touched(self, u) && #[trigger] rt[u] == r;
                            assert(rt[u] == rt[v as int]);
                            assert(cut_conn(self, self.grid.n_edges(), u, v as int));
                        }
                        if !class_first(self, v as int) {
                            let u = choose|u: int| 0 <= u < v && #[trigger] cut_conn(self, self.grid.n_edges(), u, v as int);
                            lemma_conn_touched(self, u, v as int);
                            assert(rt[u] == rt[v as int]);
                        }
                    }
                }
                if !seen[r] {
                    seen.set(r, true);
                    if root_odd[r] == 0 {
                        loops = loops + 1;
                    } else {
                        open = open + 1;
                    }
                }
            }
            proof {
                assert forall|r2: int| 0 <= r2 < nv implies (#[trigger] seen@[r2] <==> exists|u: int|
                    0 <= u < v + 1 && touched(self, u) && #[trigger] rt[u] == r2) by {
                    if exists|u: int| 0 <= u < v + 1 && touched(self, u) && #[trigger] rt[u] == r2 {
                        let u = choose|u: int| 0 <= u < v + 1 && touched(self, u) && #[trigger] rt[u] == r2;
                        if u < v {
                            assert(exists|u2: int| 0 <= u2 < v && touched(self, u2) && #[trigger] rt[u2] == r2);
                        }
                    }
                }
            }
            v = v + 1;
        }
        (root_odd, loops, open)
    }
}

/// The edges that touch a point on the grid's border, in the order the
/// rule visits them: the vertical edges of the top row, of the bottom row,
/// then the horizontal edges of the left column and of the right column.
pub open spec fn border_edges(g: Grid) -> Seq<int> {
    let nc = if g.cols >= 1 { (g.cols - 1) as nat } else { 0nat };
    let nr = if g.rows >= 1 { (g.rows - 1) as nat } else { 0nat };
    Seq::new(nc, |t: int| g.v_edge_at(0, t)) + Seq::new(nc, |t: int| g.v_edge_at(g.rows - 1, t)) + Seq::new(
        nr,
        |t: int| g.h_edge_at(t, 0),
    ) + Seq::new(nr, |t: int| g.h_edge_at(t, g.cols - 1))
}

/// The decisions that make each of the edges `es` uncut, in order.
pub open spec fn uncut_ops(es: Seq<int>) -> Seq<(usize, EdgeState)> {
    Seq::new(es.len(), |i: int| (es[i] as usize, EdgeState::Uncut))
}

/// Edge `o`, if there is one, when it is undecided.
pub open spec fn unknown_opt(s: &Solver, o: Option<int>) -> Seq<int> {
    match o {
        Some(e) => if s.edges@[e] == EdgeState::Unknown {
            seq![e]
        } else {
            Seq::empty()
        },
        None => Seq::empty(),
    }
}

/// The undecided edges at point `v`: west, east, north, south.
pub open spec fn point_unknowns(s: &Solver, v: int) -> Seq<int> {
    let w = s.grid.cols + 1;
    let ve = s.grid.vertex_edges_spec(v / w, v % w);
    unknown_opt(s, ve.0) + unknown_opt(s, ve.1) + unknown_opt(s, ve.2) + unknown_opt(s, ve.3)
}

/// The undecided edges at the points of the first `k` vertex clues that ask
/// for two cut edges and have none yet.
pub open spec fn sat_edges(s: &Solver, k: int) -> Seq<int>
    decreases k,
{
    if k <= 0 {
        Seq::empty()
    } else {
        let cl = s.puzzle.vertex_clues@[k - 1];
        sat_edges(s, k - 1) + if cl.value == 2 && !touched(s, cl.vertex as int) {
            point_unknowns(s, cl.vertex as int)
        } else {
            Seq::empty()
        }
    }
}

/// Some vertex clue asking for two cut edges has a cut edge whose cut
/// edges do not close into loops.
pub open spec fn sat_conflict(s: &Solver) -> bool {
    exists|k: int|
        0 <= k < s.puzzle.vertex_clues@.len() && (#[trigger] s.puzzle.vertex_clues@[k]).value == 2 && touched(
            s,
            s.puzzle.vertex_clues@[k].vertex as int,
        ) && !closed_class(s, s.puzzle.vertex_clues@[k].vertex as int)
}

/// The puzzle is loopy and every vertex clue asks for two cut edges.
pub open spec fn all_degree2(s: &Solver) -> bool {
    &&& s.puzzle.rules.loopy
    &&& s.puzzle.vertex_clues@.len() > 0
    &&& forall|k: int| 0 <= k < s.puzzle.vertex_clues@.len() ==> (#[trigger] s.puzzle.vertex_clues@[k]).value == 2
}

/// Some edge is cut.
pub open spec fn any_cut(s: &Solver) -> bool {
    exists|e: int| 0 <= e < s.grid.n_edges() && #[trigger] is_cut(s, e)
}

/// What premature loop closure decides: `None` for a contradiction, else
/// the edges that become uncut. With `p >= 2` pieces known, the cut edges
/// may close at most `p - 1` loops. With two pieces on a loopy puzzle, no
/// edge at a border point may be cut (the single loop cannot end there), so
/// those edges become uncut. When every vertex clue asks for two cut edges
/// of a loopy puzzle, every group with loose ends will close at least one
/// more loop. With two pieces and a loop already closed, a point asking for
/// two cut edges must lie on that loop: if it has cut edges they must close
/// into loops, and if it has none, its edges become uncut.
pub open spec fn loop_closure_outcome(s: &Solver) -> Option<Seq<int>> {
    match s.rose_exact_piece_count {
        Some(p) => if p < 2 || !any_cut(s) {
            Some(Seq::empty())
        } else {
            let ml = p - 1;
            let nv = s.grid.n_vertices();
            let loops = loops_below(s, nv);
            let open = open_below(s, nv);
            let bd = border_edges(s.grid);
            let nvc = s.puzzle.vertex_clues@.len() as int;
            if loops > ml {
                None
            } else if ml == 1 && s.puzzle.rules.loopy && exists|i: int| 0 <= i < bd.len() && #[trigger] is_cut(s, bd[i]) {
                None
            } else if ml == 1 && s.puzzle.rules.loopy && exists|i: int|
                0 <= i < bd.len() && s.edges@[#[trigger] bd[i]] == EdgeState::Unknown {
                Some(bd)
            } else if all_degree2(s) && loops + (if open > 0 { 1int } else { 0int }) > ml {
                None
            } else if ml == 1 && loops >= 1 && nvc > 0 && sat_conflict(s) {
                None
            } else if ml == 1 && loops >= 1 && nvc > 0 && sat_edges(s, nvc).len() > 0 {
                Some(sat_edges(s, nvc))
            } else {
                Some(Seq::empty())
            }
        },
        None => Some(Seq::empty()),
    }
}

impl Solver {
    /// Makes each of the edges `es` uncut, in order; fails as soon as one
    /// is cut. Says whether some edge was undecided.
    #[verifier::spinoff_prover]
    fn uncut_list(&mut self, es: &Vec<usize>) -> (r: Result<bool, ()>)
        requires
            old(self).wf(),
            forall|i: int| 0 <= i < es@.len() ==> #[trigger] es@[i] < old(self).grid.n_edges(),
        ensures
            final(self).wf(),
            final(self).decided_from(old(self)),
            (exists|i: int| 0 <= i < es@.len() && old(self).edges@[#[trigger] es@[i] as int] == EdgeState::Cut) ==> r is Err,
            !(exists|i: int| 0 <= i < es@.len() && old(self).edges@[#[trigger] es@[i] as int] == EdgeState::Cut) ==> {
                &&& r == Ok::<bool, ()>(exists|i: int| 0 <= i < es@.len() && old(self).edges@[#[trigger] es@[i] as int] == EdgeState::Unknown)
                &&& (final(self).edges@, final(self).changed@) == crate::solver::edge_state::set_all(
                    old(self).edges@,
                    old(self).changed@,
                    uncut_ops(Seq::new(es@.len(), |i: int| es@[i] as int)),
                )
            },
    {
        let ghost base = *self;
        let ghost ies = Seq::new(es@.len(), |i: int| es@[i] as int);
        proof {
            lemma_decided_refl(&base);
            assert(uncut_ops(ies.take(0)) =~= Seq::<(usize, EdgeState)>::empty());
        }
        let mut progress = false;
        let mut i: usize = 0;
        while i < es.len()
            invariant
                base == *old(self),
                base.wf(),
                self.wf(),
                self.decided_from(&base),
                ies == Seq::new(es@.len(), |i: int| es@[i] as int),
                forall|j: int| 0 <= j < es@.len() ==> #[trigger] es@[j] < base.grid.n_edges(),
                self.grid == base.grid,
                i <= es@.len(),
                forall|j: int| 0 <= j < i ==> base.edges@[#[trigger] es@[j] as int] != EdgeState::Cut,
                progress <==> exists|j: int| 0 <= j < i && base.edges@[#[trigger] es@[j] as int] == EdgeState::Unknown,
                (self.edges@, self.changed@) == crate::solver::edge_state::set_all(base.edges@, base.changed@, uncut_ops(ies.take(i as int))),
            decreases es@.len() - i,
        {
            let e = es[i];
            let ghost ops = uncut_ops(ies.take(i as int));
            let ghost ops2 = uncut_ops(ies.take(i + 1));
            proof {
                assert(ops2.drop_last() =~= ops);
                assert(ops2.last() == (e, EdgeState::Uncut));
                assert(crate::solver::edge_state::ops_in_range(ops, base.edges@.len() as int));
                lemma_set_all_effects(base.edges@, base.changed@, ops);
                lemma_set_all(base.edges@, base.changed@, ops);
            }
            match self.edges[e] {
                EdgeState::Cut => {
                    proof {
                        assert(base.edges@[e as int] == EdgeState::Cut);
                        assert(base.edges@[es@[i as int] as int] == EdgeState::Cut);
                    }
                    return Err(());
                },
                EdgeState::Unknown => {
                    let ghost before = *self;
                    self.set_edge(e, EdgeState::Uncut);
                    proof {
                        lemma_decided_step(&base, &before, self, e, EdgeState::Uncut);
                        assert(base.edges@[e as int] == EdgeState::Unknown);
                    }
                    progress = true;
                },
                EdgeState::Uncut => {
                    proof {
                        if base.edges@[e as int] == EdgeState::Unknown {
                            let k = choose|k: int| 0 <= k < ops.len() && ops[k].0 == e as int && ops[k].1 == EdgeState::Uncut;
                            assert(ies.take(i as int)[k] == es@[k] as int);
                            assert(base.edges@[es@[k] as int] == EdgeState::Unknown);
                        }
                    }
                },
            }
            proof {
                assert(base.edges@[es@[i as int] as int] != EdgeState::Cut);
            }
            i = i + 1;
        }
        proof {
            assert(ies.take(es@.len() as int) =~= ies);
        }
        Ok(progress)
    }
}

/// The entries of `l` as integers.
pub open spec fn as_ints(l: Seq<usize>) -> Seq<int> {
    Seq::new(l.len(), |i: int| l[i] as int)
}

/// Decisions leave a state alone when each names an edge already decided.
proof fn lemma_set_all_noop(edges: Seq<EdgeState>, log: Seq<(usize, EdgeState)>, ops: Seq<(usize, EdgeState)>)
    requires
        forall|k: int| 0 <= k < ops.len() ==> edges[(#[trigger] ops[k]).0 as int] != EdgeState::Unknown,
    ensures
        crate::solver::edge_state::set_all(edges, log, ops) == (edges, log),
    decreases ops.len(),
{
    if ops.len() > 0 {
        let pre = ops.drop_last();
        assert forall|k: int| 0 <= k < pre.len() implies edges[(#[trigger] pre[k]).0 as int] != EdgeState::Unknown by {
            assert(pre[k] == ops[k]);
        }
        lemma_set_all_noop(edges, log, pre);
        assert(ops[ops.len() - 1] == ops.last());
    }
}

/// Deciding nothing from a state with the same edges and log as a base is
/// deciding from the base.
proof fn lemma_decided_through(a: &Solver, b: &Solver, c: &Solver)
    requires
        b.decided_from(a),
        b.edges@ == a.edges@,
        b.changed@ == a.changed@,
        c.decided_from(b),
    ensures
        c.decided_from(a),
{
    let ops = choose|ops: Seq<(usize, EdgeState)>|
        crate::solver::edge_state::ops_in_range(ops, b.edges@.len() as int) && (#[trigger] crate::solver::edge_state::set_all(
            b.edges@,
            b.changed@,
            ops,
        )) == (c.edges@, c.changed@);
    assert(crate::solver::edge_state::ops_in_range(ops, a.edges@.len() as int));
}

impl Solver {
    /// The edges at the grid's border points, as `border_edges` lists them.
    #[verifier::spinoff_prover]
    fn border_list(&self) -> (v: Vec<usize>)
        requires
            self.wf(),
            self.grid.rows >= 1,
            self.grid.cols >= 1,
        ensures
            as_ints(v@) == border_edges(self.grid),
            forall|i: int| 0 <= i < v@.len() ==> #[trigger] v@[i] < self.grid.n_edges(),
    {
        let ghost g = self.grid;
        let ghost bd = border_edges(g);
        let rows = self.grid.rows;
        let cols = self.grid.cols;
        let ghost nc = (cols - 1) as int;
        let ghost nr = (rows - 1) as int;
        let mut v: Vec<usize> = Vec::new();
        let mut j: usize = 1;
        while j < cols
            invariant
                self.wf(),
                g == self.grid,
                bd == border_edges(g),
                rows == g.rows,
                cols == g.cols,
                rows >= 1,
                nc == cols - 1,
                1 <= j <= cols,
                v@.len() == j - 1,
                forall|i: int| 0 <= i < v@.len() ==> #[trigger] v@[i] == bd[i] && v@[i] < g.n_edges(),
            decreases cols - j,
        {
            let e = self.grid.v_edge(0, j - 1);
            v.push(e);
            j = j + 1;
        }
        let mut j: usize = 1;
        while j < cols
            invariant
                self.wf(),
                g == self.grid,
                bd == border_edges(g),
                rows == g.rows,
                cols == g.cols,
                rows >= 1,
                nc == cols - 1,
                1 <= j <= cols,
                v@.len() == nc + j - 1,
                forall|i: int| 0 <= i < v@.len() ==> #[trigger] v@[i] == bd[i] && v@[i] < g.n_edges(),
            decreases cols - j,
        {
            let e = self.grid.v_edge(rows - 1, j - 1);
            v.push(e);
            j = j + 1;
        }
        let mut i: usize = 1;
        while i < rows
            invariant
                self.wf(),
                g == self.grid,
                bd == border_edges(g),
                rows == g.rows,
                cols == g.cols,
                cols >= 1,
                nc == cols - 1,
                nr == rows - 1,
                1 <= i <= rows,
                v@.len() == 2 * nc + i - 1,
                forall|k: int| 0 <= k < v@.len() ==> #[trigger] v@[k] == bd[k] && v@[k] < g.n_edges(),
            decreases rows - i,
        {
            let e = self.grid.h_edge(i - 1, 0);
            v.push(e);
            i = i + 1;
        }
        let mut i: usize = 1;
        while i < rows
            invariant
                self.wf(),
                g == self.grid,
                bd == border_edges(g),
                rows == g.rows,
                cols == g.cols,
                cols >= 1,
                nc == cols - 1,
                nr == rows - 1,
                1 <= i <= rows,
                v@.len() == 2 * nc + nr + i - 1,
                forall|k: int| 0 <= k < v@.len() ==> #[trigger] v@[k] == bd[k] && v@[k] < g.n_edges(),
            decreases rows - i,
        {
            let e = self.grid.h_edge(i - 1, cols - 1);
            v.push(e);
            i = i + 1;
        }
        proof {
            assert(as_ints(v@) =~= bd);
        }
        v
    }
}

impl Solver {
    /// Appends edge `o`, if there is one, when it is undecided.
    #[verifier::spinoff_prover]
    fn push_unknown(&self, list: &mut Vec<usize>, o: Option<usize>, Ghost(oi): Ghost<Option<int>>)
        requires
            self.wf(),
            o == crate::grid::opt_usize(oi),
            oi matches Some(e) ==> 0 <= e < self.grid.n_edges(),
            forall|i: int| 0 <= i < old(list)@.len() ==> #[trigger] old(list)@[i] < self.grid.n_edges(),
        ensures
            as_ints(final(list)@) == as_ints(old(list)@) + unknown_opt(self, oi),
            forall|i: int| 0 <= i < final(list)@.len() ==> #[trigger] final(list)@[i] < self.grid.n_edges(),
    {
        if let Some(e) = o {
            proof {
                self.grid.lemma_sizes();
                let ei = oi->0;
                assert(e as int == ei);
            }
            if self.edges[e] == EdgeState::Unknown {
                list.push(e);
                proof {
                    assert(as_ints(list@) =~= as_ints(old(list)@) + unknown_opt(self, oi));
                }
            } else {
                proof {
                    assert(as_ints(list@) =~= as_ints(old(list)@) + unknown_opt(self, oi));
                }
            }
        } else {
            proof {
                assert(as_ints(list@) =~= as_ints(old(list)@) + unknown_opt(self, oi));
            }
        }
    }

    /// The saturation rule at the vertex clues asking for two cut edges:
    /// fails when one has cut edges that do not close into loops; otherwise
    /// gives the undecided edges at those with no cut edge.
    #[verifier::spinoff_prover]
    fn saturation(
        &self,
        vp: &Vec<usize>,
        Ghost(vr): Ghost<Seq<usize>>,
        cd: &Vec<usize>,
        Ghost(rt): Ghost<Seq<int>>,
        root_odd: &Vec<usize>,
    ) -> (r: Result<Vec<usize>, ()>)
        requires
            self.wf(),
            forest_ok(vp@, vr, rt, self.grid.n_vertices(), self.grid.n_edges()),
            cd@.len() == self.grid.n_vertices(),
            forall|v: int| 0 <= v < self.grid.n_vertices() ==> #[trigger] cd@[v] == cut_deg(self, v, self.grid.n_edges()),
            root_odd@.len() == self.grid.n_vertices(),
            forall|v: int| 0 <= v < self.grid.n_vertices() ==> (root_odd@[#[trigger] rt[v]] == 0 <==> closed_class(self, v)),
        ensures
            r is Err <==> sat_conflict(self),
            r matches Ok(l) ==> as_ints(l@) == sat_edges(self, self.puzzle.vertex_clues@.len() as int) && forall|i: int|
                0 <= i < l@.len() ==> #[trigger] l@[i] < self.grid.n_edges(),
    {
        proof {
            self.grid.lemma_sizes();
        }
        let nv = vp.len();
        let mut loop_root: Vec<bool> = Vec::new();
        let mut i: usize = 0;
        while i < nv
            invariant
                i <= nv,
                loop_root@.len() == i,
                forall|x: int| 0 <= x < i ==> !#[trigger] loop_root@[x],
            decreases nv - i,
        {
            loop_root.push(false);
            i = i + 1;
        }
        let mut v: usize = 0;
        while v < nv
            invariant
                self.wf(),
                nv == self.grid.n_vertices(),
                forest_ok(vp@, vr, rt, nv as int, self.grid.n_edges()),
                cd@.len() == nv,
                forall|x: int| 0 <= x < nv ==> #[trigger] cd@[x] == cut_deg(self, x, self.grid.n_edges()),
                root_odd@.len() == nv,
                loop_root@.len() == nv,
                v <= nv,
                forall|r: int| 0 <= r < nv ==> (#[trigger] loop_root@[r] <==> root_odd@[r] == 0 && exists|u: int|
                    0 <= u < v && touched(self, u) && #[trigger] rt[u] == r),
            decreases nv - v,
        {
            if cd[v] != 0 {
                let r = find_root(vp, Ghost(vr), Ghost(rt), Ghost(self.grid.n_edges()), v);
                proof {
                    assert(vp@[v as int] < nv);
                    assert(touched(self, v as int));
                }
                if root_odd[r] == 0 {
                    loop_root.set(r, true);
                }
            }
            proof {
                assert forall|r2: int| 0 <= r2 < nv implies (#[trigger] loop_root@[r2] <==> root_odd@[r2] == 0 && exists|u: int|
                    0 <= u < v + 1 && touched(self, u) && #[trigger] rt[u] == r2) by {
                    if exists|u: int| 0 <= u < v + 1 && touched(self, u) && #[trigger] rt[u] == r2 {
                        let u = choose|u: int| 0 <= u < v + 1 && touched(self, u) && #[trigger] rt[u] == r2;
                        if u < v {
                            assert(exists|u2: int| 0 <= u2 < v && touched(self, u2) && #[trigger] rt[u2] == r2);
                        }
                    }
                }
            }
            v = v + 1;
        }
        let mut list: Vec<usize> = Vec::new();
        let nclues = self.puzzle.vertex_clues.len();
        let mut k: usize = 0;
        proof {
            assert(as_ints(list@) =~= sat_edges(self, 0));
        }
        while k < nclues
            invariant
                self.wf(),
                nv == self.grid.n_vertices(),
                nclues == self.puzzle.vertex_clues@.len(),
                forest_ok(vp@, vr, rt, nv as int, self.grid.n_edges()),
                cd@.len() == nv,
                forall|x: int| 0 <= x < nv ==> #[trigger] cd@[x] == cut_deg(self, x, self.grid.n_edges()),
                root_odd@.len() == nv,
                forall|x: int| 0 <= x < nv ==> (root_odd@[#[trigger] rt[x]] == 0 <==> closed_class(self, x)),
                loop_root@.len() == nv,
                forall|r: int| 0 <= r < nv ==> (#[trigger] loop_root@[r] <==> root_odd@[r] == 0 && exists|u: int|
                    0 <= u < nv && touched(self, u) && #[trigger] rt[u] == r),
                k <= nclues,
                forall|k2: int| 0 <= k2 < k ==> !((#[trigger] self.puzzle.vertex_clues@[k2]).value == 2 && touched(
                    self,
                    self.puzzle.vertex_clues@[k2].vertex as int,
                ) && !closed_class(self, self.puzzle.vertex_clues@[k2].vertex as int)),
                as_ints(list@) == sat_edges(self, k as int),
                forall|i: int| 0 <= i < list@.len() ==> #[trigger] list@[i] < self.grid.n_edges(),
            decreases nclues - k,
        {
            let value = self.puzzle.vertex_clues[k].value;
            let vx = self.puzzle.vertex_clues[k].vertex;
            proof {
                assert(vx < self.grid.n_vertices());
            }
            if value == 2 {
                if cd[vx] > 0 {
                    let r = find_root(vp, Ghost(vr), Ghost(rt), Ghost(self.grid.n_edges()), vx);
                    proof {
                        assert(vp@[vx as int] < nv);
                        assert(touched(self, vx as int));
                        if loop_root@[r as int] {
                            let u = choose|u: int| 0 <= u < nv && touched(self, u) && #[trigger] rt[u] == r;
                        }
                    }
                    if !loop_root[r] {
                        proof {
                            assert(!closed_class(self, vx as int));
                            assert(sat_conflict(self)) by {
                                assert(self.puzzle.vertex_clues@[k as int].value == 2);
                            }
                        }
                        return Err(());
                    }
                    proof {
                        assert(closed_class(self, vx as int));
                        assert(sat_edges(self, k + 1) =~= sat_edges(self, k as int));
                    }
                } else {
                    proof {
                        self.grid.lemma_sizes();
                    }
                    let w = self.grid.cols + 1;
                    let (vi, vj) = self.grid.vertex_pos(vx);
                    proof {
                        crate::grid::lemma_div_mod_in_box(vx as int, self.grid.rows + 1, w as int);
                    }
                    let hv = self.grid.vertex_edges(vi, vj);
                    let ghost ve = self.grid.vertex_edges_spec(vi as int, vj as int);
                    proof {
                        crate::solver::bricky_loopy::lemma_vertex_edges_range(self.grid, vi as int, vj as int);
                        assert(crate::solver::bricky_loopy::vedge(self.grid, vi as int, vj as int, 0) == ve.0);
                        assert(crate::solver::bricky_loopy::vedge(self.grid, vi as int, vj as int, 1) == ve.1);
                        assert(crate::solver::bricky_loopy::vedge(self.grid, vi as int, vj as int, 2) == ve.2);
                        assert(crate::solver::bricky_loopy::vedge(self.grid, vi as int, vj as int, 3) == ve.3);
                    }
                    let ghost before = as_ints(list@);
                    self.push_unknown(&mut list, hv.horiz.0, Ghost(ve.0));
                    self.push_unknown(&mut list, hv.horiz.1, Ghost(ve.1));
                    self.push_unknown(&mut list, hv.vert.0, Ghost(ve.2));
                    self.push_unknown(&mut list, hv.vert.1, Ghost(ve.3));
                    proof {
                        assert(!touched(self, vx as int));
                        assert(as_ints(list@) =~= before + point_unknowns(self, vx as int));
                        assert(sat_edges(self, k + 1) == sat_edges(self, k as int) + point_unknowns(self, vx as int));
                    }
                }
            } else {
                proof {
                    assert(sat_edges(self, k + 1) =~= sat_edges(self, k as int));
                }
            }
            k = k + 1;
        }
        proof {
            assert(!sat_conflict(self)) by {
                if sat_conflict(self) {
                    let k2 = choose|k2: int|
                        0 <= k2 < self.puzzle.vertex_clues@.len() && (#[trigger] self.puzzle.vertex_clues@[k2]).value == 2
                            && touched(self, self.puzzle.vertex_clues@[k2].vertex as int) && !closed_class(
                            self,
                            self.puzzle.vertex_clues@[k2].vertex as int,
                        );
                }
            }
        }
        Ok(list)
    }
}

/// A grid with an edge has at least one row and one column.
proof fn lemma_edges_need_cells(g: Grid)
    requires
        g.n_edges() > 0,
    ensures
        g.rows >= 1,
        g.cols >= 1,
{
    if g.rows == 0 {
        assert(g.n_h_edges() == 0);
        assert(g.n_v_edges() == 0) by {
            if g.cols > 1 {
                assert(g.rows * (g.cols - 1) == 0) by (nonlinear_arith)
                    requires
                        g.rows == 0,
                ;
            }
        }
    }
    if g.cols == 0 {
        assert(g.n_v_edges() == 0);
        assert(g.n_h_edges() == 0) by {
            if g.rows > 1 {
                assert((g.rows - 1) * g.cols == 0) by (nonlinear_arith)
                    requires
                        g.cols == 0,
                ;
            }
        }
    }
}

impl Solver {
    /// Premature loop closure: with the number of pieces `p >= 2` known
    /// from the rose clues, the cut edges, seen as a graph on the grid
    /// points, may close at most `p - 1` loops. `loop_closure_outcome` says
    /// exactly what is decided: a contradiction, or the edges that become
    /// uncut (the flag says whether there are any).
    #[verifier::spinoff_prover]
    pub fn propagate_loop_closure(&mut self) -> (r: Result<bool, ()>)
        requires
            old(self).wf(),
        ensures
            final(self).wf(),
            final(self).decided_from(old(self)),
            match loop_closure_outcome(old(self)) {
                None => r is Err,
                Some(es) => r == Ok::<bool, ()>(es.len() > 0) && (final(self).edges@, final(self).changed@)
                    == crate::solver::edge_state::set_all(old(self).edges@, old(self).changed@, uncut_ops(es)),
            },
    {
        let ghost base = *self;
        proof {
            lemma_decided_refl(&base);
            lemma_set_all_noop(base.edges@, base.changed@, uncut_ops(Seq::empty()));
        }
        let max_loops = match self.rose_exact_piece_count {
            Some(p) => {
                if p >= 2 {
                    p - 1
                } else {
                    return Ok(false);
                }
            },
            None => {
                return Ok(false);
            },
        };
        let (vp, vr, cd, any_cut, rt) = self.cut_forest();
        if !any_cut {
            return Ok(false);
        }
        let (root_odd, num_loops, num_open) = self.count_loops(&vp, Ghost(vr@), &cd, rt);
        if num_loops > max_loops {
            return Err(());
        }
        let has_vclues = self.puzzle.vertex_clues.len() > 0;
        let sat = if max_loops == 1 && num_loops >= 1 && has_vclues {
            Some(self.saturation(&vp, Ghost(vr@), &cd, rt, &root_odd))
        } else {
            None
        };
        let ghost mid = *self;
        if max_loops == 1 && self.puzzle.rules.loopy {
            proof {
                let e = choose|e: int| 0 <= e < self.grid.n_edges() && #[trigger] is_cut(self, e);
                lemma_edges_need_cells(self.grid);
            }
            let bd = self.border_list();
            let res = self.uncut_list(&bd);
            match res {
                Err(_) => {
                    proof {
                        let bdg = border_edges(base.grid);
                        assert(exists|i: int| 0 <= i < bd@.len() && base.edges@[#[trigger] bd@[i] as int] == EdgeState::Cut);
                        let i = choose|i: int| 0 <= i < bd@.len() && base.edges@[#[trigger] bd@[i] as int] == EdgeState::Cut;
                        assert(as_ints(bd@)[i] == bdg[i]);
                        assert(is_cut(&base, bdg[i]));
                        assert(loop_closure_outcome(&base) is None);
                    }
                    return Err(());
                },
                Ok(true) => {
                    proof {
                        let bdg = border_edges(base.grid);
                        assert(!(exists|i: int| 0 <= i < bdg.len() && #[trigger] is_cut(&base, bdg[i]))) by {
                            if exists|i: int| 0 <= i < bdg.len() && #[trigger] is_cut(&base, bdg[i]) {
                                let i = choose|i: int| 0 <= i < bdg.len() && #[trigger] is_cut(&base, bdg[i]);
                                assert(as_ints(bd@)[i] == bdg[i]);
                                assert(base.edges@[bd@[i] as int] == EdgeState::Cut);
                            }
                        }
                        let i = choose|i: int| 0 <= i < bd@.len() && base.edges@[#[trigger] bd@[i] as int] == EdgeState::Unknown;
                        assert(as_ints(bd@)[i] == bdg[i]);
                        assert(base.edges@[bdg[i]] == EdgeState::Unknown);
                        assert(loop_closure_outcome(&base) == Some(bdg));
                    }
                    return Ok(true);
                },
                Ok(false) => {
                    proof {
                        let ops = uncut_ops(as_ints(bd@));
                        assert forall|k: int| 0 <= k < ops.len() implies base.edges@[(#[trigger] ops[k]).0 as int]
                            != EdgeState::Unknown by {
                            assert(base.edges@[bd@[k] as int] != EdgeState::Cut);
                            assert(base.edges@[bd@[k] as int] != EdgeState::Unknown);
                        }
                        lemma_set_all_noop(base.edges@, base.changed@, ops);
                        assert(!(exists|i: int| 0 <= i < border_edges(base.grid).len() && #[trigger] is_cut(&base, border_edges(base.grid)[i]))) by {
                            if exists|i: int| 0 <= i < border_edges(base.grid).len() && #[trigger] is_cut(&base, border_edges(base.grid)[i]) {
                                let i = choose|i: int| 0 <= i < border_edges(base.grid).len() && #[trigger] is_cut(&base, border_edges(base.grid)[i]);
                                assert(base.edges@[bd@[i] as int] == EdgeState::Cut);
                            }
                        }
                        assert(!(exists|i: int| 0 <= i < border_edges(base.grid).len() && base.edges@[#[trigger] border_edges(base.grid)[i]] == EdgeState::Unknown)) by {
                            if exists|i: int| 0 <= i < border_edges(base.grid).len() && base.edges@[#[trigger] border_edges(base.grid)[i]] == EdgeState::Unknown {
                                let i = choose|i: int| 0 <= i < border_edges(base.grid).len() && base.edges@[#[trigger] border_edges(base.grid)[i]] == EdgeState::Unknown;
                                assert(base.edges@[bd@[i] as int] == EdgeState::Unknown);
                            }
                        }
                    }
                },
            }
        }
        proof {
            assert(self.edges@ == base.edges@ && self.changed@ == base.changed@);
        }
        let nvc = self.puzzle.vertex_clues.len();
        let mut all2 = self.puzzle.rules.loopy && has_vclues;
        let mut k: usize = 0;
        while k < nvc
            invariant
                nvc == self.puzzle.vertex_clues@.len(),
                k <= nvc,
                all2 <==> (self.puzzle.rules.loopy && nvc > 0 && forall|k2: int| 0 <= k2 < k ==> (#[trigger] self.puzzle.vertex_clues@[k2]).value == 2),
            decreases nvc - k,
        {
            if self.puzzle.vertex_clues[k].value != 2 {
                all2 = false;
            }
            k = k + 1;
        }
        if all2 {
            let extra: usize = if num_open > 0 {
                1
            } else {
                0
            };
            if num_loops + extra > max_loops {
                return Err(());
            }
        }
        match sat {
            Some(Err(_)) => {
                return Err(());
            },
            Some(Ok(list)) => {
                let ghost before = *self;
                let res = self.uncut_list(&list);
                proof {
                    lemma_decided_through(&base, &before, self);
                    assert forall|i: int| 0 <= i < list@.len() implies before.edges@[#[trigger] list@[i] as int] == EdgeState::Unknown by {
                        lemma_sat_unknown(&base, nvc as int, i);
                        assert(as_ints(list@)[i] == list@[i] as int);
                    }
                }
                match res {
                    Ok(true) => {
                        return Ok(true);
                    },
                    Ok(false) => {
                        proof {
                            assert(list@.len() == 0);
                            assert(uncut_ops(as_ints(list@)) =~= uncut_ops(Seq::empty()));
                        }
                    },
                    Err(_) => {
                        return Err(());
                    },
                }
            },
            None => {},
        }
        Ok(false)
    }
}

/// Every edge that the saturation rule lists is undecided.
proof fn lemma_sat_unknown(s: &Solver, k: int, i: int)
    requires
        0 <= i < sat_edges(s, k).len(),
    ensures
        s.edges@[sat_edges(s, k)[i]] == EdgeState::Unknown,
    decreases k,
{
    if k > 0 {
        let pre = sat_edges(s, k - 1);
        if i < pre.len() {
            lemma_sat_unknown(s, k - 1, i);
        } else {
            let cl = s.puzzle.vertex_clues@[k - 1];
            let v = cl.vertex as int;
            let w = s.grid.cols + 1;
            let ve = s.grid.vertex_edges_spec(v / w, v % w);
            let a = unknown_opt(s, ve.0);
            let b = unknown_opt(s, ve.1);
            let c = unknown_opt(s, ve.2);
            let d = unknown_opt(s, ve.3);
            let j = i - pre.len();
            assert(forall|t: int| 0 <= t < a.len() ==> s.edges@[#[trigger] a[t]] == EdgeState::Unknown);
            assert(forall|t: int| 0 <= t < b.len() ==> s.edges@[#[trigger] b[t]] == EdgeState::Unknown);
            assert(forall|t: int| 0 <= t < c.len() ==> s.edges@[#[trigger] c[t]] == EdgeState::Unknown);
            assert(forall|t: int| 0 <= t < d.len() ==> s.edges@[#[trigger] d[t]] == EdgeState::Unknown);
            let all = a + b + c + d;
            assert(forall|t: int| 0 <= t < all.len() ==> s.edges@[#[trigger] all[t]] == EdgeState::Unknown) by {
                assert forall|t: int| 0 <= t < all.len() implies s.edges@[#[trigger] all[t]] == EdgeState::Unknown by {
                    if t < a.len() {
                        assert(all[t] == a[t]);
                    } else if t < a.len() + b.len() {
                        assert(all[t] == b[t - a.len()]);
                    } else if t < a.len() + b.len() + c.len() {
                        assert(all[t] == c[t - a.len() - b.len()]);
                    } else {
                        assert(all[t] == d[t - a.len() - b.len() - c.len()]);
                    }
                }
            }
        }
    }
}

} // verus!
