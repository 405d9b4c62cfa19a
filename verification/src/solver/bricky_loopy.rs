//! The bricky rule (no four pieces meet at a point) and the loopy rule (no
//! three pieces meet at a point).
use vstd::prelude::*;
use super::Solver;
use super::edge_state::lemma_decided_refl;
use crate::grid::Grid;
use crate::types::{EdgeId, EdgeState, VertexClue};
use super::watchtower::vpos;

verus! {

/// The `k`-th edge at grid point (i, j): west, east, north, south.
pub open spec fn vedge(g: Grid, i: int, j: int, k: int) -> Option<int> {
    let t = g.vertex_edges_spec(i, j);
    if k == 0 {
        t.0
    } else if k == 1 {
        t.1
    } else if k == 2 {
        t.2
    } else {
        t.3
    }
}

/// Number of the first `n` edges at grid point (i, j) in state `s`.
pub open spec fn vcount(g: Grid, edges: Seq<EdgeState>, i: int, j: int, s: EdgeState, n: int) -> nat
    decreases n,
{
    if n <= 0 {
        0
    } else {
        vcount(g, edges, i, j, s, n - 1) + match vedge(g, i, j, n - 1) {
            Some(e) => if edges[e] == s {
                1nat
            } else {
                0nat
            },
            None => 0nat,
        }
    }
}

/// `b` is `a` with some undecided edges made uncut.
pub open spec fn uncut_only(a: Seq<EdgeState>, b: Seq<EdgeState>) -> bool {
    &&& a.len() == b.len()
    &&& forall|e: int| 0 <= e < a.len() ==> #[trigger] b[e] == a[e] || (a[e] == EdgeState::Unknown && b[e] == EdgeState::Uncut)
}

proof fn lemma_uncut_only_counts(g: Grid, a: Seq<EdgeState>, b: Seq<EdgeState>, i: int, j: int, n: int)
    requires
        uncut_only(a, b),
        forall|k: int| 0 <= k < 4 ==> (#[trigger] vedge(g, i, j, k) matches Some(e) ==> 0 <= e < a.len()),
        0 <= n <= 4,
    ensures
        vcount(g, b, i, j, EdgeState::Cut, n) == vcount(g, a, i, j, EdgeState::Cut, n),
        vcount(g, b, i, j, EdgeState::Unknown, n) <= vcount(g, a, i, j, EdgeState::Unknown, n),
    decreases n,
{
    if n > 0 {
        lemma_uncut_only_counts(g, a, b, i, j, n - 1);
        if let Some(e) = vedge(g, i, j, n - 1) {
            assert(b[e] == a[e] || (a[e] == EdgeState::Unknown && b[e] == EdgeState::Uncut));
        }
    }
}

pub proof fn lemma_vertex_edges_range(g: Grid, i: int, j: int)
    requires
        g.wf(),
        0 <= i <= g.rows,
        0 <= j <= g.cols,
    ensures
        forall|k: int| 0 <= k < 4 ==> (#[trigger] vedge(g, i, j, k) matches Some(e) ==> 0 <= e < g.n_edges()),
{
    g.lemma_sizes();
    assert forall|k: int| 0 <= k < 4 implies (#[trigger] vedge(g, i, j, k) matches Some(e) ==> 0 <= e < g.n_edges()) by {
        if k == 0 && i >= 1 && i < g.rows && j >= 1 {
            crate::grid::lemma_index_in_box(j - 1, i - 1, g.cols as int, g.rows - 1);
            assert((g.cols as int) * (g.rows - 1) == (g.rows - 1) * (g.cols as int)) by (nonlinear_arith);
        } else if k == 1 && i >= 1 && i < g.rows && j < g.cols {
            crate::grid::lemma_index_in_box(j, i - 1, g.cols as int, g.rows - 1);
            assert((g.cols as int) * (g.rows - 1) == (g.rows - 1) * (g.cols as int)) by (nonlinear_arith);
        } else if k == 2 && i >= 1 && j >= 1 && j < g.cols {
            crate::grid::lemma_index_in_box(i - 1, j - 1, g.rows as int, g.cols - 1);
        } else if k == 3 && i < g.rows && j >= 1 && j < g.cols {
            crate::grid::lemma_index_in_box(i, j - 1, g.rows as int, g.cols - 1);
        }
    }
}

/// The edges at a grid point are different edges.
proof fn lemma_vedges_distinct(g: Grid, i: int, j: int)
    requires
        g.wf(),
        0 <= i <= g.rows,
        0 <= j <= g.cols,
    ensures
        forall|k1: int, k2: int|
            0 <= k1 < 4 && 0 <= k2 < 4 && k1 != k2 && (#[trigger] vedge(g, i, j, k1)) is Some && (#[trigger] vedge(
                g,
                i,
                j,
                k2,
            )) is Some ==> vedge(g, i, j, k1)->0 != vedge(g, i, j, k2)->0,
{
    crate::grid::law_vertex_edges_sorted(g, i, j);
    g.lemma_sizes();
    let nh = g.n_h_edges();
    if i >= 1 && i < g.rows && j >= 1 {
        crate::grid::lemma_index_in_box(j - 1, i - 1, g.cols as int, g.rows - 1);
        assert((g.cols as int) * (g.rows - 1) == (g.rows - 1) * (g.cols as int)) by (nonlinear_arith);
        assert(vedge(g, i, j, 0)->0 < nh);
    }
    if i >= 1 && i < g.rows && j < g.cols {
        crate::grid::lemma_index_in_box(j, i - 1, g.cols as int, g.rows - 1);
        assert((g.cols as int) * (g.rows - 1) == (g.rows - 1) * (g.cols as int)) by (nonlinear_arith);
        assert(vedge(g, i, j, 1)->0 < nh);
    }
    if i >= 1 && j >= 1 && j < g.cols {
        assert((i - 1) * (g.cols - 1) >= 0) by (nonlinear_arith)
            requires
                i >= 1,
                g.cols >= 1,
        ;
        assert(vedge(g, i, j, 2)->0 >= nh);
    }
    if i < g.rows && j >= 1 && j < g.cols {
        assert(i * (g.cols - 1) >= 0) by (nonlinear_arith)
            requires
                i >= 0,
                g.cols >= 1,
        ;
        assert(vedge(g, i, j, 3)->0 >= nh);
    }
}

/// Making one undecided edge at a grid point uncut lowers the count of its
/// undecided edges by one and keeps the count of its cut edges.
proof fn lemma_uncut_one(g: Grid, a: Seq<EdgeState>, i: int, j: int, x: int, k0: int, n: int)
    requires
        g.wf(),
        0 <= i <= g.rows,
        0 <= j <= g.cols,
        0 <= x < a.len(),
        a.len() == g.n_edges(),
        a[x] == EdgeState::Unknown,
        0 <= k0 < 4,
        vedge(g, i, j, k0) == Some(x),
        0 <= n <= 4,
    ensures
        vcount(g, a.update(x, EdgeState::Uncut), i, j, EdgeState::Cut, n) == vcount(g, a, i, j, EdgeState::Cut, n),
        vcount(g, a.update(x, EdgeState::Uncut), i, j, EdgeState::Unknown, n) + (if k0 < n { 1nat } else { 0nat })
            == vcount(g, a, i, j, EdgeState::Unknown, n),
    decreases n,
{
    if n > 0 {
        lemma_uncut_one(g, a, i, j, x, k0, n - 1);
        lemma_vedges_distinct(g, i, j);
        lemma_vertex_edges_range(g, i, j);
        let b = a.update(x, EdgeState::Uncut);
        if let Some(e) = vedge(g, i, j, n - 1) {
            if e == x {
                assert(n - 1 == k0);
                assert(b[e] == EdgeState::Uncut);
            } else {
                assert(b[e] == a[e]);
                assert(n - 1 != k0);
            }
        } else {
            assert(n - 1 != k0);
        }
    }
}

/// Grid point (i, j) comes before (a, b) in row-major order.
pub open spec fn before_point(i: int, j: int, a: int, b: int) -> bool {
    i < a || (i == a && j < b)
}

/// Edge `e` is the one undecided edge at grid point (a, b), where three edges are cut.
pub open spec fn lone_at(g: Grid, edges: Seq<EdgeState>, a: int, b: int, e: int) -> bool {
    &&& vcount(g, edges, a, b, EdgeState::Cut, 4) == 3
    &&& vcount(g, edges, a, b, EdgeState::Unknown, 4) == 1
    &&& edges[e] == EdgeState::Unknown
    &&& exists|q: int| 0 <= q < 4 && vedge(g, a, b, q) == Some(e)
}

/// Edge `e` is an undecided edge at grid point (a, b).
pub open spec fn open_at(g: Grid, edges: Seq<EdgeState>, a: int, b: int, e: int) -> bool {
    &&& edges[e] == EdgeState::Unknown
    &&& exists|q: int| 0 <= q < 4 && vedge(g, a, b, q) == Some(e)
}

/// Under the loopy rule grid point (a, b) is stuck: three cut edges and no
/// undecided one, or one cut edge whose two undecided edges both lead to
/// points whose watchtower clue is already met.
pub open spec fn loopy_stuck(g: Grid, edges: Seq<EdgeState>, vc: Seq<VertexClue>, a: int, b: int) -> bool {
    ||| vcount(g, edges, a, b, EdgeState::Cut, 4) == 3 && vcount(g, edges, a, b, EdgeState::Unknown, 4) == 0
    ||| vcount(g, edges, a, b, EdgeState::Cut, 4) == 1 && vcount(g, edges, a, b, EdgeState::Unknown, 4) == 2
        && exists|e1: int, e2: int|
        e1 != e2 && #[trigger] open_at(g, edges, a, b, e1) && #[trigger] open_at(g, edges, a, b, e2)
            && saturated_end(g, edges, vc, e1) && saturated_end(g, edges, vc, e2)
}

/// Under the bricky rule a fourth cut edge at a point with three would make
/// a cross: edge `e` is the one undecided edge at such a point that comes
/// before (i, j) in row-major order.
pub open spec fn fourth_forced(g: Grid, edges: Seq<EdgeState>, e: int, i: int, j: int) -> bool {
    exists|a: int, b: int|
        0 <= a <= g.rows && 0 <= b <= g.cols && before_point(a, b, i, j) && #[trigger] lone_at(g, edges, a, b, e)
}

/// The bricky pass has handled the points before (i, j): only forced
/// fourth edges became uncut, no point so far has four cut edges, and
/// `progress` says whether some edge was forced.
pub open spec fn bricky_done(g: Grid, base: Seq<EdgeState>, cur: Seq<EdgeState>, i: int, j: int, progress: bool) -> bool {
    &&& uncut_only(base, cur)
    &&& forall|a: int, b: int|
        0 <= a <= g.rows && 0 <= b <= g.cols && before_point(a, b, i, j) ==> #[trigger] vcount(
            g,
            base,
            a,
            b,
            EdgeState::Cut,
            4,
        ) != 4
    &&& forall|e: int|
        0 <= e < base.len() ==> #[trigger] cur[e] == if fourth_forced(g, base, e, i, j) {
            EdgeState::Uncut
        } else {
            base[e]
        }
    &&& progress <==> exists|e: int| 0 <= e < base.len() && #[trigger] fourth_forced(g, base, e, i, j)
}

/// The cut and undecided edges among the first `n` at a point are at most `n`.
proof fn lemma_vcount_sum(g: Grid, edges: Seq<EdgeState>, i: int, j: int, n: int)
    requires
        0 <= n,
    ensures
        vcount(g, edges, i, j, EdgeState::Cut, n) + vcount(g, edges, i, j, EdgeState::Unknown, n) <= n,
    decreases n,
{
    if n > 0 {
        lemma_vcount_sum(g, edges, i, j, n - 1);
    }
}

/// An edge in state `s` among the first `n` at a point is counted.
proof fn lemma_vcount_pos(g: Grid, edges: Seq<EdgeState>, i: int, j: int, s: EdgeState, q: int, n: int)
    requires
        0 <= q < n,
        vedge(g, i, j, q) matches Some(e) && edges[e] == s,
    ensures
        vcount(g, edges, i, j, s, n) >= 1,
    decreases n,
{
    if q < n - 1 {
        lemma_vcount_pos(g, edges, i, j, s, q, n - 1);
    }
}

/// Two edges in state `s` at different places among the first `n` at a point count twice.
proof fn lemma_vcount_two(g: Grid, edges: Seq<EdgeState>, i: int, j: int, s: EdgeState, q1: int, q2: int, n: int)
    requires
        0 <= q1 < q2 < n,
        vedge(g, i, j, q1) matches Some(e) && edges[e] == s,
        vedge(g, i, j, q2) matches Some(e) && edges[e] == s,
    ensures
        vcount(g, edges, i, j, s, n) >= 2,
    decreases n,
{
    if q2 < n - 1 {
        lemma_vcount_two(g, edges, i, j, s, q1, q2, n - 1);
    } else {
        lemma_vcount_pos(g, edges, i, j, s, q1, n - 1);
    }
}

/// With one undecided edge at a point, any two undecided edges there are the same.
proof fn lemma_one_unknown(g: Grid, edges: Seq<EdgeState>, i: int, j: int, e1: int, e2: int)
    requires
        vcount(g, edges, i, j, EdgeState::Unknown, 4) == 1,
        exists|q: int| 0 <= q < 4 && vedge(g, i, j, q) == Some(e1),
        exists|q: int| 0 <= q < 4 && vedge(g, i, j, q) == Some(e2),
        edges[e1] == EdgeState::Unknown,
        edges[e2] == EdgeState::Unknown,
    ensures
        e1 == e2,
{
    let q1 = choose|q: int| 0 <= q < 4 && vedge(g, i, j, q) == Some(e1);
    let q2 = choose|q: int| 0 <= q < 4 && vedge(g, i, j, q) == Some(e2);
    if q1 < q2 {
        lemma_vcount_two(g, edges, i, j, EdgeState::Unknown, q1, q2, 4);
    } else if q2 < q1 {
        lemma_vcount_two(g, edges, i, j, EdgeState::Unknown, q2, q1, 4);
    }
}

/// Making undecided edges uncut keeps the cut count at a point and does not
/// raise its undecided count.
proof fn lemma_cut_same(g: Grid, base: Seq<EdgeState>, cur: Seq<EdgeState>, i: int, j: int)
    requires
        g.wf(),
        0 <= i <= g.rows,
        0 <= j <= g.cols,
        base.len() == g.n_edges(),
        uncut_only(base, cur),
    ensures
        vcount(g, cur, i, j, EdgeState::Cut, 4) == vcount(g, base, i, j, EdgeState::Cut, 4),
        vcount(g, cur, i, j, EdgeState::Unknown, 4) <= vcount(g, base, i, j, EdgeState::Unknown, 4),
{
    lemma_vertex_edges_range(g, i, j);
    lemma_uncut_only_counts(g, base, cur, i, j, 4);
}

/// A point that forces nothing now adds nothing to the forced edges.
proof fn lemma_bricky_point(
    g: Grid,
    base: Seq<EdgeState>,
    cur: Seq<EdgeState>,
    i: int,
    j: int,
    progress: bool,
    cut: int,
    unk: Seq<EdgeId>,
)
    requires
        g.wf(),
        0 <= i <= g.rows,
        0 <= j <= g.cols,
        base.len() == g.n_edges(),
        bricky_done(g, base, cur, i, j, progress),
        cut == vcount(g, cur, i, j, EdgeState::Cut, 4),
        cut <= 3,
        unk.len() == vcount(g, cur, i, j, EdgeState::Unknown, 4),
    ensures
        !(cut == 3 && unk.len() == 1) ==> bricky_done(g, base, cur, i, j + 1, progress),
        vcount(g, base, i, j, EdgeState::Cut, 4) == cut,
{
    lemma_cut_same(g, base, cur, i, j);
    lemma_vcount_sum(g, base, i, j, 4);
    if !(cut == 3 && unk.len() == 1) {
        assert forall|e: int| 0 <= e < base.len() implies #[trigger] fourth_forced(g, base, e, i, j + 1) == fourth_forced(
            g,
            base,
            e,
            i,
            j,
        ) by {
            if fourth_forced(g, base, e, i, j + 1) {
                let (a, b) = choose|a: int, b: int|
                    0 <= a <= g.rows && 0 <= b <= g.cols && before_point(a, b, i, j + 1) && #[trigger] lone_at(
                        g,
                        base,
                        a,
                        b,
                        e,
                    );
                if a == i && b == j {
                    let q = choose|q: int| 0 <= q < 4 && vedge(g, a, b, q) == Some(e);
                    if cur[e] == EdgeState::Unknown {
                        lemma_vcount_pos(g, cur, i, j, EdgeState::Unknown, q, 4);
                    }
                    assert(cur[e] != EdgeState::Unknown);
                } else {
                    assert(before_point(a, b, i, j));
                }
            }
            if fourth_forced(g, base, e, i, j) {
                let (a, b) = choose|a: int, b: int|
                    0 <= a <= g.rows && 0 <= b <= g.cols && before_point(a, b, i, j) && #[trigger] lone_at(
                        g,
                        base,
                        a,
                        b,
                        e,
                    );
                assert(before_point(a, b, i, j + 1));
            }
        }
        assert forall|a: int, b: int|
            0 <= a <= g.rows && 0 <= b <= g.cols && before_point(a, b, i, j + 1) implies #[trigger] vcount(
            g,
            base,
            a,
            b,
            EdgeState::Cut,
            4,
        ) != 4 by {
            if !(a == i && b == j) {
                assert(before_point(a, b, i, j));
            }
        }
        assert forall|e: int| 0 <= e < base.len() implies #[trigger] cur[e] == if fourth_forced(g, base, e, i, j + 1) {
            EdgeState::Uncut
        } else {
            base[e]
        } by {
            assert(fourth_forced(g, base, e, i, j + 1) == fourth_forced(g, base, e, i, j));
        }
        if progress {
            let e = choose|e: int| 0 <= e < base.len() && #[trigger] fourth_forced(g, base, e, i, j);
            assert(fourth_forced(g, base, e, i, j + 1) == fourth_forced(g, base, e, i, j));
        }
        if exists|e: int| 0 <= e < base.len() && #[trigger] fourth_forced(g, base, e, i, j + 1) {
            let e = choose|e: int| 0 <= e < base.len() && #[trigger] fourth_forced(g, base, e, i, j + 1);
            assert(fourth_forced(g, base, e, i, j + 1) == fourth_forced(g, base, e, i, j));
        }
    }
}

/// Making the one undecided edge uncut at a point with three cut edges.
proof fn lemma_bricky_set(g: Grid, base: Seq<EdgeState>, cur: Seq<EdgeState>, i: int, j: int, x: int, progress: bool)
    requires
        g.wf(),
        0 <= i <= g.rows,
        0 <= j <= g.cols,
        base.len() == g.n_edges(),
        bricky_done(g, base, cur, i, j, progress),
        vcount(g, cur, i, j, EdgeState::Cut, 4) == 3,
        vcount(g, cur, i, j, EdgeState::Unknown, 4) == 1,
        0 <= x < base.len(),
        cur[x] == EdgeState::Unknown,
        exists|q: int| 0 <= q < 4 && vedge(g, i, j, q) == Some(x),
    ensures
        bricky_done(g, base, cur.update(x, EdgeState::Uncut), i, j + 1, true),
{
    lemma_cut_same(g, base, cur, i, j);
    lemma_vcount_sum(g, base, i, j, 4);
    let new = cur.update(x, EdgeState::Uncut);
    assert(!fourth_forced(g, base, x, i, j));
    assert(base[x] == EdgeState::Unknown);
    assert(lone_at(g, base, i, j, x));
    assert(fourth_forced(g, base, x, i, j + 1)) by {
        assert(before_point(i, j, i, j + 1));
    }
    assert forall|e: int| 0 <= e < base.len() && e != x implies #[trigger] fourth_forced(g, base, e, i, j + 1)
        == fourth_forced(g, base, e, i, j) by {
        if fourth_forced(g, base, e, i, j + 1) {
            let (a, b) = choose|a: int, b: int|
                0 <= a <= g.rows && 0 <= b <= g.cols && before_point(a, b, i, j + 1) && #[trigger] lone_at(g, base, a, b, e);
            if a == i && b == j {
                lemma_one_unknown(g, base, i, j, x, e);
            } else {
                assert(before_point(a, b, i, j));
            }
        }
        if fourth_forced(g, base, e, i, j) {
            let (a, b) = choose|a: int, b: int|
                0 <= a <= g.rows && 0 <= b <= g.cols && before_point(a, b, i, j) && #[trigger] lone_at(g, base, a, b, e);
            assert(before_point(a, b, i, j + 1));
        }
    }
    assert(uncut_only(base, new)) by {
        assert forall|e: int| 0 <= e < base.len() implies #[trigger] new[e] == base[e] || (base[e] == EdgeState::Unknown
            && new[e] == EdgeState::Uncut) by {
            if e != x {
                assert(cur[e] == if fourth_forced(g, base, e, i, j) {
                    EdgeState::Uncut
                } else {
                    base[e]
                });
            }
        }
    }
    assert forall|a: int, b: int|
        0 <= a <= g.rows && 0 <= b <= g.cols && before_point(a, b, i, j + 1) implies #[trigger] vcount(
        g,
        base,
        a,
        b,
        EdgeState::Cut,
        4,
    ) != 4 by {
        if !(a == i && b == j) {
            assert(before_point(a, b, i, j));
        }
    }
    assert forall|e: int| 0 <= e < base.len() implies #[trigger] new[e] == if fourth_forced(g, base, e, i, j + 1) {
        EdgeState::Uncut
    } else {
        base[e]
    } by {
        if e != x {
            assert(cur[e] == if fourth_forced(g, base, e, i, j) {
                EdgeState::Uncut
            } else {
                base[e]
            });
        }
    }
}

/// The end of a row of points is the start of the next.
proof fn lemma_next_row(g: Grid, base: Seq<EdgeState>, cur: Seq<EdgeState>, i: int, progress: bool)
    requires
        bricky_done(g, base, cur, i, g.cols + 1, progress),
    ensures
        bricky_done(g, base, cur, i + 1, 0, progress),
{
    assert forall|e: int| 0 <= e < base.len() implies #[trigger] fourth_forced(g, base, e, i + 1, 0) == fourth_forced(
        g,
        base,
        e,
        i,
        g.cols + 1,
    ) by {
        if fourth_forced(g, base, e, i + 1, 0) {
            let (a, b) = choose|a: int, b: int|
                0 <= a <= g.rows && 0 <= b <= g.cols && before_point(a, b, i + 1, 0) && #[trigger] lone_at(g, base, a, b, e);
            assert(before_point(a, b, i, g.cols + 1));
        }
        if fourth_forced(g, base, e, i, g.cols + 1) {
            let (a, b) = choose|a: int, b: int|
                0 <= a <= g.rows && 0 <= b <= g.cols && before_point(a, b, i, g.cols + 1) && #[trigger] lone_at(
                    g,
                    base,
                    a,
                    b,
                    e,
                );
            assert(before_point(a, b, i + 1, 0));
        }
    }
    assert forall|a: int, b: int|
        0 <= a <= g.rows && 0 <= b <= g.cols && before_point(a, b, i + 1, 0) implies #[trigger] vcount(
        g,
        base,
        a,
        b,
        EdgeState::Cut,
        4,
    ) != 4 by {
        assert(before_point(a, b, i, g.cols + 1));
    }
    if progress {
        let e = choose|e: int| 0 <= e < base.len() && #[trigger] fourth_forced(g, base, e, i, g.cols + 1);
        assert(fourth_forced(g, base, e, i + 1, 0));
    }
    if exists|e: int| 0 <= e < base.len() && #[trigger] fourth_forced(g, base, e, i + 1, 0) {
        let e = choose|e: int| 0 <= e < base.len() && #[trigger] fourth_forced(g, base, e, i + 1, 0);
        assert(fourth_forced(g, base, e, i, g.cols + 1));
    }
}

/// `cur` only decides edges that are undecided in `base`.
pub open spec fn refines(base: Seq<EdgeState>, cur: Seq<EdgeState>) -> bool {
    &&& base.len() == cur.len()
    &&& forall|e: int| 0 <= e < base.len() && base[e] != EdgeState::Unknown ==> #[trigger] cur[e] == base[e]
}

/// Edge `e` is the one undecided edge at grid point (a, b), where two edges are cut.
pub open spec fn two_one(g: Grid, edges: Seq<EdgeState>, a: int, b: int, e: int) -> bool {
    &&& vcount(g, edges, a, b, EdgeState::Cut, 4) == 2
    &&& vcount(g, edges, a, b, EdgeState::Unknown, 4) == 1
    &&& edges[e] == EdgeState::Unknown
    &&& exists|q: int| 0 <= q < 4 && vedge(g, a, b, q) == Some(e)
}

/// The loopy pass has handled the points before (i, j): edges were only
/// decided, no point so far had three cut edges and none undecided, the
/// lone undecided edge of a point with three cut edges is cut, and that of a
/// point with two cut edges is uncut.
pub open spec fn loopy_done(g: Grid, base: Seq<EdgeState>, cur: Seq<EdgeState>, i: int, j: int) -> bool {
    &&& refines(base, cur)
    &&& forall|a: int, b: int|
        0 <= a <= g.rows && 0 <= b <= g.cols && before_point(a, b, i, j) && #[trigger] vcount(
            g,
            base,
            a,
            b,
            EdgeState::Cut,
            4,
        ) == 3 ==> vcount(g, base, a, b, EdgeState::Unknown, 4) != 0
    &&& forall|a: int, b: int, e: int|
        0 <= a <= g.rows && 0 <= b <= g.cols && before_point(a, b, i, j) && #[trigger] lone_at(g, base, a, b, e)
            ==> cur[e] == EdgeState::Cut
    &&& forall|a: int, b: int, e: int|
        0 <= a <= g.rows && 0 <= b <= g.cols && before_point(a, b, i, j) && #[trigger] two_one(g, base, a, b, e)
            ==> cur[e] == EdgeState::Uncut
}

/// The edges among the first `n` at a point that were undecided in `base`
/// and are in state `s` in `cur`.
pub open spec fn vchanged(g: Grid, base: Seq<EdgeState>, cur: Seq<EdgeState>, i: int, j: int, s: EdgeState, n: int) -> nat
    decreases n,
{
    if n <= 0 {
        0
    } else {
        vchanged(g, base, cur, i, j, s, n - 1) + match vedge(g, i, j, n - 1) {
            Some(e) => if base[e] == EdgeState::Unknown && cur[e] == s {
                1nat
            } else {
                0nat
            },
            None => 0nat,
        }
    }
}

/// Counting at a point after only deciding undecided edges.
proof fn lemma_refine_count(g: Grid, base: Seq<EdgeState>, cur: Seq<EdgeState>, i: int, j: int, n: int)
    requires
        refines(base, cur),
        forall|k: int| 0 <= k < 4 ==> (#[trigger] vedge(g, i, j, k) matches Some(e) ==> 0 <= e < base.len()),
        0 <= n <= 4,
    ensures
        vcount(g, cur, i, j, EdgeState::Cut, n) == vcount(g, base, i, j, EdgeState::Cut, n) + vchanged(
            g,
            base,
            cur,
            i,
            j,
            EdgeState::Cut,
            n,
        ),
        vcount(g, cur, i, j, EdgeState::Unknown, n) == vchanged(g, base, cur, i, j, EdgeState::Unknown, n),
        vchanged(g, base, cur, i, j, EdgeState::Cut, n) <= vcount(g, base, i, j, EdgeState::Unknown, n),
        vchanged(g, base, cur, i, j, EdgeState::Unknown, n) <= vcount(g, base, i, j, EdgeState::Unknown, n),
    decreases n,
{
    if n > 0 {
        lemma_refine_count(g, base, cur, i, j, n - 1);
        if let Some(e) = vedge(g, i, j, n - 1) {
            assert(0 <= e < base.len());
        }
    }
}

/// A counted change names an edge at the point that was undecided and is now in state `s`.
proof fn lemma_changed_witness(g: Grid, base: Seq<EdgeState>, cur: Seq<EdgeState>, i: int, j: int, s: EdgeState, n: int)
    requires
        vchanged(g, base, cur, i, j, s, n) >= 1,
        0 <= n,
    ensures
        exists|q: int|
            0 <= q < n && (#[trigger] vedge(g, i, j, q) matches Some(e) && base[e] == EdgeState::Unknown && cur[e] == s),
    decreases n,
{
    if vchanged(g, base, cur, i, j, s, n - 1) >= 1 {
        lemma_changed_witness(g, base, cur, i, j, s, n - 1);
        let q = choose|q: int|
            0 <= q < n - 1 && (#[trigger] vedge(g, i, j, q) matches Some(e) && base[e] == EdgeState::Unknown && cur[e]
                == s);
        assert(0 <= q < n);
    } else {
        assert(vedge(g, i, j, n - 1) matches Some(e) && base[e] == EdgeState::Unknown && cur[e] == s);
    }
}

/// With one edge `e` undecided in `base` at a point, a change to `s` there is a change of `e`.
proof fn lemma_one_changed(g: Grid, base: Seq<EdgeState>, cur: Seq<EdgeState>, i: int, j: int, e: int, s: EdgeState)
    requires
        refines(base, cur),
        forall|k: int| 0 <= k < 4 ==> (#[trigger] vedge(g, i, j, k) matches Some(x) ==> 0 <= x < base.len()),
        vcount(g, base, i, j, EdgeState::Unknown, 4) == 1,
        base[e] == EdgeState::Unknown,
        exists|q: int| 0 <= q < 4 && vedge(g, i, j, q) == Some(e),
    ensures
        vchanged(g, base, cur, i, j, s, 4) == if cur[e] == s {
            1nat
        } else {
            0nat
        },
{
    lemma_refine_count(g, base, cur, i, j, 4);
    let v = vchanged(g, base, cur, i, j, s, 4);
    if s == EdgeState::Cut || s == EdgeState::Unknown {
        assert(v <= 1);
    }
    let q0 = choose|q: int| 0 <= q < 4 && vedge(g, i, j, q) == Some(e);
    if cur[e] == s {
        lemma_changed_pos(g, base, cur, i, j, s, q0, 4);
    }
    if v >= 1 {
        lemma_changed_witness(g, base, cur, i, j, s, 4);
        let q = choose|q: int|
            0 <= q < 4 && (#[trigger] vedge(g, i, j, q) matches Some(x) && base[x] == EdgeState::Unknown && cur[x] == s);
        let x = vedge(g, i, j, q)->0;
        lemma_one_unknown(g, base, i, j, x, e);
    }
    lemma_changed_le(g, base, cur, i, j, s, 4);
}

/// A change at a counted place is counted.
proof fn lemma_changed_pos(g: Grid, base: Seq<EdgeState>, cur: Seq<EdgeState>, i: int, j: int, s: EdgeState, q: int, n: int)
    requires
        0 <= q < n,
        vedge(g, i, j, q) matches Some(e) && base[e] == EdgeState::Unknown && cur[e] == s,
    ensures
        vchanged(g, base, cur, i, j, s, n) >= 1,
    decreases n,
{
    if q < n - 1 {
        lemma_changed_pos(g, base, cur, i, j, s, q, n - 1);
    }
}

/// Changes are at most the undecided edges of `base`.
proof fn lemma_changed_le(g: Grid, base: Seq<EdgeState>, cur: Seq<EdgeState>, i: int, j: int, s: EdgeState, n: int)
    requires
        0 <= n,
    ensures
        vchanged(g, base, cur, i, j, s, n) <= vcount(g, base, i, j, EdgeState::Unknown, n),
    decreases n,
{
    if n > 0 {
        lemma_changed_le(g, base, cur, i, j, s, n - 1);
    }
}

/// One loopy point: what it decides keeps `loopy_done` one point further.
proof fn lemma_loopy_point(
    g: Grid,
    base: Seq<EdgeState>,
    cur: Seq<EdgeState>,
    new: Seq<EdgeState>,
    i: int,
    j: int,
    x: int,
    s: EdgeState,
    set: bool,
)
    requires
        g.wf(),
        0 <= i <= g.rows,
        0 <= j <= g.cols,
        base.len() == g.n_edges(),
        loopy_done(g, base, cur, i, j),
        !(vcount(g, cur, i, j, EdgeState::Cut, 4) == 3 && vcount(g, cur, i, j, EdgeState::Unknown, 4) == 0),
        set ==> {
            &&& 0 <= x < cur.len()
            &&& cur[x] == EdgeState::Unknown
            &&& exists|q: int| 0 <= q < 4 && vedge(g, i, j, q) == Some(x)
            &&& vcount(g, cur, i, j, EdgeState::Unknown, 4) == 1
            &&& (s == EdgeState::Cut && vcount(g, cur, i, j, EdgeState::Cut, 4) == 3 || s == EdgeState::Uncut && vcount(
                g,
                cur,
                i,
                j,
                EdgeState::Cut,
                4,
            ) == 2)
            &&& new == cur.update(x, s)
        },
        !set ==> {
            &&& new == cur
            &&& !(vcount(g, cur, i, j, EdgeState::Unknown, 4) == 1 && (vcount(g, cur, i, j, EdgeState::Cut, 4) == 3
                || vcount(g, cur, i, j, EdgeState::Cut, 4) == 2))
        },
    ensures
        loopy_done(g, base, new, i, j + 1),
{
    lemma_vertex_edges_range(g, i, j);
    lemma_refine_count(g, base, cur, i, j, 4);
    lemma_vcount_sum(g, base, i, j, 4);
    if set {
        assert(base[x] == EdgeState::Unknown);
    }
    assert(refines(base, new)) by {
        assert forall|e: int| 0 <= e < base.len() && base[e] != EdgeState::Unknown implies #[trigger] new[e] == base[e] by {
            assert(cur[e] == base[e]);
        }
    }
    // this point: no three cuts with none undecided
    if vcount(g, base, i, j, EdgeState::Cut, 4) == 3 && vcount(g, base, i, j, EdgeState::Unknown, 4) == 0 {
        lemma_changed_le(g, base, cur, i, j, EdgeState::Cut, 4);
        lemma_changed_le(g, base, cur, i, j, EdgeState::Unknown, 4);
        assert(false);
    }
    assert forall|a: int, b: int, e: int|
        0 <= a <= g.rows && 0 <= b <= g.cols && before_point(a, b, i, j + 1) && #[trigger] lone_at(g, base, a, b, e)
            implies new[e] == EdgeState::Cut by {
        lemma_vertex_edges_range(g, a, b);
        let qe = choose|q: int| 0 <= q < 4 && vedge(g, a, b, q) == Some(e);
        assert(0 <= e < base.len());
        if a == i && b == j {
            lemma_one_changed(g, base, cur, i, j, e, EdgeState::Cut);
            lemma_one_changed(g, base, cur, i, j, e, EdgeState::Unknown);
            if set {
                if cur[e] == EdgeState::Unknown {
                    lemma_one_unknown(g, cur, i, j, x, e);
                }
                assert(cur[e] == EdgeState::Unknown);
                assert(x == e);
            } else {
                assert(cur[e] != EdgeState::Unknown);
            }
        } else {
            assert(before_point(a, b, i, j));
            assert(cur[e] == EdgeState::Cut);
            if set {
                assert(x != e);
            }
        }
    }
    assert forall|a: int, b: int, e: int|
        0 <= a <= g.rows && 0 <= b <= g.cols && before_point(a, b, i, j + 1) && #[trigger] two_one(g, base, a, b, e)
            implies new[e] == EdgeState::Uncut by {
        lemma_vertex_edges_range(g, a, b);
        let qe = choose|q: int| 0 <= q < 4 && vedge(g, a, b, q) == Some(e);
        assert(0 <= e < base.len());
        if a == i && b == j {
            lemma_one_changed(g, base, cur, i, j, e, EdgeState::Cut);
            lemma_one_changed(g, base, cur, i, j, e, EdgeState::Unknown);
            if set {
                if cur[e] == EdgeState::Unknown {
                    lemma_one_unknown(g, cur, i, j, x, e);
                }
                assert(cur[e] == EdgeState::Unknown);
                assert(x == e);
            } else {
                assert(cur[e] != EdgeState::Unknown);
            }
        } else {
            assert(before_point(a, b, i, j));
            assert(cur[e] == EdgeState::Uncut);
            if set {
                assert(x != e);
            }
        }
    }
    assert forall|a: int, b: int|
        0 <= a <= g.rows && 0 <= b <= g.cols && before_point(a, b, i, j + 1) && #[trigger] vcount(
            g,
            base,
            a,
            b,
            EdgeState::Cut,
            4,
        ) == 3 implies vcount(g, base, a, b, EdgeState::Unknown, 4) != 0 by {
        if !(a == i && b == j) {
            assert(before_point(a, b, i, j));
        }
    }
}

/// The end of a row of points is the start of the next, for the loopy pass.
proof fn lemma_loopy_next_row(g: Grid, base: Seq<EdgeState>, cur: Seq<EdgeState>, i: int)
    requires
        loopy_done(g, base, cur, i, g.cols + 1),
    ensures
        loopy_done(g, base, cur, i + 1, 0),
{
    assert forall|a: int, b: int, e: int|
        0 <= a <= g.rows && 0 <= b <= g.cols && before_point(a, b, i + 1, 0) && #[trigger] lone_at(g, base, a, b, e)
            implies cur[e] == EdgeState::Cut by {
        assert(before_point(a, b, i, g.cols + 1));
    }
    assert forall|a: int, b: int, e: int|
        0 <= a <= g.rows && 0 <= b <= g.cols && before_point(a, b, i + 1, 0) && #[trigger] two_one(g, base, a, b, e)
            implies cur[e] == EdgeState::Uncut by {
        assert(before_point(a, b, i, g.cols + 1));
    }
    assert forall|a: int, b: int|
        0 <= a <= g.rows && 0 <= b <= g.cols && before_point(a, b, i + 1, 0) && #[trigger] vcount(
            g,
            base,
            a,
            b,
            EdgeState::Cut,
            4,
        ) == 3 implies vcount(g, base, a, b, EdgeState::Unknown, 4) != 0 by {
        assert(before_point(a, b, i, g.cols + 1));
    }
}

impl Solver {
    /// The edges at grid point (i, j) (west, east, north, south), and how many
    /// of them are cut and which are undecided.
    fn vertex_state(&self, i: usize, j: usize) -> (r: ([Option<EdgeId>; 4], usize, Vec<EdgeId>))
        requires
            self.wf(),
            i <= self.grid.rows,
            j <= self.grid.cols,
        ensures
            forall|k: int| 0 <= k < 4 ==> #[trigger] r.0@[k] == crate::grid::opt_usize(vedge(self.grid, i as int, j as int, k)),
            r.1 == vcount(self.grid, self.edges@, i as int, j as int, EdgeState::Cut, 4),
            r.2@.len() == vcount(self.grid, self.edges@, i as int, j as int, EdgeState::Unknown, 4),
            r.1 <= 4,
            r.2@.len() <= 4,
            forall|k: int| 0 <= k < r.2@.len() ==> #[trigger] r.2@[k] < self.grid.n_edges() && self.edges@[r.2@[k] as int]
                == EdgeState::Unknown,
            forall|k: int| 0 <= k < r.2@.len() ==> exists|q: int| 0 <= q < 4 && vedge(self.grid, i as int, j as int, q) == Some(#[trigger] r.2@[k] as int),
            forall|k: int, w: int| 0 <= k < w < r.2@.len() ==> #[trigger] r.2@[k] != #[trigger] r.2@[w],
    {
        let ve = self.grid.vertex_edges(i, j).into_array();
        proof {
            lemma_vertex_edges_range(self.grid, i as int, j as int);
            self.grid.lemma_sizes();
        }
        let mut cut: usize = 0;
        let mut unk: Vec<EdgeId> = Vec::new();
        let mut k: usize = 0;
        while k < 4
            invariant
                self.wf(),
                i <= self.grid.rows,
                j <= self.grid.cols,
                k <= 4,
                cut <= k,
                unk@.len() <= k,
                forall|q: int| 0 <= q < 4 ==> #[trigger] ve@[q] == crate::grid::opt_usize(vedge(self.grid, i as int, j as int, q)),
                forall|q: int| 0 <= q < 4 ==> (#[trigger] vedge(self.grid, i as int, j as int, q) matches Some(e) ==> 0 <= e < self.grid.n_edges()),
                cut == vcount(self.grid, self.edges@, i as int, j as int, EdgeState::Cut, k as int),
                unk@.len() == vcount(self.grid, self.edges@, i as int, j as int, EdgeState::Unknown, k as int),
                forall|q: int| 0 <= q < unk@.len() ==> #[trigger] unk@[q] < self.grid.n_edges() && self.edges@[unk@[q] as int]
                    == EdgeState::Unknown,
                forall|q: int| 0 <= q < unk@.len() ==> exists|p: int| 0 <= p < k && vedge(self.grid, i as int, j as int, p) == Some(#[trigger] unk@[q] as int),
                forall|q: int, w: int| 0 <= q < w < unk@.len() ==> #[trigger] unk@[q] != #[trigger] unk@[w],
            decreases 4 - k,
        {
            proof {
                self.grid.lemma_sizes();
                lemma_vedges_distinct(self.grid, i as int, j as int);
            }
            if let Some(e) = ve[k] {
                if self.edges[e] == EdgeState::Cut {
                    cut = cut + 1;
                } else if self.edges[e] == EdgeState::Unknown {
                    unk.push(e);
                }
            }
            k = k + 1;
        }
        (ve, cut, unk)
    }

    /// Bricky and loopy propagation at every grid point. Bricky (alone): four
    /// cut edges at a point are a contradiction, and the one undecided edge at
    /// a point with three cut edges becomes uncut (see `fourth_forced`);
    /// nothing else is decided. Loopy: never exactly three cut edges at a
    /// point; three cut edges and one undecided force it cut, two and one
    /// force it uncut, and a point with one cut edge whose two undecided edges
    /// both lead to points whose watchtower clue is already met is a dead end.
    pub fn propagate_bricky_loopy(&mut self) -> (r: Result<bool, ()>)
        requires
            old(self).wf(),
        ensures
            final(self).wf(),
            final(self).decided_from(old(self)),
            r == Ok::<bool, ()>(false) ==> final(self).edges == old(self).edges,
            !old(self).puzzle.rules.loopy && old(self).puzzle.rules.bricky ==> {
                let g = old(self).grid;
                &&& uncut_only(old(self).edges@, final(self).edges@)
                &&& (r is Err <==> exists|i: int, j: int|
                    0 <= i <= g.rows && 0 <= j <= g.cols && #[trigger] vcount(
                        g,
                        old(self).edges@,
                        i,
                        j,
                        EdgeState::Cut,
                        4,
                    ) == 4)
                &&& r is Ok ==> forall|e: int|
                    0 <= e < old(self).edges@.len() ==> #[trigger] final(self).edges@[e] == if fourth_forced(
                        g,
                        old(self).edges@,
                        e,
                        g.rows + 1,
                        0,
                    ) {
                        EdgeState::Uncut
                    } else {
                        old(self).edges@[e]
                    }
                &&& r matches Ok(p) ==> (p <==> exists|e: int|
                    0 <= e < old(self).edges@.len() && #[trigger] fourth_forced(g, old(self).edges@, e, g.rows + 1, 0))
            },
            !old(self).puzzle.rules.loopy && !old(self).puzzle.rules.bricky ==> r == Ok::<bool, ()>(false),
            old(self).puzzle.rules.loopy && r is Err ==> exists|a: int, b: int|
                0 <= a <= old(self).grid.rows && 0 <= b <= old(self).grid.cols && #[trigger] loopy_stuck(
                    old(self).grid,
                    final(self).edges@,
                    old(self).puzzle.vertex_clues@,
                    a,
                    b,
                ),
            old(self).puzzle.rules.loopy ==> {
                let g = old(self).grid;
                &&& (exists|a: int, b: int|
                    0 <= a <= g.rows && 0 <= b <= g.cols && #[trigger] vcount(g, old(self).edges@, a, b, EdgeState::Cut, 4)
                        == 3 && vcount(g, old(self).edges@, a, b, EdgeState::Unknown, 4) == 0) ==> r is Err
                &&& r is Ok ==> forall|a: int, b: int, e: int|
                    0 <= a <= g.rows && 0 <= b <= g.cols && #[trigger] lone_at(g, old(self).edges@, a, b, e)
                        ==> final(self).edges@[e] == EdgeState::Cut
                &&& r is Ok ==> forall|a: int, b: int, e: int|
                    0 <= a <= g.rows && 0 <= b <= g.cols && #[trigger] two_one(g, old(self).edges@, a, b, e)
                        ==> final(self).edges@[e] == EdgeState::Uncut
            },
    {
        let ghost base = *self;
        proof {
            lemma_decided_refl(&base);
        }
        let mut progress = false;
        let is_loopy = self.puzzle.rules.loopy;
        let is_bricky = self.puzzle.rules.bricky;
        let rows = self.grid.rows;
        let cols = self.grid.cols;
        let ghost g = self.grid;
        let ghost n = base.edges@.len();
        proof {
            self.grid.lemma_sizes();
            assert forall|e: int| 0 <= e < n implies !(#[trigger] fourth_forced(g, base.edges@, e, 0, 0)) by {
            }
            crate::solver::edge_state::lemma_decided_len(&base, &base);
        }
        let mut i: usize = 0;
        while i <= rows
            invariant
                self.wf(),
                self.decided_from(&base),
                base == *old(self),
                self.puzzle == base.puzzle,
                self.grid == base.grid,
                g == base.grid,
                n == base.edges@.len(),
                rows == self.grid.rows,
                cols == self.grid.cols,
                rows + 1 <= usize::MAX,
                cols + 1 <= usize::MAX,
                is_loopy == base.puzzle.rules.loopy,
                is_bricky == base.puzzle.rules.bricky,
                i <= rows + 1,
                !progress ==> self.edges == base.edges,
                !is_loopy && !is_bricky ==> !progress,
                !is_loopy && is_bricky ==> bricky_done(g, base.edges@, self.edges@, i as int, 0, progress),
                is_loopy ==> loopy_done(g, base.edges@, self.edges@, i as int, 0),
            decreases rows + 1 - i,
        {
            let mut j: usize = 0;
            while j <= cols
                invariant
                    self.wf(),
                    self.decided_from(&base),
                    base == *old(self),
                    self.puzzle == base.puzzle,
                    self.grid == base.grid,
                    g == base.grid,
                    n == base.edges@.len(),
                    rows == self.grid.rows,
                    cols == self.grid.cols,
                    rows + 1 <= usize::MAX,
                    cols + 1 <= usize::MAX,
                    is_loopy == base.puzzle.rules.loopy,
                    is_bricky == base.puzzle.rules.bricky,
                    i <= rows,
                    j <= cols + 1,
                    !progress ==> self.edges == base.edges,
                    !is_loopy && !is_bricky ==> !progress,
                    !is_loopy && is_bricky ==> bricky_done(g, base.edges@, self.edges@, i as int, j as int, progress),
                    is_loopy ==> loopy_done(g, base.edges@, self.edges@, i as int, j as int),
                decreases cols + 1 - j,
            {
                let ghost state0 = self.edges@;
                let (_ve, cut_count, unk) = self.vertex_state(i, j);
                proof {
                    lemma_vertex_edges_range(g, i as int, j as int);
                }
                if is_loopy {
                    if cut_count == 3 && unk.len() == 0 {
                        proof {
                            assert(loopy_stuck(g, self.edges@, base.puzzle.vertex_clues@, i as int, j as int));
                        }
                        return Err(());
                    }
                    if cut_count == 3 && unk.len() == 1 {
                        if !self.decide_edge(unk[0], EdgeState::Cut, Ghost(base)) {
                            return Err(());
                        }
                        progress = true;
                        proof {
                            crate::solver::edge_state::lemma_decided_len(&base, &*self);
                            lemma_loopy_point(
                                g,
                                base.edges@,
                                state0,
                                self.edges@,
                                i as int,
                                j as int,
                                unk@[0] as int,
                                EdgeState::Cut,
                                true,
                            );
                        }
                    }
                    if cut_count == 2 && unk.len() == 1 {
                        if !self.decide_edge(unk[0], EdgeState::Uncut, Ghost(base)) {
                            return Err(());
                        }
                        progress = true;
                        proof {
                            lemma_loopy_point(
                                g,
                                base.edges@,
                                state0,
                                self.edges@,
                                i as int,
                                j as int,
                                unk@[0] as int,
                                EdgeState::Uncut,
                                true,
                            );
                        }
                    }
                    proof {
                        if !(unk.len() == 1 && (cut_count == 3 || cut_count == 2)) {
                            lemma_loopy_point(g, base.edges@, state0, self.edges@, i as int, j as int, 0, EdgeState::Cut, false);
                        }
                    }
                    if cut_count == 1 && unk.len() == 2 {
                        let b0 = self.other_end_saturated(unk[0]);
                        let b1 = self.other_end_saturated(unk[1]);
                        if b0 && b1 {
                            proof {
                                let e1 = unk@[0] as int;
                                let e2 = unk@[1] as int;
                                assert(open_at(g, self.edges@, i as int, j as int, e1));
                                assert(open_at(g, self.edges@, i as int, j as int, e2));
                                assert(loopy_stuck(g, self.edges@, base.puzzle.vertex_clues@, i as int, j as int));
                            }
                            return Err(());
                        }
                    }
                } else if is_bricky {
                    if cut_count > 3 {
                        proof {
                            assert(bricky_done(g, base.edges@, state0, i as int, j as int, progress));
                            lemma_cut_same(g, base.edges@, state0, i as int, j as int);
                            assert(vcount(g, base.edges@, i as int, j as int, EdgeState::Cut, 4) == 4);
                        }
                        return Err(());
                    }
                    proof {
                        lemma_bricky_point(g, base.edges@, state0, i as int, j as int, progress, cut_count as int, unk@);
                    }
                    if cut_count == 3 && unk.len() == 1 {
                        let ghost old_progress = progress;
                        let x = unk[0];
                        if !self.decide_edge(x, EdgeState::Uncut, Ghost(base)) {
                            return Err(());
                        }
                        progress = true;
                        proof {
                            assert(self.edges@ == state0.update(x as int, EdgeState::Uncut));
                            lemma_bricky_set(g, base.edges@, state0, i as int, j as int, x as int, old_progress);
                        }
                    }
                }
                j = j + 1;
            }
            proof {
                if !is_loopy && is_bricky {
                    lemma_next_row(g, base.edges@, self.edges@, i as int, progress);
                }
                if is_loopy {
                    lemma_loopy_next_row(g, base.edges@, self.edges@, i as int);
                }
            }
            i = i + 1;
        }
        proof {
            if !is_loopy && is_bricky {
                assert forall|a: int, b: int|
                    0 <= a <= rows && 0 <= b <= cols implies #[trigger] vcount(g, base.edges@, a, b, EdgeState::Cut, 4)
                        != 4 by {
                    assert(before_point(a, b, rows + 1, 0));
                }
            }
            if is_loopy {
                assert forall|a: int, b: int, e: int|
                    0 <= a <= rows && 0 <= b <= cols && #[trigger] lone_at(g, base.edges@, a, b, e) implies self.edges@[e]
                        == EdgeState::Cut by {
                    assert(before_point(a, b, rows + 1, 0));
                }
                assert forall|a: int, b: int, e: int|
                    0 <= a <= rows && 0 <= b <= cols && #[trigger] two_one(g, base.edges@, a, b, e) implies self.edges@[e]
                        == EdgeState::Uncut by {
                    assert(before_point(a, b, rows + 1, 0));
                }
                assert forall|a: int, b: int|
                    0 <= a <= rows && 0 <= b <= cols && #[trigger] vcount(g, base.edges@, a, b, EdgeState::Cut, 4) == 3
                        implies vcount(g, base.edges@, a, b, EdgeState::Unknown, 4) != 0 by {
                    assert(before_point(a, b, rows + 1, 0));
                }
            }
        }
        Ok(progress)
    }
}

impl Solver {
    /// For an edge, takes its end point (r + 1, c) when horizontal and
    /// (r, c + 1) when vertical, and tells whether that point's watchtower
    /// clue (the first one given for it) is met or exceeded by its cut edges.
    fn other_end_saturated(&self, e: EdgeId) -> (r: bool)
        requires
            self.wf(),
            e < self.grid.n_edges(),
        ensures
            r == saturated_end(self.grid, self.edges@, self.puzzle.vertex_clues@, e as int),
    {
        let (is_h, r, c) = self.grid.decode_edge(e);
        let (ovi, ovj) = if is_h { (r + 1, c) } else { (r, c + 1) };
        let (_ve, other_cut, _unk) = self.vertex_state(ovi, ovj);
        let ghost cut_spec = vcount(self.grid, self.edges@, ovi as int, ovj as int, EdgeState::Cut, 4);
        proof {
            self.grid.lemma_sizes();
        }
        let ghost vc = self.puzzle.vertex_clues@;
        let mut t: usize = 0;
        while t < self.puzzle.vertex_clues.len()
            invariant
                self.wf(),
                vc == self.puzzle.vertex_clues@,
                t <= vc.len(),
                (ovi as int, ovj as int) == end_point(self.grid, e as int),
                other_cut == cut_spec,
                cut_spec == vcount(self.grid, self.edges@, ovi as int, ovj as int, EdgeState::Cut, 4),
                forall|u: int| 0 <= u < t ==> #[trigger] vpos(self.grid, vc[u].vertex as int) != (ovi as int, ovj as int),
            decreases vc.len() - t,
        {
            let cl = self.puzzle.vertex_clues[t];
            proof {
                self.grid.lemma_sizes();
            }
            let (vi, vj) = self.grid.vertex_pos(cl.vertex);
            if vi == ovi && vj == ovj {
                proof {
                    assert(first_tower(self.grid, vc, end_point(self.grid, e as int), t as int));
                    lemma_first_tower_unique(self.grid, vc, end_point(self.grid, e as int), t as int);
                    assert(other_cut == vcount(self.grid, self.edges@, ovi as int, ovj as int, EdgeState::Cut, 4));
                    assert(cl == vc[t as int]);
                }
                return other_cut >= cl.value;
            }
            t = t + 1;
        }
        proof {
            if exists|k: int| #[trigger] first_tower(self.grid, vc, end_point(self.grid, e as int), k) {
                let k = choose|k: int| #[trigger] first_tower(self.grid, vc, end_point(self.grid, e as int), k);
                assert(vpos(self.grid, vc[k].vertex as int) != (ovi as int, ovj as int));
            }
        }
        false
    }
}

/// The end point of edge `e` that lies after it: (r + 1, c) for a
/// horizontal edge, (r, c + 1) for a vertical one.
pub open spec fn end_point(g: Grid, e: int) -> (int, int) {
    let d = g.edge_decoded(e);
    if d.0 {
        (d.1 + 1, d.2)
    } else {
        (d.1, d.2 + 1)
    }
}

/// Clue `k` is the first watchtower clue at grid point `p`.
pub open spec fn first_tower(g: Grid, vc: Seq<VertexClue>, p: (int, int), k: int) -> bool {
    &&& 0 <= k < vc.len()
    &&& vpos(g, vc[k].vertex as int) == p
    &&& forall|u: int| 0 <= u < k ==> #[trigger] vpos(g, vc[u].vertex as int) != p
}

/// The end point after edge `e` has a watchtower clue, and its first one is
/// met or exceeded by the cut edges there.
pub open spec fn saturated_end(g: Grid, edges: Seq<EdgeState>, vc: Seq<VertexClue>, e: int) -> bool {
    let p = end_point(g, e);
    exists|k: int|
        #[trigger] first_tower(g, vc, p, k) && vcount(g, edges, p.0, p.1, EdgeState::Cut, 4) >= vc[k].value
}

/// Only one clue is the first at a point.
proof fn lemma_first_tower_unique(g: Grid, vc: Seq<VertexClue>, p: (int, int), k: int)
    requires
        first_tower(g, vc, p, k),
    ensures
        forall|j: int| #[trigger] first_tower(g, vc, p, j) ==> j == k,
{
    assert forall|j: int| #[trigger] first_tower(g, vc, p, j) implies j == k by {
        if j < k {
            assert(vpos(g, vc[j].vertex as int) != p);
        } else if j > k {
            assert(vpos(g, vc[k].vertex as int) != p);
        }
    }
}

} // verus!
