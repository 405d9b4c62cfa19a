//! Helpers of the coupled two-piece match search: the eight symmetries of
//! the square, and connectivity of a set of cells.
use vstd::prelude::*;
use super::Solver;
use super::shapes::{lemma_trues_bound, trues};

verus! {

/// Rotation `rot` (0, 90, 180 or 270 degrees clockwise) of (r, c), then the
/// mirror image across the vertical axis when `flip`.
pub open spec fn sigma(rot: int, flip: bool, r: int, c: int) -> (int, int) {
    let (nr, nc) = if rot == 0 {
        (r, c)
    } else if rot == 1 {
        (c, -r)
    } else if rot == 2 {
        (-r, -c)
    } else {
        (-c, r)
    };
    if flip {
        (nr, -nc)
    } else {
        (nr, nc)
    }
}

/// Four quarter turns bring every point back: the rotation by 90 degrees
/// has order four.
pub proof fn law_quarter_turn_order_four(r: int, c: int)
    ensures
        ({
            let p1 = sigma(1, false, r, c);
            let p2 = sigma(1, false, p1.0, p1.1);
            let p3 = sigma(1, false, p2.0, p2.1);
            sigma(1, false, p3.0, p3.1)
        }) == (r, c),
{
}

/// Two quarter turns make the half turn, and mirroring twice is the identity.
pub proof fn law_sigma_compose(r: int, c: int, rot: int)
    requires
        0 <= rot < 4,
    ensures
        ({
            let p1 = sigma(1, false, r, c);
            sigma(1, false, p1.0, p1.1)
        }) == sigma(2, false, r, c),
        ({
            let p = sigma(rot, true, r, c);
            sigma(0, true, p.0, p.1)
        }) == sigma(rot, false, r, c),
{
}

/// A path of cells of the set, each next to the one before.
pub open spec fn is_path(adj: Seq<Vec<usize>>, in_set: Seq<bool>, p: Seq<usize>) -> bool {
    &&& p.len() > 0
    &&& forall|k: int| 0 <= k < p.len() ==> (#[trigger] p[k]) < in_set.len() && in_set[p[k] as int]
    &&& forall|k: int| 0 <= k < p.len() - 1 ==> (#[trigger] adj[p[k] as int])@.contains(p[k + 1])
}

/// Cell `x` can be reached from cell `s` inside the set.
pub open spec fn reachable(adj: Seq<Vec<usize>>, in_set: Seq<bool>, s: int, x: int) -> bool {
    exists|p: Seq<usize>| #[trigger] is_path(adj, in_set, p) && p[0] == s && p.last() == x
}

/// Number of the first `k` entries of `cells` that lie in the set.
pub open spec fn count_in(in_set: Seq<bool>, cells: Seq<usize>, k: int) -> nat
    decreases k,
{
    if k <= 0 {
        0
    } else {
        count_in(in_set, cells, k - 1) + if in_set[cells[k - 1] as int] {
            1nat
        } else {
            0nat
        }
    }
}

/// The first entry of `cells` that lies in the set, from entry `i` on.
pub open spec fn first_in(in_set: Seq<bool>, cells: Seq<usize>, i: int) -> Option<usize>
    decreases cells.len() - i,
{
    if i < 0 || i >= cells.len() {
        None
    } else if in_set[cells[i] as int] {
        Some(cells[i])
    } else {
        first_in(in_set, cells, i + 1)
    }
}

/// The cells that can be reached from `s`, as flags.
pub open spec fn reach_flags(adj: Seq<Vec<usize>>, in_set: Seq<bool>, s: int) -> Seq<bool> {
    Seq::new(in_set.len(), |x: int| reachable(adj, in_set, s, x))
}

/// A set of flags that holds `s` and is closed under steps inside the set
/// holds every cell reachable from `s`.
proof fn lemma_closed_holds_reachable(adj: Seq<Vec<usize>>, in_set: Seq<bool>, vis: Seq<bool>, p: Seq<usize>, k: int)
    requires
        is_path(adj, in_set, p),
        vis.len() == in_set.len(),
        vis[p[0] as int],
        forall|c: int, j: int|
            0 <= c < vis.len() && vis[c] && 0 <= j < adj[c]@.len() && adj[c]@[j] < in_set.len() && in_set[adj[c]@[j] as int]
                ==> #[trigger] vis[adj[c]@[j] as int],
        0 <= k < p.len(),
    ensures
        vis[p[k] as int],
    decreases k,
{
    if k > 0 {
        lemma_closed_holds_reachable(adj, in_set, vis, p, k - 1);
        assert(adj[p[k - 1] as int]@.contains(p[k]));
        let j = choose|j: int| 0 <= j < adj[p[k - 1] as int]@.len() && #[trigger] adj[p[k - 1] as int]@[j] == p[k];
        assert(vis[adj[p[k - 1] as int]@[j] as int]);
    }
}

proof fn lemma_trues_eq(a: Seq<bool>, b: Seq<bool>, k: int)
    requires
        0 <= k <= a.len(),
        a.len() == b.len(),
        forall|x: int| 0 <= x < a.len() ==> a[x] == b[x],
    ensures
        trues(a, k) == trues(b, k),
    decreases k,
{
    if k > 0 {
        lemma_trues_eq(a, b, k - 1);
    }
}

impl Solver {
    /// The symmetry `sigma` applied to a cell offset.
    pub fn apply_sigma(rot: usize, flip: bool, r: i32, c: i32) -> (p: (i32, i32))
        requires
            rot < 4,
            r > i32::MIN,
            c > i32::MIN,
        ensures
            p.0 == sigma(rot as int, flip, r as int, c as int).0,
            p.1 == sigma(rot as int, flip, r as int, c as int).1,
    {
        let (nr, nc) = if rot == 0 {
            (r, c)
        } else if rot == 1 {
            (c, -r)
        } else if rot == 2 {
            (-r, -c)
        } else {
            (-c, r)
        };
        if flip {
            (nr, -nc)
        } else {
            (nr, nc)
        }
    }

    /// Whether the cells of the set among `existing_cells` form one connected
    /// group: the cells reachable inside the set from the first of them are
    /// as many as the entries of `existing_cells` in the set. True when none
    /// of them is in the set.
    pub fn is_connected_set(adj: &[Vec<usize>], in_set: &[bool], existing_cells: &[usize]) -> (r: bool)
        requires
            adj@.len() == in_set@.len(),
            forall|c: int, j: int| 0 <= c < adj@.len() && 0 <= j < adj@[c]@.len() ==> #[trigger] adj@[c]@[j] < in_set@.len(),
            forall|k: int| 0 <= k < existing_cells@.len() ==> #[trigger] existing_cells@[k] < in_set@.len(),
        ensures
            r == match first_in(in_set@, existing_cells@, 0) {
                None => true,
                Some(s) => trues(reach_flags(adj@, in_set@, s as int), in_set@.len() as int) == count_in(
                    in_set@,
                    existing_cells@,
                    existing_cells@.len() as int,
                ),
            },
    {
        let n = in_set.len();
        let mut si: usize = 0;
        while si < existing_cells.len() && !in_set[existing_cells[si]]
            invariant
                si <= existing_cells@.len(),
                forall|k: int| 0 <= k < existing_cells@.len() ==> #[trigger] existing_cells@[k] < in_set@.len(),
                first_in(in_set@, existing_cells@, 0) == first_in(in_set@, existing_cells@, si as int),
            decreases existing_cells@.len() - si,
        {
            si = si + 1;
        }
        if si == existing_cells.len() {
            return true;
        }
        let start = existing_cells[si];
        let ghost a = adj@;
        let ghost ins = in_set@;
        let mut vis: Vec<bool> = vec![false; n];
        let mut queue: Vec<usize> = Vec::new();
        let mut head: usize = 0;
        proof {
            lemma_trues_zero_all(vis@, n as int);
            lemma_trues_set_one(vis@, start as int, n as int);
            let p = seq![start];
            assert(is_path(a, ins, p));
        }
        let ghost v0 = vis@;
        vis.set(start, true);
        queue.push(start);
        proof {
            assert(first_in(in_set@, existing_cells@, 0) == Some(start));
            assert forall|x: int| 0 <= x < n && vis@[x] implies exists|k: int| 0 <= k < queue@.len() && #[trigger] queue@[k] == x by {
                if x != start {
                    assert(vis@[x] == v0[x]);
                }
                assert(queue@[0] == start);
            }
        }
        let mut cnt: usize = 0;
        while head < queue.len()
            invariant
                n == ins.len(),
                a == adj@,
                ins == in_set@,
                a.len() == n,
                forall|c: int, j: int| 0 <= c < a.len() && 0 <= j < a[c]@.len() ==> #[trigger] a[c]@[j] < n,
                start < n,
                ins[start as int],
                vis@.len() == n,
                vis@[start as int],
                head <= queue@.len(),
                cnt == head,
                queue@.len() == trues(vis@, n as int),
                forall|k: int| 0 <= k < queue@.len() ==> #[trigger] queue@[k] < n && vis@[queue@[k] as int],
                forall|x: int| 0 <= x < n && vis@[x] ==> exists|k: int| 0 <= k < queue@.len() && #[trigger] queue@[k] == x,
                forall|x: int| 0 <= x < n && #[trigger] vis@[x] ==> ins[x] && reachable(a, ins, start as int, x),
                forall|k: int, j: int|
                    0 <= k < head && 0 <= j < a[queue@[k] as int]@.len() && ins[a[queue@[k] as int]@[j] as int] ==> vis@[#[trigger] a[queue@[k] as int]@[j] as int],
            decreases n - head,
        {
            proof {
                lemma_trues_bound(vis@, n as int);
            }
            let c = queue[head];
            head = head + 1;
            cnt = cnt + 1;
            let mut j: usize = 0;
            while j < adj[c].len()
                invariant
                    n == ins.len(),
                    a == adj@,
                    ins == in_set@,
                    a.len() == n,
                    forall|c2: int, j2: int| 0 <= c2 < a.len() && 0 <= j2 < a[c2]@.len() ==> #[trigger] a[c2]@[j2] < n,
                    start < n,
                    ins[start as int],
                    c < n,
                    vis@[c as int],
                    vis@.len() == n,
                    vis@[start as int],
                    head <= queue@.len(),
                    queue@[head - 1] == c,
                    head >= 1,
                    cnt == head,
                    queue@.len() == trues(vis@, n as int),
                    j <= a[c as int]@.len(),
                    forall|k: int| 0 <= k < queue@.len() ==> #[trigger] queue@[k] < n && vis@[queue@[k] as int],
                    forall|x: int| 0 <= x < n && vis@[x] ==> exists|k: int| 0 <= k < queue@.len() && #[trigger] queue@[k] == x,
                    forall|x: int| 0 <= x < n && #[trigger] vis@[x] ==> ins[x] && reachable(a, ins, start as int, x),
                    forall|k: int, j2: int|
                        0 <= k < head - 1 && 0 <= j2 < a[queue@[k] as int]@.len() && ins[a[queue@[k] as int]@[j2] as int] ==> vis@[#[trigger] a[queue@[k] as int]@[j2] as int],
                    forall|j2: int| 0 <= j2 < j && ins[a[c as int]@[j2] as int] ==> vis@[#[trigger] a[c as int]@[j2] as int],
                decreases a[c as int]@.len() - j,
            {
                let nb = adj[c][j];
                if !vis[nb] && in_set[nb] {
                    proof {
                        lemma_trues_set_one(vis@, nb as int, n as int);
                        let pc = choose|p: Seq<usize>| #[trigger] is_path(a, ins, p) && p[0] == start && p.last() == c;
                        let p2 = pc.push(nb);
                        assert(a[pc.last() as int]@.contains(nb)) by {
                            assert(a[c as int]@[j as int] == nb);
                        }
                        assert forall|k: int| 0 <= k < p2.len() - 1 implies (#[trigger] a[p2[k] as int])@.contains(p2[k + 1]) by {
                            if k < pc.len() - 1 {
                                assert(p2[k] == pc[k] && p2[k + 1] == pc[k + 1]);
                            }
                        }
                        assert(is_path(a, ins, p2));
                    }
                    let ghost vq = queue@;
                    let ghost vv = vis@;
                    vis.set(nb, true);
                    queue.push(nb);
                    proof {
                        assert forall|x: int| 0 <= x < n && vis@[x] implies exists|k: int| 0 <= k < queue@.len() && #[trigger] queue@[k] == x by {
                            if x == nb {
                                assert(queue@[queue@.len() - 1] == nb);
                            } else {
                                assert(vv[x]);
                                let k = choose|k: int| 0 <= k < vq.len() && #[trigger] vq[k] == x;
                                assert(queue@[k] == x);
                            }
                        }
                    }
                }
                j = j + 1;
            }
        }
        let total = Self::count_in_set(in_set, existing_cells);
        proof {
            let rf = reach_flags(a, ins, start as int);
            assert forall|x: int| 0 <= x < n implies vis@[x] == rf[x] by {
                if rf[x] {
                    let p = choose|p: Seq<usize>| #[trigger] is_path(a, ins, p) && p[0] == start && p.last() == x;
                    assert forall|c2: int, j2: int|
                        0 <= c2 < vis@.len() && vis@[c2] && 0 <= j2 < a[c2]@.len() && a[c2]@[j2] < ins.len() && ins[a[c2]@[j2] as int]
                            implies #[trigger] vis@[a[c2]@[j2] as int] by {
                        let k = choose|k: int| 0 <= k < queue@.len() && #[trigger] queue@[k] == c2;
                        assert(vis@[a[queue@[k] as int]@[j2] as int]);
                    }
                    lemma_closed_holds_reachable(a, ins, vis@, p, p.len() - 1);
                }
            }
            lemma_trues_eq(vis@, rf, n as int);
        }
        cnt == total
    }

    fn count_in_set(in_set: &[bool], cells: &[usize]) -> (t: usize)
        requires
            forall|k: int| 0 <= k < cells@.len() ==> #[trigger] cells@[k] < in_set@.len(),
        ensures
            t == count_in(in_set@, cells@, cells@.len() as int),
    {
        let mut t: usize = 0;
        let mut k: usize = 0;
        while k < cells.len()
            invariant
                k <= cells@.len(),
                t <= k,
                forall|q: int| 0 <= q < cells@.len() ==> #[trigger] cells@[q] < in_set@.len(),
                t == count_in(in_set@, cells@, k as int),
            decreases cells@.len() - k,
        {
            if in_set[cells[k]] {
                t = t + 1;
            }
            k = k + 1;
        }
        t
    }
}

proof fn lemma_trues_zero_all(s: Seq<bool>, k: int)
    requires
        0 <= k <= s.len(),
        forall|i: int| 0 <= i < s.len() ==> !s[i],
    ensures
        trues(s, k) == 0,
    decreases k,
{
    if k > 0 {
        lemma_trues_zero_all(s, k - 1);
    }
}

proof fn lemma_trues_set_one(s: Seq<bool>, x: int, k: int)
    requires
        0 <= x < s.len(),
        !s[x],
        0 <= k <= s.len(),
    ensures
        trues(s.update(x, true), k) == trues(s, k) + if x < k {
            1nat
        } else {
            0nat
        },
    decreases k,
{
    if k > 0 {
        lemma_trues_set_one(s, x, k - 1);
    }
}

} // verus!
