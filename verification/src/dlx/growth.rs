//! Proofs about building the structure: appending a row's nodes to their
//! columns keeps every column linked.
use vstd::prelude::*;
use vstd::set_lib::{lemma_int_range, lemma_len_subset, set_int_range};
use crate::dlx::model::{
    DlxView, hdr, total, is_data, headers_ok, linked, list_ok, lists_with_row, dlx_wf, all_columns, lens_ok, rows_ok,
    row_ok, same_row, header_list_ok, live_ok, row_live,
};

verus! {

/// A sequence of distinct integers in `0..n` has at most `n` entries.
#[verifier::spinoff_prover]
pub proof fn lemma_len_bound(l: Seq<int>, n: int)
    requires
        0 <= n,
        l.no_duplicates(),
        forall|i: int| 0 <= i < l.len() ==> 0 <= #[trigger] l[i] < n,
    ensures
        l.len() <= n,
{
    l.unique_seq_to_set();
    lemma_int_range(0, n);
    assert forall|x: int| #[trigger] l.to_set().contains(x) implies set_int_range(0, n).contains(x) by {
        let i = choose|i: int| 0 <= i < l.len() && l[i] == x;
    }
    lemma_len_subset(l.to_set(), set_int_range(0, n));
}

/// Appending node `x`, the new last node, to the bottom of column `h`
/// keeps every column linked, with `x` at the end of `h`'s list.
#[verifier::spinoff_prover]
pub proof fn lemma_push_step(s: DlxView, lists: Seq<Seq<int>>, h: int, x: int, s2: DlxView)
    requires
        headers_ok(s),
        linked(s, lists),
        1 <= h < hdr(s),
        x == total(s),
        hdr(s) <= x < usize::MAX,
        s.col.len() == x,
        s.up.len() == x,
        s.down.len() == x,
        s.size.len() == x,
        forall|y: int| 0 <= y < x ==> #[trigger] s.up[y] < x && s.down[y] < x,
        s2.ncols == s.ncols,
        total(s2) == x + 1,
        s2.col == s.col.push(h as usize),
        s2.up == s.up.push(s.up[h]).update(h, x as usize),
        s2.down == s.down.push(h as usize).update(s.up[h] as int, x as usize),
        s2.size == s.size.push(0).update(h, (s.size[h] + 1) as usize),
    ensures
        linked(s2, lists.update(h, lists[h].push(x))),
        lists[h].len() <= x,
        headers_ok(s2),
{
    let l = lists[h];
    assert(list_ok(s, h, l));
    lemma_len_bound(l, x);
    let pu = s.up[h] as int;
    let l2 = l.push(x);
    assert(pu == (if l.len() > 0 { l.last() } else { h }));
    assert(s.col[pu] == h) by {
        if l.len() > 0 {
            assert(s.col[l[l.len() - 1]] == h);
        }
    }
    assert(l2.no_duplicates()) by {
        assert forall|i: int, j: int| 0 <= i < l2.len() && 0 <= j < l2.len() && i != j implies l2[i] != l2[j] by {
            if i < l.len() && j < l.len() {
            } else if i < l.len() {
                assert(is_data(s, l[i]));
            } else {
                assert(is_data(s, l[j]));
            }
        }
    }
    assert forall|i: int| 0 <= i < l.len() implies #[trigger] l[i] != x by {
        assert(is_data(s, l[i]));
    }
    assert(list_ok(s2, h, l2)) by {
        assert forall|i: int| 0 <= i < l2.len() implies #[trigger] s2.down[l2[i]] == (if i + 1 < l2.len() {
            l2[i + 1]
        } else {
            h
        }) by {
            if i < l.len() {
                assert(l2[i] == l[i]);
                assert(s.down[l[i]] == (if i + 1 < l.len() { l[i + 1] } else { h }));
                if i + 1 < l.len() {
                    assert(l[i] != l[l.len() - 1]);
                    assert(l[i] != pu);
                } else {
                    assert(l[i] == pu);
                    assert(l2[i + 1] == x);
                }
            } else {
                assert(l2[i] == x);
                assert(pu != x);
            }
        }
        assert forall|i: int| 0 <= i < l2.len() implies #[trigger] s2.up[l2[i]] == (if i > 0 {
            l2[i - 1]
        } else {
            h
        }) by {
            if i < l.len() {
                assert(l2[i] == l[i]);
                assert(s.up[l[i]] == (if i > 0 { l[i - 1] } else { h }));
            }
        }
        assert(s2.down[h as int] == l2[0]) by {
            if l.len() > 0 {
                assert(l[0] != pu || l.len() == 1);
                if l.len() > 1 {
                    assert(l[0] != l[l.len() - 1]);
                }
                assert(h != pu);
            }
        }
        assert(s2.up[h as int] == l2.last());
        assert forall|i: int| 0 <= i < l2.len() implies is_data(s2, #[trigger] l2[i]) && s2.col[l2[i]] == h by {
            if i < l.len() {
                assert(l2[i] == l[i]);
            }
        }
    }
    let lists2 = lists.update(h, l2);
    assert forall|g: int| 1 <= g < hdr(s2) implies #[trigger] list_ok(s2, g, lists2[g]) by {
        if g != h {
            let lg = lists[g];
            assert(list_ok(s, g, lg));
            assert(lists2[g] == lg);
            assert(g != pu);
            assert forall|i: int| 0 <= i < lg.len() implies #[trigger] s2.down[lg[i]] == s.down[lg[i]] && s2.up[lg[i]]
                == s.up[lg[i]] by {
                assert(s.col[lg[i]] == g);
                assert(is_data(s, lg[i]));
            }
            assert forall|i: int| 0 <= i < lg.len() implies is_data(s2, #[trigger] lg[i]) && s2.col[lg[i]] == g by {
                assert(is_data(s, lg[i]));
            }
        }
    }
}

/// What `lists_with_row` holds: each list gains, at its end, the new nodes
/// of its column.
#[verifier::spinoff_prover]
pub proof fn lemma_lists_with_row(lists: Seq<Seq<int>>, cols: Seq<usize>, base: int, k: int)
    requires
        0 <= k <= cols.len(),
        forall|i: int| 0 <= i < cols.len() ==> #[trigger] cols[i] + 1 < lists.len(),
    ensures
        lists_with_row(lists, cols, base, k).len() == lists.len(),
        forall|g: int, y: int|
            0 <= g < lists.len() ==> (#[trigger] lists_with_row(lists, cols, base, k)[g].contains(y) <==> lists[g].contains(y)
                || exists|t: int| 0 <= t < k && y == base + t && #[trigger] cols[t] + 1 == g),
        lists_with_row(lists, cols, base, k)[0] == lists[0],
    decreases k,
{
    if k > 0 {
        lemma_lists_with_row(lists, cols, base, k - 1);
        let l = lists_with_row(lists, cols, base, k - 1);
        let h = cols[k - 1] + 1;
        assert forall|g: int, y: int| 0 <= g < lists.len() implies (#[trigger] lists_with_row(lists, cols, base, k)[g].contains(y)
            <==> lists[g].contains(y) || exists|t: int| 0 <= t < k && y == base + t && #[trigger] cols[t] + 1 == g) by {
            let l2 = lists_with_row(lists, cols, base, k);
            if g == h {
                assert(l2[g] == l[g].push(base + k - 1));
                if l2[g].contains(y) && y != base + k - 1 {
                    let i = choose|i: int| 0 <= i < l2[g].len() && l2[g][i] == y;
                    assert(l[g][i] == y);
                    assert(l[g].contains(y));
                }
                if l[g].contains(y) {
                    let i = choose|i: int| 0 <= i < l[g].len() && l[g][i] == y;
                    assert(l2[g][i] == y);
                }
                if y == base + k - 1 {
                    assert(l2[g][l[g].len() as int] == y);
                }
                if exists|t: int| 0 <= t < k && y == base + t && #[trigger] cols[t] + 1 == g {
                    let t = choose|t: int| 0 <= t < k && y == base + t && #[trigger] cols[t] + 1 == g;
                    if t < k - 1 {
                        assert(exists|t2: int| 0 <= t2 < k - 1 && y == base + t2 && #[trigger] cols[t2] + 1 == g);
                    }
                }
            } else {
                if exists|t: int| 0 <= t < k && y == base + t && #[trigger] cols[t] + 1 == g {
                    let t = choose|t: int| 0 <= t < k && y == base + t && #[trigger] cols[t] + 1 == g;
                    assert(t != k - 1);
                    assert(exists|t2: int| 0 <= t2 < k - 1 && y == base + t2 && #[trigger] cols[t2] + 1 == g);
                }
            }
        }
    }
}

} // verus!

verus! {

/// What adding a row with columns `cols` and identifier `id` as nodes
/// `total(v)..total(v) + k` leaves: the old nodes' row links, columns and
/// rows kept, the new nodes linked left and right in a cycle, in their
/// columns, with their row, and every column linked as `lists_with_row` says.
pub open spec fn row_added(v: DlxView, w: DlxView, cols: Seq<usize>, id: usize, k: int) -> bool {
    let base = total(v);
    &&& w.ncols == v.ncols
    &&& w.active == v.active
    &&& total(w) == base + k
    &&& w.right.len() == base + k
    &&& w.up.len() == base + k
    &&& w.down.len() == base + k
    &&& w.col.len() == base + k
    &&& w.row_id.len() == base + k
    &&& w.size.len() == base + k
    &&& w.rstart.len() == base + k
    &&& w.rend.len() == base + k
    &&& old_nodes_kept(v, w)
    &&& new_nodes_set(v, w, cols, id, k)
    &&& links_below(w, base + k)
    &&& headers_ok(w)
    &&& w.lists == lists_with_row(v.lists, cols, base, k)
    &&& linked(w, w.lists)
}

/// The nodes of `v` keep their row links, columns and rows in `w`.
pub open spec fn old_nodes_kept(v: DlxView, w: DlxView) -> bool {
    forall|x: int|
        0 <= x < total(v) ==> #[trigger] w.left[x] == v.left[x] && w.right[x] == v.right[x] && w.col[x] == v.col[x]
            && w.row_id[x] == v.row_id[x] && w.rstart[x] == v.rstart[x] && w.rend[x] == v.rend[x]
}

/// Node `total(v) + t` of `w` is node `t` of a row with columns `cols` and
/// identifier `id`.
pub open spec fn new_node_ok(v: DlxView, w: DlxView, cols: Seq<usize>, id: usize, t: int) -> bool {
    let base = total(v);
    let n = cols.len() as int;
    let x = base + t;
    &&& w.left[x] == (if t == 0 { base + n - 1 } else { x - 1 })
    &&& w.right[x] == (if t == n - 1 { base } else { x + 1 })
    &&& w.col[x] == cols[t] + 1
    &&& w.row_id[x] == id
    &&& w.rstart[x] == base
    &&& w.rend[x] == base + n
}

/// The first `k` nodes after those of `v` form a row, with columns `cols`
/// and identifier `id`.
pub open spec fn new_nodes_set(v: DlxView, w: DlxView, cols: Seq<usize>, id: usize, k: int) -> bool {
    forall|t: int| 0 <= t < k ==> #[trigger] new_node_ok(v, w, cols, id, t)
}

/// The first `m` nodes link up and down only among themselves.
pub open spec fn links_below(w: DlxView, m: int) -> bool {
    forall|x: int|
        #![trigger w.up[x]]
        #![trigger w.down[x]]
        0 <= x < m ==> w.up[x] < m && w.down[x] < m
}

/// Once all of a row's nodes are added, the structure is well formed again.
#[verifier::spinoff_prover]
#[verifier::rlimit(40)]
pub proof fn lemma_row_added_wf(v: DlxView, w: DlxView, cols: Seq<usize>, id: usize)
    requires
        dlx_wf(v),
        v.active == all_columns(v.ncols),
        cols.len() > 0,
        forall|i: int, j: int| 0 <= i < j < cols.len() ==> #[trigger] cols[i] < #[trigger] cols[j],
        forall|i: int| 0 <= i < cols.len() ==> #[trigger] cols[i] < v.ncols,
        row_added(v, w, cols, id, cols.len() as int),
        total(w) <= usize::MAX,
    ensures
        dlx_wf(w),
{
    reveal(dlx_wf);
    let base = total(v);
    let n = cols.len() as int;
    assert forall|i: int| 0 <= i < cols.len() implies #[trigger] cols[i] + 1 < v.lists.len() by {
    }
    lemma_lists_with_row(v.lists, cols, base, n);
    assert(lens_ok(w)) by {
        assert forall|x: int| 0 <= x < total(w) implies #[trigger] w.left[x] < total(w) by {
            if x >= base {
                assert(new_node_ok(v, w, cols, id, x - base));
            } else {
                assert(w.left[x] == v.left[x]);
                assert(v.left[x] < total(v));
            }
        }
        assert forall|x: int| 0 <= x < total(w) implies #[trigger] w.right[x] < total(w) by {
            if x >= base {
                assert(new_node_ok(v, w, cols, id, x - base));
            } else {
                assert(w.left[x] == v.left[x]);
                assert(v.right[x] < total(v));
            }
        }
        assert forall|x: int| 0 <= x < total(w) implies #[trigger] w.col[x] < hdr(w) by {
            if x >= base {
                assert(new_node_ok(v, w, cols, id, x - base));
            } else {
                assert(w.left[x] == v.left[x]);
            }
        }
        assert forall|x: int| 0 <= x < total(w) implies #[trigger] w.up[x] < total(w) by {
        }
        assert forall|x: int| 0 <= x < total(w) implies #[trigger] w.down[x] < total(w) by {
        }
    }
    assert(rows_ok(w)) by {
        assert forall|x: int| is_data(w, x) implies #[trigger] row_ok(w, x) by {
            if x >= base {
                let t = x - base;
                assert(new_node_ok(v, w, cols, id, t));
            } else {
                assert(w.left[x] == v.left[x]);
                assert(row_ok(v, x));
            }
        }
        assert forall|x: int, y: int| #![trigger w.rstart[x], w.rstart[y]]
            is_data(w, x) && same_row(w, x, y) implies w.rstart[y] == w.rstart[x] && w.rend[y] == w.rend[x] by {
            if x >= base {
                assert(new_node_ok(v, w, cols, id, x - base));
                assert(new_node_ok(v, w, cols, id, y - base));
            } else {
                assert(w.left[x] == v.left[x]);
                assert(row_ok(v, x));
                assert(w.left[y] == v.left[y]);
            }
        }
        assert forall|x: int, y: int| #![trigger w.col[x], w.col[y]]
            is_data(w, x) && same_row(w, x, y) && x < y implies w.col[x] < w.col[y] by {
            if x >= base {
                assert(new_node_ok(v, w, cols, id, x - base));
                assert(new_node_ok(v, w, cols, id, y - base));
                assert(cols[x - base] < cols[y - base]);
            } else {
                assert(w.left[x] == v.left[x]);
                assert(row_ok(v, x));
                assert(w.left[y] == v.left[y]);
            }
        }
    }
    assert(header_list_ok(w, w.active)) by {
        let a = w.active;
        assert forall|i: int| 0 <= i < a.len() implies #[trigger] w.right[a[i]] == (if i + 1 < a.len() { a[i + 1] } else { 0 }) by {
            assert(w.left[a[i]] == v.left[a[i]]);
        }
        assert forall|i: int| 0 <= i < a.len() implies #[trigger] w.left[a[i]] == (if i > 0 { a[i - 1] } else { 0 }) by {
            assert(w.left[a[i]] == v.left[a[i]]);
        }
        assert(w.left[0] == v.left[0]);
    }
    assert(live_ok(w)) by {
        assert forall|h: int, x: int| w.active.contains(h) && #[trigger] w.lists[h].contains(x) implies row_live(w, x) by {
            let hh = w.active.index_of(h);
            assert(w.active[hh] == hh + 1);
            assert(0 <= h < hdr(v));
            assert forall|y: int| #![trigger w.col[y]] same_row(w, x, y) implies w.active.contains(w.col[y] as int)
                && w.lists[w.col[y] as int].contains(y) by {
                if v.lists[h].contains(x) {
                    assert(list_ok(v, h, v.lists[h]));
                    let i = choose|i: int| 0 <= i < v.lists[h].len() && v.lists[h][i] == x;
                    assert(is_data(v, x));
                    assert(w.left[x] == v.left[x]);
                    assert(row_ok(v, x));
                    assert(row_live(v, x));
                    assert(w.left[y] == v.left[y]);
                    assert(v.active.contains(v.col[y] as int) && v.lists[v.col[y] as int].contains(y));
                } else {
                    let t = choose|t: int| 0 <= t < n && x == base + t && #[trigger] cols[t] + 1 == h;
                    assert(new_node_ok(v, w, cols, id, t));
                    let u = y - base;
                    assert(new_node_ok(v, w, cols, id, u));
                    let g = cols[u] + 1;
                    assert(w.col[y] == g);
                    assert(v.active[g - 1] == g);
                    assert(exists|t2: int| 0 <= t2 < n && y == base + t2 && #[trigger] cols[t2] + 1 == g);
                }
            }
        }
    }
}

} // verus!

verus! {

/// Adding node `total(v) + i`, the row's node in column `cols[i] + 1`,
/// extends `row_added` by one node.
#[verifier::spinoff_prover]
#[verifier::rlimit(40)]
pub proof fn lemma_row_added_step(v: DlxView, s: DlxView, w: DlxView, cols: Seq<usize>, id: usize, i: int)
    requires
        dlx_wf(v),
        0 <= i < cols.len(),
        forall|i2: int| 0 <= i2 < cols.len() ==> #[trigger] cols[i2] < v.ncols,
        total(v) + cols.len() <= usize::MAX,
        row_added(v, s, cols, id, i),
        ({
            let base = total(v);
            let n = cols.len() as int;
            let h = cols[i] + 1;
            let x = base + i;
            &&& w.ncols == s.ncols
            &&& w.active == s.active
            &&& w.left == s.left.push((if i == 0 { base + n - 1 } else { x - 1 }) as usize)
            &&& w.right == s.right.push((if i == n - 1 { base } else { x + 1 }) as usize)
            &&& w.row_id == s.row_id.push(id)
            &&& w.rstart == s.rstart.push(base)
            &&& w.rend == s.rend.push(base + n)
            &&& w.col == s.col.push(h as usize)
            &&& w.up == s.up.push(s.up[h]).update(h, x as usize)
            &&& w.down == s.down.push(h as usize).update(s.up[h] as int, x as usize)
            &&& w.size == s.size.push(0).update(h, (s.size[h] + 1) as usize)
            &&& w.lists == s.lists.update(h, s.lists[h].push(x))
        }),
    ensures
        row_added(v, w, cols, id, i + 1),
{
    reveal(dlx_wf);
    let base = total(v);
    let n = cols.len() as int;
    let h = cols[i] + 1;
    let x = base + i;
    let k = i + 1;
    lemma_push_step(s, s.lists, h, x, w);
    assert forall|i2: int| 0 <= i2 < cols.len() implies #[trigger] cols[i2] + 1 < v.lists.len() by {
    }
    assert(w.lists == lists_with_row(v.lists, cols, base, k));
    assert(old_nodes_kept(v, s));
    assert(new_nodes_set(v, s, cols, id, i));
    assert(links_below(s, base + i));
    assert forall|y: int| 0 <= y < base implies #[trigger] w.left[y] == v.left[y] && w.right[y] == v.right[y]
        && w.col[y] == v.col[y] && w.row_id[y] == v.row_id[y] && w.rstart[y] == v.rstart[y] && w.rend[y] == v.rend[y] by {
        assert(s.left[y] == v.left[y]);
    }
    assert forall|t: int| 0 <= t < k implies #[trigger] new_node_ok(v, w, cols, id, t) by {
        if t < i {
            assert(new_node_ok(v, s, cols, id, t));
            assert(s.left[base + t] == w.left[base + t]);
        }
    }
    assert forall|y: int| #![trigger w.up[y]] #![trigger w.down[y]] 0 <= y < base + k implies w.up[y] < base + k && w.down[y] < base + k by {
        if y < base + i {
            assert(s.up[y] < base + i);
            assert(s.down[y] < base + i);
        }
    }
    assert(old_nodes_kept(v, w));
    assert(new_nodes_set(v, w, cols, id, k));
    assert(links_below(w, base + k));
}

} // verus!
