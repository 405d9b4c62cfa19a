//! Proofs about the link operations: taking a node out of its column and
//! putting it back, and covering and uncovering a column.
use vstd::prelude::*;
use crate::dlx::model::{
    DlxView, hdr, total, is_data, lens_ok, headers_ok, rows_ok, row_ok, same_row, linked, list_ok,
    remove_node, restore_node, row_others, ops_upto, dlx_wf, cover_ops, row_live, unlink_col, remove_upto,
    lists_upto, header_list_ok, relink_col, covered, live_ok, restore_from, uncovered, links, coverable,
    row_has_col,
};

verus! {

/// Removing the entry at `k` from a sequence without duplicates.
#[verifier::spinoff_prover]
pub proof fn lemma_seq_remove(l: Seq<int>, k: int)
    requires
        l.no_duplicates(),
        0 <= k < l.len(),
    ensures
        l.remove(k).len() == l.len() - 1,
        forall|i: int| 0 <= i < l.len() - 1 ==> #[trigger] l.remove(k)[i] == (if i < k { l[i] } else { l[i + 1] }),
        l.remove(k).no_duplicates(),
        forall|y: int| #[trigger] l.remove(k).contains(y) <==> l.contains(y) && y != l[k],
{
    let l2 = l.remove(k);
    assert forall|i: int| 0 <= i < l.len() - 1 implies #[trigger] l2[i] == (if i < k { l[i] } else { l[i + 1] }) by {
    }
    assert forall|i: int, j: int| 0 <= i < l2.len() && 0 <= j < l2.len() && i != j implies l2[i] != l2[j] by {
        let a = if i < k { i } else { i + 1 };
        let b = if j < k { j } else { j + 1 };
        assert(l2[i] == l[a] && l2[j] == l[b]);
    }
    assert forall|y: int| #[trigger] l2.contains(y) <==> l.contains(y) && y != l[k] by {
        if l2.contains(y) {
            let i = choose|i: int| 0 <= i < l2.len() && l2[i] == y;
            if i < k {
                assert(l[i] == y);
            } else {
                assert(l[i + 1] == y);
            }
        }
        if l.contains(y) && y != l[k] {
            let i = choose|i: int| 0 <= i < l.len() && l[i] == y;
            assert(i != k);
            if i < k {
                assert(l2[i] == y);
            } else {
                assert(l2[i - 1] == y);
            }
        }
    }
}

/// The links around node `l[k]` of column `h`.
#[verifier::spinoff_prover]
pub proof fn lemma_neighbours(v: DlxView, h: int, l: Seq<int>, k: int)
    requires
        lens_ok(v),
        headers_ok(v),
        1 <= h < hdr(v),
        list_ok(v, h, l),
        0 <= k < l.len(),
    ensures
        v.up[l[k]] == (if k > 0 { l[k - 1] } else { h }),
        v.down[l[k]] == (if k + 1 < l.len() { l[k + 1] } else { h }),
        v.up[l[k]] != l[k],
        v.down[l[k]] != l[k],
        v.col[v.up[l[k]] as int] == h,
        v.col[v.down[l[k]] as int] == h,
        v.down[v.up[l[k]] as int] == l[k],
        v.up[v.down[l[k]] as int] == l[k],
        v.size[h] >= 1,
{
    if k > 0 {
        assert(l[k - 1] != l[k]);
        assert(v.down[l[k - 1]] == l[k]);
    }
    if k + 1 < l.len() {
        assert(l[k + 1] != l[k]);
        assert(v.up[l[k + 1]] == l[k]);
    }
}

/// Taking `l[k]` out of column `h` leaves the rest of the column linked.
#[verifier::spinoff_prover]
pub proof fn lemma_remove_own_column(v: DlxView, h: int, l: Seq<int>, k: int)
    requires
        lens_ok(v),
        headers_ok(v),
        1 <= h < hdr(v),
        list_ok(v, h, l),
        0 <= k < l.len(),
    ensures
        list_ok(remove_node(v, l[k]), h, l.remove(k)),
{
    let x = l[k];
    lemma_neighbours(v, h, l, k);
    lemma_seq_remove(l, k);
    let w = remove_node(v, x);
    let l2 = l.remove(k);
    let u = v.up[x] as int;
    let d = v.down[x] as int;
    assert forall|i: int| 0 <= i < l2.len() implies #[trigger] w.down[l2[i]] == (if i + 1 < l2.len() {
        l2[i + 1]
    } else {
        h
    }) by {
        if i < k {
            assert(l2[i] == l[i]);
            if i == k - 1 {
                assert(l[i] == u);
            } else {
                assert(l[i] != u);
            }
        } else {
            assert(l2[i] == l[i + 1]);
            assert(l[i + 1] != u) by {
                if k > 0 {
                    assert(l[k - 1] != l[i + 1]);
                }
            }
        }
    }
    assert forall|i: int| 0 <= i < l2.len() implies #[trigger] w.up[l2[i]] == (if i > 0 {
        l2[i - 1]
    } else {
        h
    }) by {
        if i < k {
            assert(l2[i] == l[i]);
            assert(l[i] != d) by {
                if k + 1 < l.len() {
                    assert(l[k + 1] != l[i]);
                }
            }
        } else {
            assert(l2[i] == l[i + 1]);
            if i == k {
                assert(l[i + 1] == d);
            } else {
                assert(l[i + 1] != d);
            }
        }
    }
    assert forall|i: int| 0 <= i < l2.len() implies is_data(w, #[trigger] l2[i]) && w.col[l2[i]] == h by {
        if i < k {
            assert(l2[i] == l[i]);
        } else {
            assert(l2[i] == l[i + 1]);
        }
    }
    if l2.len() > 0 {
        if k == l.len() - 1 {
            assert(l2.last() == l[k - 1]);
        } else {
            assert(l2.last() == l.last());
        }
    }
}

/// Taking a linked node out of its column keeps every column linked, with
/// the node gone from its own list, and putting it back restores the links.
#[verifier::spinoff_prover]
pub proof fn lemma_remove_step(v: DlxView, lists: Seq<Seq<int>>, x: int)
    requires
        lens_ok(v),
        headers_ok(v),
        linked(v, lists),
        is_data(v, x),
        lists[v.col[x] as int].contains(x),
    ensures
        ({
            let h = v.col[x] as int;
            let l2 = lists.update(h, lists[h].remove(lists[h].index_of(x)));
            let w = remove_node(v, x);
            &&& lens_ok(w)
            &&& headers_ok(w)
            &&& linked(w, l2)
            &&& restore_node(w, x) == v
            &&& v.size[h] >= 1
            &&& w.size[h] + 1 == v.size[h]
            &&& w.up[x] == v.up[x]
            &&& w.down[x] == v.down[x]
            &&& forall|g: int, y: int| 0 <= g < hdr(v) ==> (#[trigger] l2[g].contains(y) <==> lists[g].contains(y) && y != x)
            &&& forall|y: int|
                #![trigger w.up[y]]
                #![trigger w.down[y]]
                0 <= y < total(v) && v.col[y] != h ==> w.up[y] == v.up[y] && w.down[y] == v.down[y]
        }),
{
    let h = v.col[x] as int;
    let l = lists[h];
    assert(1 <= h < hdr(v));
    assert(list_ok(v, h, l));
    let k = l.index_of(x);
    assert(0 <= k < l.len() && l[k] == x);
    let lists2 = lists.update(h, l.remove(k));
    let w = remove_node(v, x);
    lemma_neighbours(v, h, l, k);
    lemma_seq_remove(l, k);
    lemma_remove_own_column(v, h, l, k);
    let u = v.up[x] as int;
    let d = v.down[x] as int;
    assert forall|g: int| 1 <= g < hdr(w) implies #[trigger] list_ok(w, g, lists2[g]) by {
        if g != h {
            let lg = lists[g];
            assert(list_ok(v, g, lg));
            assert(lists2[g] == lg);
            assert(g != u && g != d);
            assert forall|i: int| 0 <= i < lg.len() implies w.down[#[trigger] lg[i]] == v.down[lg[i]] && w.up[lg[i]] == v.up[lg[i]] by {
                assert(v.col[lg[i]] == g);
            }
        }
    }
    let r = restore_node(w, x);
    assert(r.up =~= v.up);
    assert(r.down =~= v.down);
    assert(r.size =~= v.size);
    assert forall|g: int, y: int| 0 <= g < hdr(v) implies (#[trigger] lists2[g].contains(y) <==> lists[g].contains(y) && y != x) by {
        if g != h && lists[g].contains(y) {
            if g > 0 {
                assert(list_ok(v, g, lists[g]));
                let i = choose|i: int| 0 <= i < lists[g].len() && lists[g][i] == y;
                assert(v.col[lists[g][i]] == g);
            }
        }
    }
    assert forall|y: int| 0 <= y < total(v) && v.col[y] != h implies #[trigger] w.up[y] == v.up[y] && w.down[y] == v.down[y] by {
        assert(y != u && y != d);
    }
}

} // verus!

verus! {

/// Two nodes of one row share its start and end, and lie in different
/// columns unless they are the same node.
#[verifier::spinoff_prover]
pub proof fn lemma_same_row(v: DlxView, x: int, y: int)
    requires
        lens_ok(v),
        rows_ok(v),
        is_data(v, x),
        same_row(v, x, y),
    ensures
        is_data(v, y),
        v.rstart[y] == v.rstart[x],
        v.rend[y] == v.rend[x],
        same_row(v, y, x),
        x != y ==> v.col[x] != v.col[y],
{
    assert(row_ok(v, x));
    assert(v.rstart[y] == v.rstart[x] && v.rend[y] == v.rend[x]);
    if x < y {
        assert(v.col[x] < v.col[y]);
    } else if y < x {
        assert(is_data(v, y));
        assert(row_ok(v, y));
        assert(same_row(v, y, x));
        assert(v.col[y] < v.col[x]);
    }
}

/// The nodes of `i`'s row other than `i`, and how they are linked.
#[verifier::spinoff_prover]
pub proof fn lemma_row_others(v: DlxView, i: int)
    requires
        lens_ok(v),
        rows_ok(v),
        is_data(v, i),
    ensures
        ({
            let ro = row_others(v, i);
            let s = v.rstart[i];
            let e = v.rend[i];
            &&& ro.len() == e - s - 1
            &&& forall|t: int| 0 <= t < ro.len() ==> #[trigger] ro[t] == (if t < e - i - 1 { i + 1 + t } else { s + t - (e - i - 1) })
            &&& forall|t: int| 0 <= t < ro.len() ==> same_row(v, i, #[trigger] ro[t]) && ro[t] != i && is_data(v, ro[t])
            &&& forall|y: int| same_row(v, i, y) && y != i ==> #[trigger] ro.contains(y)
            &&& ro.no_duplicates()
            &&& v.right[i] == (if ro.len() > 0 { ro[0] } else { i })
            &&& v.left[i] == (if ro.len() > 0 { ro.last() } else { i })
            &&& forall|t: int| 0 <= t < ro.len() ==> #[trigger] v.right[ro[t]] == (if t + 1 < ro.len() { ro[t + 1] } else { i })
            &&& forall|t: int| 0 <= t < ro.len() ==> #[trigger] v.left[ro[t]] == (if t > 0 { ro[t - 1] } else { i })
        }),
{
    let ro = row_others(v, i);
    let s = v.rstart[i];
    let e = v.rend[i];
    assert(row_ok(v, i));
    let a = e - i - 1;
    assert forall|t: int| 0 <= t < ro.len() implies #[trigger] ro[t] == (if t < a { i + 1 + t } else { s + t - a }) by {
    }
    assert forall|t: int| 0 <= t < ro.len() implies same_row(v, i, #[trigger] ro[t]) && ro[t] != i && is_data(v, ro[t]) by {
    }
    assert forall|y: int| same_row(v, i, y) && y != i implies #[trigger] ro.contains(y) by {
        if y > i {
            assert(ro[y - i - 1] == y);
        } else {
            assert(ro[y - s + a] == y);
        }
    }
    assert forall|p: int, q: int| 0 <= p < ro.len() && 0 <= q < ro.len() && p != q implies ro[p] != ro[q] by {
    }
    assert forall|t: int| 0 <= t < ro.len() implies #[trigger] v.right[ro[t]] == (if t + 1 < ro.len() { ro[t + 1] } else { i }) by {
        let y = ro[t];
        lemma_same_row(v, i, y);
        assert(row_ok(v, y));
    }
    assert forall|t: int| 0 <= t < ro.len() implies #[trigger] v.left[ro[t]] == (if t > 0 { ro[t - 1] } else { i }) by {
        let y = ro[t];
        lemma_same_row(v, i, y);
        assert(row_ok(v, y));
    }
    if ro.len() > 0 {
        assert(ro.last() == ro[ro.len() - 1]);
    }
}

/// The nodes taken out for the first `k` rows of a column come before
/// those for the first `k2`.
#[verifier::spinoff_prover]
pub proof fn lemma_ops_prefix(v: DlxView, c: int, k: int, k2: int)
    requires
        0 <= k <= k2,
    ensures
        ops_upto(v, c, k).len() <= ops_upto(v, c, k2).len(),
        forall|idx: int| 0 <= idx < ops_upto(v, c, k).len() ==> #[trigger] ops_upto(v, c, k2)[idx] == ops_upto(v, c, k)[idx],
    decreases k2,
{
    if k < k2 {
        lemma_ops_prefix(v, c, k, k2 - 1);
        assert(ops_upto(v, c, k2) == ops_upto(v, c, k2 - 1) + row_others(v, v.lists[c][k2 - 1]));
    }
}

/// A node taken out for the first `k - 1` rows of column `c` is not one of
/// the nodes of row `k - 1`.
#[verifier::spinoff_prover]
proof fn lemma_earlier_rows(v: DlxView, c: int, k: int, y: int, z: int)
    requires
        lens_ok(v),
        rows_ok(v),
        1 <= c < hdr(v),
        list_ok(v, c, v.lists[c]),
        0 < k <= v.lists[c].len(),
        in_rows_before(v, c, k - 1, y),
        row_others(v, v.lists[c][k - 1]).contains(z),
    ensures
        y != z,
{
    let l = v.lists[c];
    let i = l[k - 1];
    let k1 = choose|k1: int| 0 <= k1 < k - 1 && same_row(v, l[k1], y) && y != #[trigger] l[k1];
    assert(is_data(v, i) && v.col[i] == c);
    lemma_row_others(v, i);
    if y == z {
        let q = choose|q: int| 0 <= q < row_others(v, i).len() && row_others(v, i)[q] == z;
        assert(same_row(v, i, z));
        assert(is_data(v, l[k1]) && v.col[l[k1]] == c);
        lemma_same_row(v, l[k1], y);
        lemma_same_row(v, i, y);
        assert(same_row(v, l[k1], i));
        assert(l[k1] != i);
        lemma_same_row(v, l[k1], i);
    }
}

/// Node `y` is another node of one of the first `k` rows of column `c`.
pub open spec fn in_rows_before(v: DlxView, c: int, k: int, y: int) -> bool {
    exists|k1: int| 0 <= k1 < k && same_row(v, v.lists[c][k1], y) && y != #[trigger] v.lists[c][k1]
}

/// What covering column `c` takes out for its first `k` rows: the other
/// nodes of those rows, each once.
#[verifier::spinoff_prover]
pub proof fn lemma_ops_members(v: DlxView, c: int, k: int)
    requires
        lens_ok(v),
        rows_ok(v),
        1 <= c < hdr(v),
        list_ok(v, c, v.lists[c]),
        0 <= k <= v.lists[c].len(),
    ensures
        ops_upto(v, c, k).no_duplicates(),
        forall|y: int| #[trigger] ops_upto(v, c, k).contains(y) <==> in_rows_before(v, c, k, y),
    decreases k,
{
    if k > 0 {
        lemma_ops_members(v, c, k - 1);
        let l = v.lists[c];
        let a = ops_upto(v, c, k - 1);
        let i = l[k - 1];
        assert(is_data(v, i) && v.col[i] == c);
        lemma_row_others(v, i);
        let ro = row_others(v, i);
        let o = ops_upto(v, c, k);
        assert(o == a + ro);
        assert forall|p: int, q: int| 0 <= p < a.len() && 0 <= q < ro.len() implies a[p] != ro[q] by {
            assert(a.contains(a[p]));
            assert(ro.contains(ro[q]));
            lemma_earlier_rows(v, c, k, a[p], ro[q]);
        }
        assert forall|p: int, q: int| 0 <= p < o.len() && 0 <= q < o.len() && p != q implies o[p] != o[q] by {
            if p < a.len() && q >= a.len() {
                assert(o[q] == ro[q - a.len()]);
            } else if q < a.len() && p >= a.len() {
                assert(o[p] == ro[p - a.len()]);
            }
        }
        assert forall|y: int| #[trigger] o.contains(y) <==> in_rows_before(v, c, k, y) by {
            lemma_ops_contains_step(v, c, k, y);
        }
    }
}

/// One step of `lemma_ops_members`: membership after `k` rows from
/// membership after `k - 1`.
#[verifier::spinoff_prover]
proof fn lemma_ops_contains_step(v: DlxView, c: int, k: int, y: int)
    requires
        lens_ok(v),
        rows_ok(v),
        1 <= c < hdr(v),
        list_ok(v, c, v.lists[c]),
        0 < k <= v.lists[c].len(),
        ops_upto(v, c, k - 1).contains(y) <==> in_rows_before(v, c, k - 1, y),
    ensures
        ops_upto(v, c, k).contains(y) <==> in_rows_before(v, c, k, y),
{
    let l = v.lists[c];
    let a = ops_upto(v, c, k - 1);
    let i = l[k - 1];
    assert(is_data(v, i) && v.col[i] == c);
    lemma_row_others(v, i);
    let ro = row_others(v, i);
    let o = ops_upto(v, c, k);
    assert(o == a + ro);
    if o.contains(y) {
        let p = choose|p: int| 0 <= p < o.len() && o[p] == y;
        if p < a.len() {
            assert(a[p] == y);
            assert(a.contains(y));
            let k1 = choose|k1: int| 0 <= k1 < k - 1 && same_row(v, l[k1], y) && y != #[trigger] l[k1];
            assert(0 <= k1 < k && same_row(v, l[k1], y) && y != l[k1]);
        } else {
            assert(ro[p - a.len()] == y);
            assert(same_row(v, l[k - 1], y) && y != l[k - 1]);
        }
    }
    if in_rows_before(v, c, k, y) {
        let k1 = choose|k1: int| 0 <= k1 < k && same_row(v, l[k1], y) && y != #[trigger] l[k1];
        if k1 < k - 1 {
            assert(in_rows_before(v, c, k - 1, y));
            let p = choose|p: int| 0 <= p < a.len() && a[p] == y;
            assert(o[p] == y);
        } else {
            assert(ro.contains(y));
            let q = choose|q: int| 0 <= q < ro.len() && ro[q] == y;
            assert(o[a.len() + q] == y);
        }
    }
}

} // verus!

verus! {

/// What covering an active column `c` takes out: other nodes of the rows
/// linked into it, each once, each linked into an active column other than `c`.
#[verifier::spinoff_prover]
pub proof fn lemma_ops_facts(v: DlxView, c: int)
    requires
        dlx_wf(v),
        v.active.contains(c),
    ensures
        1 <= c < hdr(v),
        cover_ops(v, c).no_duplicates(),
        forall|y: int| #[trigger] cover_ops(v, c).contains(y) <==> in_rows_before(v, c, v.lists[c].len() as int, y),
        forall|idx: int|
            0 <= idx < cover_ops(v, c).len() ==> {
                let y = #[trigger] cover_ops(v, c)[idx];
                &&& is_data(v, y)
                &&& v.col[y] != c
                &&& v.lists[v.col[y] as int].contains(y)
                &&& v.active.contains(v.col[y] as int)
            },
{
    reveal(dlx_wf);
    let l = v.lists[c];
    let p = v.active.index_of(c);
    assert(1 <= v.active[p] < hdr(v));
    assert(list_ok(v, c, l));
    lemma_ops_members(v, c, l.len() as int);
    let ops = cover_ops(v, c);
    assert forall|idx: int| 0 <= idx < ops.len() implies {
        let y = #[trigger] ops[idx];
        &&& is_data(v, y)
        &&& v.col[y] != c
        &&& v.lists[v.col[y] as int].contains(y)
        &&& v.active.contains(v.col[y] as int)
    } by {
        let y = ops[idx];
        assert(ops.contains(y));
        let k1 = choose|k1: int| 0 <= k1 < l.len() && same_row(v, l[k1], y) && y != #[trigger] l[k1];
        let x = l[k1];
        assert(is_data(v, x) && v.col[x] == c);
        lemma_same_row(v, x, y);
        assert(l.contains(x));
        assert(row_live(v, x));
        assert(v.active.contains(v.col[y] as int) && v.lists[v.col[y] as int].contains(y));
    }
}

/// The state after the first `m` removals of covering column `c`: every
/// column still linked, the removed nodes gone from their lists, and
/// column `c` itself untouched.
#[verifier::opaque]
pub open spec fn prefix_ok(v: DlxView, c: int, m: int) -> bool {
    let ops = cover_ops(v, c);
    let w0 = unlink_col(v, c);
    let s = remove_upto(w0, ops, m);
    let l = lists_upto(v.lists, v.col, ops, m);
    &&& lens_ok(s)
    &&& headers_ok(s)
    &&& linked(s, l)
    &&& total(s) == total(v)
    &&& hdr(s) == hdr(v)
    &&& s == (DlxView { up: s.up, down: s.down, size: s.size, ..w0 })
    &&& forall|g: int, y: int|
        0 <= g < hdr(v) ==> (#[trigger] l[g].contains(y) <==> v.lists[g].contains(y) && !ops.take(m).contains(y))
    &&& l[c] == v.lists[c]
    &&& forall|y: int|
        #![trigger s.up[y]]
        #![trigger s.down[y]]
        0 <= y < total(v) && v.col[y] == c ==> s.up[y] == v.up[y] && s.down[y] == v.down[y]
}

/// Unlinking the header of column `c` leaves every column linked.
#[verifier::spinoff_prover]
proof fn lemma_cover_base(v: DlxView, c: int)
    requires
        dlx_wf(v),
        v.active.contains(c),
    ensures
        prefix_ok(v, c, 0),
{
    reveal(dlx_wf);
    let ops = cover_ops(v, c);
    let w0 = unlink_col(v, c);
    let p = v.active.index_of(c);
    assert(v.active[p] == c);
    assert(0 <= v.left[c] < total(v) && 0 <= v.right[c] < total(v));
    assert forall|x: int| 0 <= x < total(w0) implies #[trigger] w0.left[x] < total(w0) by {
    }
    assert forall|x: int| 0 <= x < total(w0) implies #[trigger] w0.right[x] < total(w0) by {
    }
    assert forall|h: int| 1 <= h < hdr(w0) implies #[trigger] list_ok(w0, h, v.lists[h]) by {
        assert(list_ok(v, h, v.lists[h]));
    }
    assert(ops.take(0) =~= Seq::<int>::empty());
    assert(remove_upto(w0, ops, 0) == w0);
    assert(lists_upto(v.lists, v.col, ops, 0) == v.lists);
    reveal(prefix_ok);
}

/// Whether `t.take(m)` holds `y`, from whether `t.take(m - 1)` does.
#[verifier::spinoff_prover]
proof fn lemma_take_contains(t: Seq<int>, m: int, y: int)
    requires
        0 < m <= t.len(),
    ensures
        t.take(m).contains(y) <==> t.take(m - 1).contains(y) || y == t[m - 1],
{
    let t0 = t.take(m - 1);
    let t1 = t.take(m);
    if t1.contains(y) {
        let i = choose|i: int| 0 <= i < m && t1[i] == y;
        if i < m - 1 {
            assert(t0[i] == y);
        }
    }
    if t0.contains(y) {
        let i = choose|i: int| 0 <= i < m - 1 && t0[i] == y;
        assert(t1[i] == y);
    }
    if y == t[m - 1] {
        assert(t1[m - 1] == y);
    }
}

/// Column `c`'s own links are untouched by the first `m` removals.
#[verifier::spinoff_prover]
proof fn lemma_prefix_col_c(v: DlxView, c: int, m: int, y: int)
    requires
        prefix_ok(v, c, m),
        0 <= y < total(v),
        v.col[y] == c,
    ensures
        remove_upto(unlink_col(v, c), cover_ops(v, c), m).up[y] == v.up[y],
        remove_upto(unlink_col(v, c), cover_ops(v, c), m).down[y] == v.down[y],
{
    reveal(prefix_ok);
}

/// One more removal of covering column `c` keeps `prefix_ok`.
#[verifier::spinoff_prover]
proof fn lemma_cover_induct(v: DlxView, c: int, m: int)
    requires
        0 < m <= cover_ops(v, c).len(),
        1 <= c < hdr(v),
        prefix_ok(v, c, m - 1),
        is_data(v, cover_ops(v, c)[m - 1]),
        v.col[cover_ops(v, c)[m - 1]] != c,
        1 <= v.col[cover_ops(v, c)[m - 1]] < hdr(v),
        v.lists[v.col[cover_ops(v, c)[m - 1]] as int].contains(cover_ops(v, c)[m - 1]),
        !cover_ops(v, c).take(m - 1).contains(cover_ops(v, c)[m - 1]),
    ensures
        prefix_ok(v, c, m),
{
    reveal(prefix_ok);
    let ops = cover_ops(v, c);
    let w0 = unlink_col(v, c);
    let s0 = remove_upto(w0, ops, m - 1);
    let l0 = lists_upto(v.lists, v.col, ops, m - 1);
    let x = ops[m - 1];
    assert(s0.col == v.col);
    assert(l0[v.col[x] as int].contains(x));
    lemma_remove_step(s0, l0, x);
    let s = remove_upto(w0, ops, m);
    let l = lists_upto(v.lists, v.col, ops, m);
    assert(s == remove_node(s0, x));
    assert forall|g: int, y: int| 0 <= g < hdr(v) implies (#[trigger] l[g].contains(y) <==> v.lists[g].contains(y)
        && !ops.take(m).contains(y)) by {
        assert(l0[g].contains(y) <==> v.lists[g].contains(y) && !ops.take(m - 1).contains(y));
        lemma_take_contains(ops, m, y);
    }
    assert forall|y: int| 0 <= y < total(v) && v.col[y] == c implies #[trigger] s.up[y] == v.up[y] && s.down[y] == v.down[y] by {
        lemma_prefix_col_c(v, c, m - 1, y);
    }
    assert(lens_ok(s));
    assert(headers_ok(s));
    assert(linked(s, l));
    assert(total(s) == total(v));
    assert(hdr(s) == hdr(v));
    assert(s == (DlxView { up: s.up, down: s.down, size: s.size, ..w0 }));
    assert(l[c] == v.lists[c]);
}

/// `prefix_ok` holds after every number of removals of covering column `c`.
#[verifier::spinoff_prover]
pub proof fn lemma_cover_prefix(v: DlxView, c: int, m: int)
    requires
        dlx_wf(v),
        v.active.contains(c),
        0 <= m <= cover_ops(v, c).len(),
    ensures
        prefix_ok(v, c, m),
    decreases m,
{
    reveal(dlx_wf);
    if m == 0 {
        lemma_cover_base(v, c);
    } else {
        lemma_cover_prefix(v, c, m - 1);
        lemma_ops_facts(v, c);
        let ops = cover_ops(v, c);
        let x = ops[m - 1];
        assert(is_data(v, x));
        assert(0 <= v.col[x] < hdr(v));
        assert(v.lists[0].len() == 0);
        assert(v.col[x] != 0) by {
            if v.col[x] == 0 {
                assert(v.lists[0].contains(x));
            }
        }
        let t0 = ops.take(m - 1);
        assert(!t0.contains(x)) by {
            if t0.contains(x) {
                let i = choose|i: int| 0 <= i < m - 1 && t0[i] == x;
                assert(ops[i] == ops[m - 1]);
            }
        }
        lemma_cover_induct(v, c, m);
    }
}

/// One removal of covering column `c`, and how putting the node back undoes it.
#[verifier::spinoff_prover]
pub proof fn lemma_cover_step(v: DlxView, c: int, m: int)
    requires
        dlx_wf(v),
        v.active.contains(c),
        0 <= m < cover_ops(v, c).len(),
    ensures
        ({
            let ops = cover_ops(v, c);
            let w0 = unlink_col(v, c);
            let s = remove_upto(w0, ops, m);
            let s1 = remove_upto(w0, ops, m + 1);
            let x = ops[m];
            let h = v.col[x] as int;
            &&& is_data(v, x)
            &&& 1 <= h < hdr(v)
            &&& h != c
            &&& s1 == remove_node(s, x)
            &&& restore_node(s1, x) == s
            &&& s.size[h] >= 1
            &&& s1.size[h] + 1 == s.size[h]
            &&& s.up[x] != x
            &&& s.down[x] != x
            &&& s1.up[x] == s.up[x]
            &&& s1.down[x] == s.down[x]
        }),
{
    reveal(dlx_wf);
    let ops = cover_ops(v, c);
    let w0 = unlink_col(v, c);
    lemma_ops_facts(v, c);
    lemma_cover_prefix(v, c, m);
    reveal(prefix_ok);
    let s = remove_upto(w0, ops, m);
    let l = lists_upto(v.lists, v.col, ops, m);
    let x = ops[m];
    let h = v.col[x] as int;
    let t = ops.take(m);
    assert(!t.contains(x)) by {
        if t.contains(x) {
            let i = choose|i: int| 0 <= i < m && t[i] == x;
            assert(ops[i] == ops[m]);
        }
    }
    assert(v.lists[h].contains(x));
    assert(l[h].contains(x));
    lemma_remove_step(s, l, x);
    assert(list_ok(s, h, l[h]));
    let k = l[h].index_of(x);
    lemma_neighbours(s, h, l[h], k);
}

} // verus!

verus! {

/// The neighbours of active column `a[p]` in the header list.
#[verifier::spinoff_prover]
proof fn lemma_header_neighbours(v: DlxView, p: int)
    requires
        lens_ok(v),
        header_list_ok(v, v.active),
        0 <= p < v.active.len(),
    ensures
        ({
            let a = v.active;
            let c = a[p];
            &&& a.no_duplicates()
            &&& v.left[c] == (if p > 0 { a[p - 1] } else { 0 })
            &&& v.right[c] == (if p + 1 < a.len() { a[p + 1] } else { 0 })
            &&& 0 <= v.left[c] < c
            &&& v.right[c] == 0 || c < v.right[c] < hdr(v)
            &&& v.right[v.left[c] as int] == c
            &&& v.left[v.right[c] as int] == c
            &&& forall|i: int| 0 <= i < p ==> #[trigger] a[i] < c
            &&& forall|i: int| p < i < a.len() ==> c < #[trigger] a[i]
        }),
{
    let a = v.active;
    let c = a[p];
    assert forall|i: int, j: int| 0 <= i < a.len() && 0 <= j < a.len() && i != j implies a[i] != a[j] by {
        if i < j {
            assert(a[i] < a[j]);
        } else {
            assert(a[j] < a[i]);
        }
    }
    if p > 0 {
        assert(a[p - 1] < a[p]);
        assert(v.right[a[p - 1]] == c);
    } else {
        assert(v.right[0] == c);
    }
    if p + 1 < a.len() {
        assert(a[p] < a[p + 1]);
        assert(v.left[a[p + 1]] == c);
    } else {
        assert(v.left[0] == a.last());
    }
}

/// Taking active column `a[p]` out of the header list leaves the others
/// linked in order.
#[verifier::spinoff_prover]
proof fn lemma_header_unlinked(v: DlxView, p: int)
    requires
        lens_ok(v),
        header_list_ok(v, v.active),
        0 <= p < v.active.len(),
    ensures
        header_list_ok(unlink_col(v, v.active[p]), v.active.remove(p)),
{
    let a = v.active;
    let c = a[p];
    let w = unlink_col(v, c);
    lemma_header_neighbours(v, p);
    lemma_seq_remove(a, p);
    let a2 = a.remove(p);
    let l = v.left[c] as int;
    let r = v.right[c] as int;
    assert forall|i: int, j: int| 0 <= i < j < a2.len() implies #[trigger] a2[i] < #[trigger] a2[j] by {
        let ii = if i < p { i } else { i + 1 };
        let jj = if j < p { j } else { j + 1 };
        assert(a2[i] == a[ii] && a2[j] == a[jj]);
    }
    assert forall|i: int| 0 <= i < a2.len() implies 1 <= #[trigger] a2[i] < hdr(v) by {
        if i < p {
            assert(a2[i] == a[i]);
        } else {
            assert(a2[i] == a[i + 1]);
        }
    }
    assert forall|i: int| 0 <= i < a2.len() implies #[trigger] w.right[a2[i]] == (if i + 1 < a2.len() {
        a2[i + 1]
    } else {
        0
    }) by {
        if i < p {
            assert(a2[i] == a[i]);
            if i != p - 1 {
                assert(a[i] < a[p - 1]);
            }
        } else {
            assert(a2[i] == a[i + 1]);
        }
    }
    assert forall|i: int| 0 <= i < a2.len() implies #[trigger] w.left[a2[i]] == (if i > 0 {
        a2[i - 1]
    } else {
        0
    }) by {
        if i < p {
            assert(a2[i] == a[i]);
        } else {
            assert(a2[i] == a[i + 1]);
            if i != p {
                assert(a[p + 1] < a[i + 1]);
            }
        }
    }
    if a2.len() > 0 {
        if p == a.len() - 1 {
            assert(a2.last() == a[p - 1]);
        } else {
            assert(a2.last() == a.last());
        }
    }
}

/// Taking active column `a[p]` out of the header list leaves the others
/// linked in order, and relinking it restores the header links.
#[verifier::spinoff_prover]
pub proof fn lemma_header_unlink(v: DlxView, p: int)
    requires
        lens_ok(v),
        header_list_ok(v, v.active),
        0 <= p < v.active.len(),
    ensures
        ({
            let a = v.active;
            let c = a[p];
            let w = unlink_col(v, c);
            &&& a.no_duplicates()
            &&& header_list_ok(w, a.remove(p))
            &&& forall|g: int| #[trigger] a.remove(p).contains(g) <==> a.contains(g) && g != c
            &&& 0 <= v.left[c] < hdr(v)
            &&& 0 <= v.right[c] < hdr(v)
            &&& v.left[c] != c
            &&& v.right[c] != c
            &&& w.left[c] == v.left[c]
            &&& w.right[c] == v.right[c]
            &&& relink_col(w, c).left == v.left
            &&& relink_col(w, c).right == v.right
            &&& forall|x: int| hdr(v) <= x < total(v) ==> #[trigger] w.left[x] == v.left[x] && w.right[x] == v.right[x]
        }),
{
    let a = v.active;
    let c = a[p];
    let w = unlink_col(v, c);
    lemma_header_neighbours(v, p);
    lemma_header_unlinked(v, p);
    lemma_seq_remove(a, p);
    assert(relink_col(w, c).left =~= v.left);
    assert(relink_col(w, c).right =~= v.right);
}

/// The covered structure: its links, lists and header list.
#[verifier::spinoff_prover]
proof fn lemma_covered_shape(v: DlxView, c: int)
    requires
        dlx_wf(v),
        v.active.contains(c),
    ensures
        ({
            let cv = covered(v, c);
            let w0 = unlink_col(v, c);
            &&& lens_ok(cv)
            &&& headers_ok(cv)
            &&& linked(cv, cv.lists)
            &&& header_list_ok(cv, cv.active)
            &&& cv.left == w0.left
            &&& cv.right == w0.right
            &&& forall|x: int| hdr(v) <= x < total(v) ==> #[trigger] w0.left[x] == v.left[x] && w0.right[x] == v.right[x]
            &&& cv.lists[c] == v.lists[c]
            &&& cv.active == v.active.remove(v.active.index_of(c))
            &&& cv.col == v.col
            &&& cv.row_id == v.row_id
            &&& cv.rstart == v.rstart
            &&& cv.rend == v.rend
            &&& cv.ncols == v.ncols
            &&& total(cv) == total(v)
            &&& forall|g: int| #[trigger] cv.active.contains(g) <==> v.active.contains(g) && g != c
            &&& forall|g: int, y: int|
                0 <= g < hdr(v) ==> (#[trigger] cv.lists[g].contains(y) <==> v.lists[g].contains(y) && !cover_ops(v, c).contains(y))
        }),
{
    reveal(dlx_wf);
    let ops = cover_ops(v, c);
    let n = ops.len() as int;
    let a = v.active;
    let p = a.index_of(c);
    assert(a[p] == c);
    lemma_cover_prefix(v, c, n);
    reveal(prefix_ok);
    lemma_header_unlink(v, p);
    let w0 = unlink_col(v, c);
    reveal(covered);
    let cv = covered(v, c);
    let ln = lists_upto(v.lists, v.col, ops, n);
    assert(ops.take(n) =~= ops);
    assert(cv.lists == ln);
    let sn = remove_upto(w0, ops, n);
    assert forall|h: int| 1 <= h < hdr(cv) implies #[trigger] list_ok(cv, h, ln[h]) by {
        assert(list_ok(sn, h, ln[h]));
    }
}

/// Covering an active column keeps the structure well formed: the column
/// leaves the header list, the rows through it leave every other column,
/// and the column's own list is kept.
#[verifier::spinoff_prover]
pub proof fn lemma_covered_wf(v: DlxView, c: int)
    requires
        dlx_wf(v),
        v.active.contains(c),
    ensures
        dlx_wf(covered(v, c)),
        covered(v, c).lists[c] == v.lists[c],
        covered(v, c).active == v.active.remove(v.active.index_of(c)),
        covered(v, c).col == v.col,
        covered(v, c).row_id == v.row_id,
        covered(v, c).rstart == v.rstart,
        covered(v, c).rend == v.rend,
        covered(v, c).ncols == v.ncols,
        total(covered(v, c)) == total(v),
        forall|g: int| #[trigger] covered(v, c).active.contains(g) <==> v.active.contains(g) && g != c,
        forall|g: int, y: int|
            0 <= g < hdr(v) ==> (#[trigger] covered(v, c).lists[g].contains(y) ==> v.lists[g].contains(y)),
{
    reveal(dlx_wf);
    lemma_covered_shape(v, c);
    lemma_covered_rows(v, c);
    let cv = covered(v, c);
    assert(live_ok(cv)) by {
        assert forall|h: int, x: int| cv.active.contains(h) && #[trigger] cv.lists[h].contains(x) implies row_live(cv, x) by {
            assert(v.active.contains(h) && h != c);
            let hh = v.active.index_of(h);
            assert(1 <= v.active[hh] < hdr(v));
            assert(v.lists[h].contains(x) && !cover_ops(v, c).contains(x));
            lemma_covered_live(v, c, h, x);
            assert forall|y: int| #![trigger cv.col[y]] same_row(cv, x, y) implies cv.active.contains(cv.col[y] as int)
                && cv.lists[cv.col[y] as int].contains(y) by {
                assert(v.active.contains(v.col[y] as int));
                let q = v.active.index_of(v.col[y] as int);
                assert(1 <= v.active[q] < hdr(v));
            }
        }
    }
}

/// The rows of the covered structure are those of the original.
#[verifier::spinoff_prover]
proof fn lemma_covered_rows(v: DlxView, c: int)
    requires
        dlx_wf(v),
        v.active.contains(c),
    ensures
        rows_ok(covered(v, c)),
{
    reveal(dlx_wf);
    lemma_covered_shape(v, c);
    let cv = covered(v, c);
    assert forall|x: int| is_data(cv, x) implies #[trigger] row_ok(cv, x) by {
        assert(row_ok(v, x));
    }
    assert forall|x: int, y: int| #![trigger cv.rstart[x], cv.rstart[y]]
        is_data(cv, x) && same_row(cv, x, y) implies cv.rstart[y] == cv.rstart[x] && cv.rend[y] == cv.rend[x] by {
        lemma_same_row(v, x, y);
    }
    assert forall|x: int, y: int| #![trigger cv.col[x], cv.col[y]]
        is_data(cv, x) && same_row(cv, x, y) && x < y implies cv.col[x] < cv.col[y] by {
        assert(v.col[x] < v.col[y]);
    }
}

/// Covering column `c` keeps every node whose row has no node in `c`.
#[verifier::spinoff_prover]
pub proof fn lemma_covered_keeps(v: DlxView, c: int, g: int, y: int)
    requires
        dlx_wf(v),
        v.active.contains(c),
        0 <= g < hdr(v),
        v.lists[g].contains(y),
        !row_has_col(v, y, c),
    ensures
        covered(v, c).lists[g].contains(y),
{
    reveal(dlx_wf);
    lemma_covered_shape(v, c);
    lemma_ops_facts(v, c);
    let l = v.lists[c];
    assert(list_ok(v, c, l));
    if cover_ops(v, c).contains(y) {
        let k1 = choose|k1: int| 0 <= k1 < l.len() && same_row(v, l[k1], y) && y != #[trigger] l[k1];
        assert(is_data(v, l[k1]) && v.col[l[k1]] == c);
        lemma_same_row(v, l[k1], y);
        assert(same_row(v, y, l[k1]));
        assert(row_has_col(v, y, c));
    }
}

/// A row linked into an active column of the covered structure is live there.
#[verifier::spinoff_prover]
proof fn lemma_covered_live(v: DlxView, c: int, h: int, x: int)
    requires
        dlx_wf(v),
        v.active.contains(c),
        v.active.contains(h),
        h != c,
        v.lists[h].contains(x),
        !cover_ops(v, c).contains(x),
    ensures
        forall|y: int| same_row(v, x, y) ==> v.active.contains(#[trigger] v.col[y] as int) && v.col[y] != c
            && !cover_ops(v, c).contains(y) && v.lists[v.col[y] as int].contains(y),
{
    reveal(dlx_wf);
    let l = v.lists[c];
    lemma_ops_facts(v, c);
    assert(row_live(v, x));
    assert(1 <= h < hdr(v));
    assert(list_ok(v, h, v.lists[h]));
    let ix = choose|i: int| 0 <= i < v.lists[h].len() && v.lists[h][i] == x;
    assert(is_data(v, x) && v.col[x] == h);
    // no node of x's row lies in column c
    assert forall|z: int| same_row(v, x, z) implies #[trigger] v.col[z] != c by {
        if v.col[z] == c {
            assert(v.lists[c].contains(z));
            lemma_same_row(v, x, z);
            let k1 = choose|k1: int| 0 <= k1 < l.len() && l[k1] == z;
            assert(same_row(v, l[k1], x) && x != l[k1]);
            assert(in_rows_before(v, c, l.len() as int, x));
        }
    }
    assert forall|y: int| same_row(v, x, y) implies v.active.contains(#[trigger] v.col[y] as int) && v.col[y] != c
        && !cover_ops(v, c).contains(y) && v.lists[v.col[y] as int].contains(y) by {
        assert(v.col[y] != c);
        if cover_ops(v, c).contains(y) {
            let k1 = choose|k1: int| 0 <= k1 < l.len() && same_row(v, l[k1], y) && y != #[trigger] l[k1];
            assert(list_ok(v, c, l));
            assert(is_data(v, l[k1]) && v.col[l[k1]] == c);
            lemma_same_row(v, l[k1], y);
            lemma_same_row(v, x, y);
            assert(same_row(v, x, l[k1]));
            assert(v.col[l[k1]] != c);
        }
    }
}

} // verus!

verus! {

/// The nodes that covering takes out depend only on the column's list and the rows.
#[verifier::spinoff_prover]
pub proof fn lemma_ops_same(v1: DlxView, v2: DlxView, c: int, k: int)
    requires
        v1.lists[c] == v2.lists[c],
        v1.rstart == v2.rstart,
        v1.rend == v2.rend,
    ensures
        ops_upto(v1, c, k) == ops_upto(v2, c, k),
    decreases k,
{
    if k > 0 {
        lemma_ops_same(v1, v2, c, k - 1);
        assert(row_others(v1, v1.lists[c][k - 1]) == row_others(v2, v2.lists[c][k - 1]));
    }
}

/// Putting back the last `j - m` of the first `j` removals of covering
/// column `c` gives the state after `m` removals.
#[verifier::spinoff_prover]
proof fn lemma_restore_back(v: DlxView, c: int, j: int, m: int)
    requires
        dlx_wf(v),
        v.active.contains(c),
        0 <= m <= j <= cover_ops(v, c).len(),
    ensures
        ({
            let ops = cover_ops(v, c);
            let w0 = unlink_col(v, c);
            let cv = covered(v, c);
            restore_from(DlxView { lists: cv.lists, active: cv.active, ..remove_upto(w0, ops, j) }, ops, j, m)
                == (DlxView { lists: cv.lists, active: cv.active, ..remove_upto(w0, ops, m) })
        }),
    decreases j - m,
{
    reveal(dlx_wf);
    if m < j {
        let ops = cover_ops(v, c);
        let w0 = unlink_col(v, c);
        let cv = covered(v, c);
        reveal(covered);
        lemma_cover_step(v, c, j - 1);
        let t = DlxView { lists: cv.lists, active: cv.active, ..remove_upto(w0, ops, j) };
        let t1 = DlxView { lists: cv.lists, active: cv.active, ..remove_upto(w0, ops, j - 1) };
        assert(restore_node(t, ops[j - 1]) == t1);
        lemma_restore_back(v, c, j - 1, m);
    }
}

/// Uncovering a column right after covering it puts back every link and
/// every count: the link tables are those before the cover.
#[verifier::spinoff_prover]
pub proof fn law_uncover_undoes_cover(v: DlxView, c: int)
    requires
        dlx_wf(v),
        v.active.contains(c),
    ensures
        links(uncovered(covered(v, c), c)) == links(v),
{
    reveal(dlx_wf);
    let ops = cover_ops(v, c);
    let n = ops.len() as int;
    let w0 = unlink_col(v, c);
    let cv = covered(v, c);
    lemma_covered_wf(v, c);
    reveal(covered);
    lemma_ops_same(cv, v, c, v.lists[c].len() as int);
    assert(cover_ops(cv, c) == ops);
    lemma_restore_back(v, c, n, 0);
    let t0 = DlxView { lists: cv.lists, active: cv.active, ..remove_upto(w0, ops, 0) };
    assert(cv == (DlxView { lists: cv.lists, active: cv.active, ..remove_upto(w0, ops, n) }));
    assert(restore_from(cv, ops, n, 0) == t0);
    let p = v.active.index_of(c);
    assert(v.active[p] == c);
    lemma_header_unlink(v, p);
    assert(relink_col(t0, c).left == v.left);
    assert(relink_col(t0, c).right == v.right);
}

} // verus!

verus! {

/// The state of uncovering column `c` with the first `m` removals still in
/// effect: the covered structure's lists and header list, and the links
/// after `m` removals.
#[verifier::opaque]
pub open spec fn uncover_state(v: DlxView, c: int, m: int) -> DlxView {
    let cv = covered(v, c);
    DlxView { lists: cv.lists, active: cv.active, ..remove_upto(unlink_col(v, c), cover_ops(v, c), m) }
}

/// Putting back removal `m - 1` of covering column `c`.
#[verifier::spinoff_prover]
pub proof fn lemma_uncover_step(v: DlxView, c: int, m: int)
    requires
        coverable(v, c),
        0 < m <= cover_ops(v, c).len(),
    ensures
        ({
            let t = uncover_state(v, c, m);
            let x = cover_ops(v, c)[m - 1];
            let h = t.col[x] as int;
            &&& is_data(t, x)
            &&& 0 <= h < total(t)
            &&& t.col.len() == total(t)
            &&& t.size.len() == total(t)
            &&& t.up.len() == total(t)
            &&& t.down.len() == total(t)
            &&& t.size[h] + 1 <= usize::MAX
            &&& 0 <= t.up[x] < total(t)
            &&& 0 <= t.down[x] < total(t)
            &&& t.up[x] != x
            &&& t.down[x] != x
            &&& restore_node(t, x) == uncover_state(v, c, m - 1)
        }),
{
    reveal(coverable);
    lemma_cover_step(v, c, m - 1);
    lemma_cover_prefix(v, c, m);
    reveal(prefix_ok);
    reveal(uncover_state);
    let t = uncover_state(v, c, m);
    let x = cover_ops(v, c)[m - 1];
    assert(restore_node(t, x) == uncover_state(v, c, m - 1));
}

} // verus!

verus! {

/// What stays fixed while uncovering column `c`.
#[verifier::spinoff_prover]
pub proof fn lemma_uncover_frame(v: DlxView, c: int, m: int)
    requires
        coverable(v, c),
        0 <= m <= cover_ops(v, c).len(),
    ensures
        ({
            let t = uncover_state(v, c, m);
            let w0 = unlink_col(v, c);
            &&& t.left == w0.left
            &&& t.right == w0.right
            &&& t.col == v.col
            &&& t.row_id == v.row_id
            &&& t.rstart == v.rstart
            &&& t.rend == v.rend
            &&& t.ncols == v.ncols
            &&& total(t) == total(v)
            &&& t.up.len() == total(v)
            &&& t.down.len() == total(v)
            &&& t.size.len() == total(v)
            &&& forall|y: int|
                #![trigger t.up[y]]
                #![trigger t.down[y]]
                0 <= y < total(v) && v.col[y] == c ==> t.up[y] == v.up[y] && t.down[y] == v.down[y]
        }),
{
    reveal(coverable);
    lemma_cover_prefix(v, c, m);
    reveal(prefix_ok);
    reveal(uncover_state);
}

} // verus!
