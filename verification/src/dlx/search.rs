//! The search of Algorithm X: what its states keep and why what it
//! reports are exact covers.
use vstd::prelude::*;
use crate::dlx::model::{
    DlxView, hdr, total, is_data, dlx_wf, list_ok, row_live, same_row, row_others, row_has_col, covers_col,
    rows_disjoint, exact_cover, covered, row_ok,
};
use crate::dlx::laws::{lemma_row_others, lemma_same_row};

verus! {

/// The search state `s`, reached from `v0` by choosing the rows through
/// `chosen`: well formed, with the same rows; its active columns are those
/// of `v0` that no chosen row covers; its lists only lost nodes; the chosen
/// rows were linked into `v0`, share no column, and lie in active columns.
pub open spec fn search_ok(v0: DlxView, s: DlxView, chosen: Seq<int>) -> bool {
    &&& dlx_wf(v0)
    &&& dlx_wf(s)
    &&& s.col == v0.col
    &&& s.rstart == v0.rstart
    &&& s.rend == v0.rend
    &&& s.row_id == v0.row_id
    &&& s.ncols == v0.ncols
    &&& total(s) == total(v0)
    &&& forall|h: int| #[trigger] s.active.contains(h) <==> v0.active.contains(h) && !covers_col(v0, chosen, h)
    &&& forall|g: int, y: int| 0 <= g < hdr(v0) && #[trigger] s.lists[g].contains(y) ==> v0.lists[g].contains(y)
    &&& forall|i: int|
        0 <= i < chosen.len() ==> is_data(v0, #[trigger] chosen[i]) && v0.lists[v0.col[chosen[i]] as int].contains(chosen[i])
    &&& rows_disjoint(v0, chosen)
    &&& forall|i: int, h: int| 0 <= i < chosen.len() && #[trigger] row_has_col(v0, chosen[i], h) ==> v0.active.contains(h)
}

/// With no active column left, the chosen rows are an exact cover of `v0`.
#[verifier::spinoff_prover]
pub proof fn lemma_search_done(v0: DlxView, s: DlxView, chosen: Seq<int>)
    requires
        search_ok(v0, s, chosen),
        s.active.len() == 0,
    ensures
        exact_cover(v0, chosen),
{
    reveal(dlx_wf);
    assert forall|h: int| #[trigger] v0.active.contains(h) <==> covers_col(v0, chosen, h) by {
        assert(!s.active.contains(h));
        if covers_col(v0, chosen, h) {
            let i = choose|i: int| 0 <= i < chosen.len() && #[trigger] row_has_col(v0, chosen[i], h);
        }
    }
}

/// The nodes of row `r`, linked into active column `c`, other than `r`:
/// their columns are active, differ from `c` and from each other, and with
/// `c` they are the row's columns.
#[verifier::spinoff_prover]
pub proof fn lemma_row_cols(s: DlxView, c: int, r: int)
    requires
        dlx_wf(s),
        s.active.contains(c),
        s.lists[c].contains(r),
    ensures
        ({
            let ro = row_others(s, r);
            &&& is_data(s, r)
            &&& s.col[r] == c
            &&& forall|t: int| 0 <= t < ro.len() ==> s.active.contains(#[trigger] s.col[ro[t]] as int) && s.col[ro[t]] != c
            &&& forall|t1: int, t2: int| 0 <= t1 < t2 < ro.len() ==> #[trigger] s.col[ro[t1]] != #[trigger] s.col[ro[t2]]
            &&& forall|h: int| #[trigger] row_has_col(s, r, h) <==> (h == c || exists|t: int| 0 <= t < ro.len() && #[trigger] s.col[ro[t]] == h)
        }),
{
    reveal(dlx_wf);
    let ro = row_others(s, r);
    let p = s.active.index_of(c);
    assert(1 <= s.active[p] < hdr(s));
    assert(list_ok(s, c, s.lists[c]));
    let k = choose|k: int| 0 <= k < s.lists[c].len() && s.lists[c][k] == r;
    assert(is_data(s, s.lists[c][k]) && s.col[s.lists[c][k]] == c);
    lemma_row_others(s, r);
    assert(row_live(s, r));
    assert forall|t: int| 0 <= t < ro.len() implies s.active.contains(#[trigger] s.col[ro[t]] as int) && s.col[ro[t]] != c by {
        lemma_same_row(s, r, ro[t]);
    }
    assert forall|t1: int, t2: int| 0 <= t1 < t2 < ro.len() implies #[trigger] s.col[ro[t1]] != #[trigger] s.col[ro[t2]] by {
        lemma_same_row(s, r, ro[t1]);
        assert(same_row(s, ro[t1], ro[t2]));
        lemma_same_row(s, ro[t1], ro[t2]);
    }
    assert forall|h: int| #[trigger] row_has_col(s, r, h) <==> (h == c || exists|t: int| 0 <= t < ro.len() && #[trigger] s.col[ro[t]] == h) by {
        if row_has_col(s, r, h) {
            let y = choose|y: int| same_row(s, r, y) && #[trigger] s.col[y] == h;
            if y != r {
                assert(ro.contains(y));
                let t = choose|t: int| 0 <= t < ro.len() && ro[t] == y;
                assert(s.col[ro[t]] == h);
            }
        }
        if h == c {
            assert(same_row(s, r, r) && s.col[r] == h);
        }
        if exists|t: int| 0 <= t < ro.len() && #[trigger] s.col[ro[t]] == h {
            let t = choose|t: int| 0 <= t < ro.len() && #[trigger] s.col[ro[t]] == h;
            assert(same_row(s, r, ro[t]));
        }
    }
}

/// Choosing row `r` of active column `c` and covering its columns keeps
/// `search_ok`, with `r` added to the chosen rows.
#[verifier::spinoff_prover]
pub proof fn lemma_search_step(v0: DlxView, s: DlxView, chosen: Seq<int>, c: int, r: int, s2: DlxView)
    requires
        search_ok(v0, s, chosen),
        s.active.contains(c),
        s.lists[c].contains(r),
        dlx_wf(s2),
        s2.col == s.col,
        s2.rstart == s.rstart,
        s2.rend == s.rend,
        s2.row_id == s.row_id,
        s2.ncols == s.ncols,
        total(s2) == total(s),
        forall|h: int| #[trigger] s2.active.contains(h) <==> s.active.contains(h) && !row_has_col(s, r, h),
        forall|g: int, y: int| 0 <= g < hdr(s) && #[trigger] s2.lists[g].contains(y) ==> s.lists[g].contains(y),
    ensures
        search_ok(v0, s2, chosen.push(r)),
{
    reveal(dlx_wf);
    let ch2 = chosen.push(r);
    lemma_row_cols(s, c, r);
    let p = s.active.index_of(c);
    assert(1 <= s.active[p] < hdr(s));
    assert(row_live(s, r)) by {
        assert(list_ok(s, c, s.lists[c]));
    }
    assert forall|h: int| row_has_col(s, r, h) implies #[trigger] s.active.contains(h) by {
        let y = choose|y: int| same_row(s, r, y) && #[trigger] s.col[y] == h;
    }
    assert forall|h: int| #[trigger] covers_col(v0, ch2, h) <==> covers_col(v0, chosen, h) || row_has_col(v0, r, h) by {
        if covers_col(v0, ch2, h) {
            let i = choose|i: int| 0 <= i < ch2.len() && #[trigger] row_has_col(v0, ch2[i], h);
            if i < chosen.len() {
                assert(ch2[i] == chosen[i]);
            }
        }
        if covers_col(v0, chosen, h) {
            let i = choose|i: int| 0 <= i < chosen.len() && #[trigger] row_has_col(v0, chosen[i], h);
            assert(ch2[i] == chosen[i]);
        }
        if row_has_col(v0, r, h) {
            assert(ch2[chosen.len() as int] == r);
        }
    }
    assert forall|h: int| #[trigger] s2.active.contains(h) <==> v0.active.contains(h) && !covers_col(v0, ch2, h) by {
        assert(row_has_col(s, r, h) == row_has_col(v0, r, h));
    }
    assert forall|i: int| 0 <= i < ch2.len() implies is_data(v0, #[trigger] ch2[i]) && v0.lists[v0.col[ch2[i]] as int].contains(ch2[i]) by {
        if i == chosen.len() {
            assert(v0.lists[c].contains(r));
        } else {
            assert(ch2[i] == chosen[i]);
        }
    }
    assert forall|i: int, j: int, h: int| 0 <= i < j < ch2.len() && #[trigger] row_has_col(v0, ch2[i], h) implies !#[trigger] row_has_col(v0, ch2[j], h) by {
        assert(ch2[i] == chosen[i]);
        if j == chosen.len() {
            if row_has_col(v0, r, h) {
                assert(row_has_col(s, r, h));
                assert(s.active.contains(h));
                assert(covers_col(v0, chosen, h));
            }
        } else {
            assert(ch2[j] == chosen[j]);
        }
    }
    assert forall|i: int, h: int| 0 <= i < ch2.len() && #[trigger] row_has_col(v0, ch2[i], h) implies v0.active.contains(h) by {
        if i == chosen.len() {
            assert(row_has_col(s, r, h));
        } else {
            assert(ch2[i] == chosen[i]);
        }
    }
}

} // verus!

verus! {

/// Step `t` of a chain of covers: the column of node `ro[t]` is active in
/// `states[t]`, and covering it gives `states[t + 1]`.
pub open spec fn chain_step(s: DlxView, ro: Seq<int>, states: Seq<DlxView>, t: int) -> bool {
    &&& states[t].active.contains(s.col[ro[t]] as int)
    &&& states[t + 1] == covered(states[t], s.col[ro[t]] as int)
}

/// State `t` of a chain of covers is well formed, with the rows of `s`.
pub open spec fn chain_state(s: DlxView, states: Seq<DlxView>, t: int) -> bool {
    &&& dlx_wf(states[t])
    &&& states[t].col == s.col
    &&& states[t].rstart == s.rstart
    &&& states[t].rend == s.rend
    &&& states[t].row_id == s.row_id
    &&& states[t].ncols == s.ncols
    &&& total(states[t]) == total(s)
}

/// `states` records covering, one after another, the columns of the nodes
/// of row `r` other than `r`, starting from `states[0]`: each state is well
/// formed with the rows of `s`, and each is the one before with that column
/// covered.
#[verifier::opaque]
pub open spec fn cover_chain(s: DlxView, r: int, states: Seq<DlxView>) -> bool {
    let ro = row_others(s, r);
    &&& states.len() == ro.len() + 1
    &&& forall|t: int| 0 <= t <= ro.len() ==> #[trigger] chain_state(s, states, t)
    &&& forall|t: int| 0 <= t < ro.len() ==> #[trigger] chain_step(s, ro, states, t)
}

} // verus!

verus! {

/// No column holds a node of row `x` and a node of row `y`.
pub open spec fn rows_apart(v: DlxView, x: int, y: int) -> bool {
    forall|h: int| #[trigger] row_has_col(v, x, h) ==> !row_has_col(v, y, h)
}

/// The rows through the nodes `rows`, each named by the node it starts at.
pub open spec fn row_starts(v: DlxView, rows: Seq<int>) -> Set<int> {
    Set::new(|a: int| exists|i: int| 0 <= i < rows.len() && #[trigger] v.rstart[rows[i]] == a)
}

/// Some entry of `trace` names the same rows as `rows`.
pub open spec fn reported(v: DlxView, trace: Seq<Seq<int>>, rows: Seq<int>) -> bool {
    exists|q: int| 0 <= q < trace.len() && #[trigger] row_starts(v, trace[q]) == row_starts(v, rows)
}

/// Nodes of one row have a node in the same columns.
proof fn lemma_same_row_cols(v: DlxView, x: int, y: int, h: int)
    requires
        dlx_wf(v),
        is_data(v, x),
        same_row(v, x, y),
    ensures
        row_has_col(v, x, h) == row_has_col(v, y, h),
{
    reveal(dlx_wf);
    lemma_same_row(v, x, y);
    if row_has_col(v, x, h) {
        let z = choose|z: int| same_row(v, x, z) && #[trigger] v.col[z] == h;
        assert(same_row(v, y, z));
    }
    if row_has_col(v, y, h) {
        let z = choose|z: int| same_row(v, y, z) && #[trigger] v.col[z] == h;
        assert(same_row(v, x, z));
    }
}

/// With no active column, the only exact cover is empty.
pub proof fn lemma_cover_of_nothing(s: DlxView, rest: Seq<int>)
    requires
        dlx_wf(s),
        s.active.len() == 0,
        exact_cover(s, rest),
    ensures
        rest.len() == 0,
{
    reveal(dlx_wf);
    if rest.len() > 0 {
        let x = rest[0];
        assert(is_data(s, x));
        assert(row_ok(s, x));
        let h = s.col[x] as int;
        assert(row_has_col(s, x, h)) by {
            assert(same_row(s, x, x));
        }
        assert(covers_col(s, rest, h));
        assert(s.active.contains(h));
    }
}

/// An exact cover meets active column `c` in a row linked into `c`.
pub proof fn lemma_cover_meets(s: DlxView, c: int, rest: Seq<int>)
    requires
        dlx_wf(s),
        s.active.contains(c),
        exact_cover(s, rest),
    ensures
        exists|k1: int, i: int|
            0 <= k1 < s.lists[c].len() && 0 <= i < rest.len() && #[trigger] same_row(s, rest[i], s.lists[c][k1]),
{
    reveal(dlx_wf);
    assert(covers_col(s, rest, c));
    let i = choose|i: int| 0 <= i < rest.len() && #[trigger] row_has_col(s, rest[i], c);
    let x = rest[i];
    let z = choose|z: int| same_row(s, x, z) && #[trigger] s.col[z] == c;
    assert(is_data(s, x));
    assert(row_ok(s, x));
    let hx = s.col[x] as int;
    assert(row_has_col(s, x, hx)) by {
        assert(same_row(s, x, x));
    }
    assert(covers_col(s, rest, hx));
    assert(s.active.contains(hx));
    assert(s.lists[hx].contains(x));
    assert(row_live(s, x));
    assert(s.lists[c].contains(z));
    let k1 = choose|k1: int| 0 <= k1 < s.lists[c].len() && s.lists[c][k1] == z;
    assert(same_row(s, rest[i], s.lists[c][k1]));
}

/// Choosing row `r`, the row of `rest[i0]`, turns the exact cover `rest`
/// of `s` into the exact cover of the state `s2` that choosing it leads to.
#[verifier::spinoff_prover]
#[verifier::rlimit(30)]
pub proof fn lemma_rest_step(s: DlxView, r: int, s2: DlxView, rest: Seq<int>, i0: int)
    requires
        dlx_wf(s),
        exact_cover(s, rest),
        0 <= i0 < rest.len(),
        same_row(s, rest[i0], r),
        s2.col == s.col,
        s2.rstart == s.rstart,
        s2.rend == s.rend,
        s2.ncols == s.ncols,
        total(s2) == total(s),
        forall|h: int| #[trigger] s2.active.contains(h) <==> s.active.contains(h) && !row_has_col(s, r, h),
        forall|g: int, y: int|
            0 <= g < hdr(s) && #[trigger] s.lists[g].contains(y) && rows_apart(s, r, y) ==> s2.lists[g].contains(y),
    ensures
        exact_cover(s2, rest.remove(i0)),
{
    reveal(dlx_wf);
    let x0 = rest[i0];
    let rr = rest.remove(i0);
    assert(is_data(s, x0));
    assert forall|h: int| row_has_col(s, r, h) == #[trigger] row_has_col(s, x0, h) by {
        lemma_same_row_cols(s, x0, r, h);
    }
    assert forall|j: int| 0 <= j < rr.len() implies rows_apart(s, r, #[trigger] rr[j]) && rr[j] == rest[if j < i0 {
        j
    } else {
        j + 1
    }] by {
        let jj = if j < i0 { j } else { j + 1 };
        assert(rr[j] == rest[jj]);
        assert forall|h: int| #[trigger] row_has_col(s, r, h) implies !row_has_col(s, rr[j], h) by {
            assert(row_has_col(s, x0, h));
            if jj < i0 {
                if row_has_col(s, rest[jj], h) {
                    assert(!row_has_col(s, rest[i0], h));
                }
            } else {
                assert(!row_has_col(s, rest[jj], h));
            }
        }
    }
    assert forall|j: int| 0 <= j < rr.len() implies is_data(s2, #[trigger] rr[j]) && s2.lists[s2.col[rr[j]] as int].contains(
        rr[j],
    ) by {
        let jj = if j < i0 { j } else { j + 1 };
        assert(rr[j] == rest[jj]);
        let x = rest[jj];
        assert(is_data(s, x) && s.lists[s.col[x] as int].contains(x));
        assert(s.col[x] < hdr(s));
        assert(rows_apart(s, r, x));
    }
    assert forall|h: int, y: int| row_has_col(s2, y, h) == #[trigger] row_has_col(s, y, h) by {
        if row_has_col(s2, y, h) {
            let z = choose|z: int| same_row(s2, y, z) && #[trigger] s2.col[z] == h;
            assert(same_row(s, y, z) && s.col[z] == h);
        }
        if row_has_col(s, y, h) {
            let z = choose|z: int| same_row(s, y, z) && #[trigger] s.col[z] == h;
            assert(same_row(s2, y, z) && s2.col[z] == h);
        }
    }
    assert forall|i: int, j: int, h: int|
        0 <= i < j < rr.len() && #[trigger] row_has_col(s2, rr[i], h) implies !#[trigger] row_has_col(s2, rr[j], h) by {
        let ii = if i < i0 { i } else { i + 1 };
        let jj = if j < i0 { j } else { j + 1 };
        assert(rr[i] == rest[ii]);
        assert(rr[j] == rest[jj]);
        assert(row_has_col(s, rest[ii], h));
        assert(row_has_col(s2, rr[j], h) == row_has_col(s, rest[jj], h));
        assert(!row_has_col(s, rest[jj], h));
    }
    assert forall|h: int| #[trigger] s2.active.contains(h) <==> covers_col(s2, rr, h) by {
        if s2.active.contains(h) {
            assert(covers_col(s, rest, h));
            let i = choose|i: int| 0 <= i < rest.len() && #[trigger] row_has_col(s, rest[i], h);
            assert(!row_has_col(s, x0, h));
            assert(i != i0);
            let j = if i < i0 { i } else { i - 1 };
            assert(rr[j] == rest[i]);
            assert(row_has_col(s2, rr[j], h));
        }
        if covers_col(s2, rr, h) {
            let j = choose|j: int| 0 <= j < rr.len() && #[trigger] row_has_col(s2, rr[j], h);
            let jj = if j < i0 { j } else { j + 1 };
            assert(rr[j] == rest[jj]);
            assert(row_has_col(s, rest[jj], h));
            assert(covers_col(s, rest, h));
            assert(rows_apart(s, r, rr[j]));
            assert(!row_has_col(s, r, h));
        }
    }
}

/// Choosing `r` in place of another node of the same row, `rest[i0]`, names
/// the same rows.
pub proof fn lemma_row_starts_swap(v: DlxView, chosen: Seq<int>, r: int, rest: Seq<int>, i0: int)
    requires
        0 <= i0 < rest.len(),
        v.rstart[r] == v.rstart[rest[i0]],
    ensures
        row_starts(v, chosen.push(r) + rest.remove(i0)) == row_starts(v, chosen + rest),
{
    let a = chosen.push(r) + rest.remove(i0);
    let b = chosen + rest;
    let n = chosen.len() as int;
    assert forall|x: int| row_starts(v, a).contains(x) <==> row_starts(v, b).contains(x) by {
        if row_starts(v, a).contains(x) {
            let i = choose|i: int| 0 <= i < a.len() && #[trigger] v.rstart[a[i]] == x;
            if i < n {
                assert(b[i] == a[i]);
            } else if i == n {
                assert(b[n + i0] == rest[i0]);
            } else {
                let j = i - n - 1;
                let jj = if j < i0 { j } else { j + 1 };
                assert(a[i] == rest[jj]);
                assert(b[n + jj] == rest[jj]);
            }
        }
        if row_starts(v, b).contains(x) {
            let i = choose|i: int| 0 <= i < b.len() && #[trigger] v.rstart[b[i]] == x;
            if i < n {
                assert(a[i] == b[i]);
            } else if i - n == i0 {
                assert(a[n] == r);
            } else {
                let j = i - n;
                let jj = if j < i0 { j } else { j - 1 };
                assert(b[i] == rest[j]);
                assert(a[n + 1 + jj] == rest[j]);
            }
        }
    }
    assert(row_starts(v, a) =~= row_starts(v, b));
}

} // verus!

verus! {

/// Trying row `l[k]` of column `c`: the exact covers of `s` whose row
/// through `c` is one of the first `k + 1` rows of the column are reported,
/// given those through the first `k` were, and that the search from the
/// state `s2` that choosing `l[k]` leads to reports all of its own.
#[verifier::spinoff_prover]
#[verifier::rlimit(30)]
pub proof fn lemma_trace_step(
    v0: DlxView,
    s: DlxView,
    c: int,
    l: Seq<int>,
    k: int,
    r: int,
    s2: DlxView,
    chosen: Seq<int>,
    trace0: Seq<Seq<int>>,
    sub: Seq<Seq<int>>,
)
    requires
        dlx_wf(s),
        s.active.contains(c),
        l == s.lists[c],
        0 <= k < l.len(),
        r == l[k],
        s.rstart == v0.rstart,
        s2.col == s.col,
        s2.rstart == s.rstart,
        s2.rend == s.rend,
        s2.ncols == s.ncols,
        total(s2) == total(s),
        forall|h: int| #[trigger] s2.active.contains(h) <==> s.active.contains(h) && !row_has_col(s, r, h),
        forall|g: int, y: int|
            0 <= g < hdr(s) && #[trigger] s.lists[g].contains(y) && rows_apart(s, r, y) ==> s2.lists[g].contains(y),
        forall|rest: Seq<int>|
            #[trigger] exact_cover(s, rest) && (exists|k1: int, i: int|
                0 <= k1 < k && 0 <= i < rest.len() && #[trigger] same_row(s, rest[i], l[k1])) ==> reported(v0, trace0, chosen + rest),
        forall|rest: Seq<int>|
            #[trigger] exact_cover(s2, rest) ==> reported(v0, sub, chosen.push(r) + rest),
    ensures
        forall|rest: Seq<int>|
            #[trigger] exact_cover(s, rest) && (exists|k1: int, i: int|
                0 <= k1 < k + 1 && 0 <= i < rest.len() && #[trigger] same_row(s, rest[i], l[k1])) ==> reported(v0, (trace0 + sub), chosen + rest),
{
    let t = trace0 + sub;
    assert forall|rest: Seq<int>|
        #[trigger] exact_cover(s, rest) && (exists|k1: int, i: int|
            0 <= k1 < k + 1 && 0 <= i < rest.len() && #[trigger] same_row(s, rest[i], l[k1])) implies reported(v0, t, chosen + rest) by {
        let (k1, i) = choose|k1: int, i: int| 0 <= k1 < k + 1 && 0 <= i < rest.len() && #[trigger] same_row(s, rest[i], l[k1]);
        if k1 < k {
            let q = choose|q: int| 0 <= q < trace0.len() && #[trigger] row_starts(v0, trace0[q]) == row_starts(v0, chosen + rest);
            assert(t[q] == trace0[q]);
            assert(row_starts(v0, t[q]) == row_starts(v0, chosen + rest));
        } else {
            reveal(dlx_wf);
            assert(is_data(s, rest[i]));
            lemma_rest_step(s, r, s2, rest, i);
            let rr = rest.remove(i);
            assert(exact_cover(s2, rr));
            let q = choose|q: int| 0 <= q < sub.len() && #[trigger] row_starts(v0, sub[q]) == row_starts(v0, chosen.push(r) + rr);
            lemma_same_row(s, rest[i], r);
            lemma_row_starts_swap(v0, chosen, r, rest, i);
            assert(t[trace0.len() + q] == sub[q]);
            assert(row_starts(v0, t[trace0.len() + q]) == row_starts(v0, chosen + rest));
        }
    }
}

} // verus!
